//! The addon catalogue: a pointer list saying where each addon's author
//! publishes releases (GitHub, Wago, WoWInterface, TukUI).
use vstd::prelude::*;
use crate::order::lex_lt;
use crate::order::lex_lt_exec;
use crate::text::{chars_eq, chars_of, push_all, starts_with, starts_with_exec, string_of, sub_chars};
use crate::wow::{ostr, strs};

verus! {

/// One catalogue entry.
#[derive(Clone, Debug)]
pub struct CatalogEntry {
    pub id: String,
    pub name: String,
    pub desc: String,
    pub category: String,
    /// `owner/repo` on GitHub.
    pub github: Option<String>,
    /// Wago Addons project id (needs the user's own free API key).
    pub wago: Option<String>,
    /// WoWInterface file id.
    pub wowi: Option<u64>,
    /// TukUI slug (elvui / tukui).
    pub tukui: Option<String>,
    /// CurseForge project id: link-out only, never downloaded from.
    pub curse: Option<u64>,
    /// Substring to pick the right zip when a GitHub release has several
    /// and no release.json.
    pub asset_hint: Option<String>,
    /// Top-level AddOns folders the release installs.
    pub folders: Vec<String>,
    pub url: Option<String>,
    /// Does the author publish a Forever build?  true / false / None = unknown.
    pub forever: Option<bool>,
    /// Optional https icon for the Browse list.
    pub icon: Option<String>,
}

/// The mathematical value of a [`CatalogEntry`].
pub struct EntrySpec {
    pub id: Seq<char>,
    pub name: Seq<char>,
    pub desc: Seq<char>,
    pub category: Seq<char>,
    pub github: Option<Seq<char>>,
    pub wago: Option<Seq<char>>,
    pub wowi: Option<u64>,
    pub tukui: Option<Seq<char>>,
    pub curse: Option<u64>,
    pub asset_hint: Option<Seq<char>>,
    pub folders: Seq<Seq<char>>,
    pub url: Option<Seq<char>>,
    pub forever: Option<bool>,
    pub icon: Option<Seq<char>>,
}

impl View for CatalogEntry {
    type V = EntrySpec;

    open spec fn view(&self) -> EntrySpec {
        EntrySpec {
            id: self.id@,
            name: self.name@,
            desc: self.desc@,
            category: self.category@,
            github: ostr(self.github),
            wago: ostr(self.wago),
            wowi: self.wowi,
            tukui: ostr(self.tukui),
            curse: self.curse,
            asset_hint: ostr(self.asset_hint),
            folders: strs(self.folders@),
            url: ostr(self.url),
            forever: self.forever,
            icon: ostr(self.icon),
        }
    }
}

impl CatalogEntry {
    /// An entry with an id and a name and nothing else.
    pub fn new(id: String, name: String) -> (r: Self)
        ensures
            r@.id == id@,
            r@.name == name@,
            r@.desc.len() == 0,
            r@.category.len() == 0,
            r@.github is None && r@.wago is None && r@.wowi is None && r@.tukui is None,
            r@.curse is None && r@.asset_hint is None && r@.url is None && r@.forever is None,
            r@.icon is None,
            r@.folders.len() == 0,
    {
        let folders: Vec<String> = Vec::new();
        assert(strs(folders@) =~= Seq::<Seq<char>>::empty());
        CatalogEntry {
            id,
            name,
            desc: String::new(),
            category: String::new(),
            github: None,
            wago: None,
            wowi: None,
            tukui: None,
            curse: None,
            asset_hint: None,
            folders,
            url: None,
            forever: None,
            icon: None,
        }
    }
}

/// A hand-picked set of addons shown as "Starter picks" in Browse.
#[derive(Clone, Debug)]
pub struct Bundle {
    pub id: String,
    pub name: String,
    pub desc: String,
    /// Catalogue ids, in display order.
    pub addons: Vec<String>,
    /// Short plain-English note shown under the bundle.
    pub note: String,
}

/// The whole catalogue.
#[derive(Clone, Debug)]
pub struct Catalog {
    pub flavor: String,
    pub updated: String,
    pub addons: Vec<CatalogEntry>,
    pub bundles: Vec<Bundle>,
}

pub open spec fn entry_views(v: Seq<CatalogEntry>) -> Seq<EntrySpec> {
    v.map_values(|e: CatalogEntry| e@)
}

impl Default for Catalog {
    fn default() -> (r: Self)
        ensures
            r.flavor@.len() == 0,
            r.updated@.len() == 0,
            r.addons@.len() == 0,
            r.bundles@.len() == 0,
    {
        Catalog { flavor: String::new(), updated: String::new(), addons: Vec::new(), bundles: Vec::new() }
    }
}

/// Popularity figures for one addon.
#[derive(Clone, Debug)]
pub struct StatEntry {
    pub downloads: Option<u64>,
    pub updated_at: Option<String>,
    /// "github" | "wowi": what the number counts.
    pub source: String,
}

/// Popularity feed: release download totals and last-release dates, by catalogue id.
#[derive(Clone, Debug)]
pub struct Stats {
    pub updated: String,
    pub entries: Vec<(String, StatEntry)>,
}

/// Which copy of the catalogue is used: the remote one when it has entries and
/// its `updated` date is not older than the bundled one's.
pub open spec fn remote_wins(remote_updated: Seq<char>, remote_len: nat, local_updated: Seq<char>) -> bool {
    remote_len > 0 && !lex_lt(remote_updated, local_updated)
}

/// Latest catalogue: the remote copy (`None` when unreachable) unless it is
/// empty or older than the bundled copy; remote on a tie. Returns the chosen
/// catalogue and where it came from.
pub fn load(remote: Option<Catalog>, bundled: Catalog) -> (r: (Catalog, &'static str))
    ensures
        match remote {
            Some(c) => if remote_wins(c.updated@, c.addons@.len(), bundled.updated@) {
                r.0 == c && r.1@ == "remote"@
            } else {
                r.0 == bundled && r.1@ == "bundled (newer)"@
            },
            None => r.0 == bundled && r.1@ == "bundled"@,
        },
{
    match remote {
        Some(c) => {
            let cu = chars_of(c.updated.as_str());
            let lu = chars_of(bundled.updated.as_str());
            if c.addons.len() > 0 && !lex_lt_exec(&cu, &lu) {
                (c, "remote")
            } else {
                (bundled, "bundled (newer)")
            }
        },
        None => (bundled, "bundled"),
    }
}

/// First entry with the given id.
pub open spec fn spec_find_id(v: Seq<EntrySpec>, id: Seq<char>) -> Option<int>
    decreases v.len(),
{
    if v.len() == 0 {
        None
    } else {
        match spec_find_id(v.drop_last(), id) {
            Some(i) => Some(i),
            None => if v.last().id == id { Some(v.len() - 1) } else { None },
        }
    }
}

pub proof fn lemma_find_id(v: Seq<EntrySpec>, id: Seq<char>)
    ensures
        spec_find_id(v, id) matches Some(i) ==> 0 <= i < v.len() && v[i].id == id
            && forall|j: int| 0 <= j < i ==> v[j].id != id,
        spec_find_id(v, id) is None ==> forall|j: int| 0 <= j < v.len() ==> v[j].id != id,
    decreases v.len(),
{
    if v.len() > 0 {
        lemma_find_id(v.drop_last(), id);
        assert forall|j: int| 0 <= j < v.len() - 1 implies v.drop_last()[j] == v[j] by {}
    }
}

pub fn find_id_index(addons: &Vec<CatalogEntry>, id: &[char]) -> (r: Option<usize>)
    ensures
        match r {
            Some(i) => spec_find_id(entry_views(addons@), id@) == Some(i as int),
            None => spec_find_id(entry_views(addons@), id@) is None,
        },
{
    let ghost v = entry_views(addons@);
    proof { lemma_find_id(v, id@); }
    let mut i: usize = 0;
    while i < addons.len()
        invariant
            i <= addons.len(),
            v == entry_views(addons@),
            forall|j: int| 0 <= j < i ==> v[j].id != id@,
        decreases addons.len() - i,
    {
        let e = chars_of(addons[i].id.as_str());
        if chars_eq(&e, id) {
            assert(v[i as int].id == id@);
            proof {
                if spec_find_id(v, id@) != Some(i as int) {
                    lemma_find_id(v, id@);
                }
            }
            return Some(i);
        }
        i = i + 1;
    }
    None
}

impl Catalog {
    /// The entry with the given id, if any.
    pub fn find(&self, id: &str) -> (r: Option<&CatalogEntry>)
        ensures
            match r {
                Some(e) => spec_find_id(entry_views(self.addons@), id@) matches Some(i) && *e == self.addons@[i],
                None => spec_find_id(entry_views(self.addons@), id@) is None,
            },
    {
        let idc = chars_of(id);
        match find_id_index(&self.addons, &idc) {
            Some(i) => {
                proof { lemma_find_id(entry_views(self.addons@), id@); }
                Some(&self.addons[i])
            },
            None => None,
        }
    }

    /// The asset hint of the entry a package was matched to.
    pub fn asset_hint_for(&self, catalog_id: Option<&str>) -> (r: Option<String>)
        ensures
            ostr(r) == match catalog_id {
                Some(id) => match spec_find_id(entry_views(self.addons@), id@) {
                    Some(i) => entry_views(self.addons@)[i].asset_hint,
                    None => None,
                },
                None => None,
            },
    {
        match catalog_id {
            Some(id) => match self.find(id) {
                Some(e) => {
                    proof { lemma_find_id(entry_views(self.addons@), id@); }
                    match &e.asset_hint {
                        Some(h) => Some(h.clone()),
                        None => None,
                    }
                },
                None => None,
            },
            None => None,
        }
    }

    /// The Forever flag of the entry a package was matched to.
    pub fn forever_for(&self, catalog_id: Option<&str>) -> (r: Option<bool>)
        ensures
            r == match catalog_id {
                Some(id) => match spec_find_id(entry_views(self.addons@), id@) {
                    Some(i) => entry_views(self.addons@)[i].forever,
                    None => None,
                },
                None => None,
            },
    {
        match catalog_id {
            Some(id) => match self.find(id) {
                Some(e) => {
                    proof { lemma_find_id(entry_views(self.addons@), id@); }
                    e.forever
                },
                None => None,
            },
            None => None,
        }
    }

    /// What the catalogue says about a Forever build for a package key
    /// (`cat:<id>` keys only).
    pub fn vouched_forever(&self, key: &str) -> (r: Option<bool>)
        ensures
            r == (if starts_with(key@, "cat:"@) {
                match spec_find_id(entry_views(self.addons@), key@.skip(4)) {
                    Some(i) => entry_views(self.addons@)[i].forever,
                    None => None,
                }
            } else {
                None
            }),
    {
        let k = chars_of(key);
        let p = chars_of("cat:");
        proof { reveal_strlit("cat:"); }
        if !starts_with_exec(&k, &p) {
            return None;
        }
        let id = sub_chars(&k, 4, k.len());
        assert(id@ =~= key@.skip(4));
        match find_id_index(&self.addons, &id) {
            Some(i) => {
                proof { lemma_find_id(entry_views(self.addons@), id@); }
                self.addons[i].forever
            },
            None => None,
        }
    }
}

/// The package key of a catalogue entry.
pub open spec fn spec_catalog_key(id: Seq<char>) -> Seq<char> {
    "cat:"@ + id
}

pub fn catalog_key(id: &str) -> (r: String)
    ensures
        r@ == spec_catalog_key(id@),
{
    let mut v = chars_of("cat:");
    let i = chars_of(id);
    push_all(&mut v, &i);
    string_of(&v)
}

/// A catalogue entry as listed in Browse.
#[derive(Clone, Debug)]
pub struct CatalogRow {
    pub entry: CatalogEntry,
    pub installed: bool,
    pub key: String,
}

pub open spec fn strings_contain(v: Seq<String>, s: Seq<char>) -> bool {
    exists|i: int| 0 <= i < v.len() && (#[trigger] v[i])@ == s
}

fn contains_string(v: &Vec<String>, s: &[char]) -> (r: bool)
    ensures
        r == strings_contain(v@, s@),
{
    let mut i: usize = 0;
    while i < v.len()
        invariant
            i <= v.len(),
            forall|j: int| 0 <= j < i ==> (#[trigger] v@[j])@ != s@,
        decreases v.len() - i,
    {
        let c = chars_of(v[i].as_str());
        if chars_eq(&c, s) {
            return true;
        }
        i = i + 1;
    }
    false
}

/// Browse rows: every entry, its package key, and whether a package with that key is installed.
pub fn catalog_rows(cat: Catalog, installed_keys: &Vec<String>) -> (r: Vec<CatalogRow>)
    ensures
        r@.len() == cat.addons@.len(),
        forall|i: int| 0 <= i < r@.len() ==> {
            &&& (#[trigger] r@[i]).entry == cat.addons@[i]
            &&& r@[i].key@ == spec_catalog_key(cat.addons@[i].id@)
            &&& r@[i].installed == strings_contain(installed_keys@, spec_catalog_key(cat.addons@[i].id@))
        },
{
    let mut rows: Vec<CatalogRow> = Vec::new();
    let mut addons = cat.addons;
    let ghost all = addons@;
    let mut rev: Vec<CatalogRow> = Vec::new();
    while addons.len() > 0
        invariant
            addons@ == all.take(addons@.len() as int),
            addons@.len() + rev@.len() == all.len(),
            forall|i: int| 0 <= i < rev@.len() ==> {
                let j = all.len() - 1 - i;
                &&& (#[trigger] rev@[i]).entry == all[j]
                &&& rev@[i].key@ == spec_catalog_key(all[j].id@)
                &&& rev@[i].installed == strings_contain(installed_keys@, spec_catalog_key(all[j].id@))
            },
        decreases addons.len(),
    {
        let e = addons.pop().unwrap();
        let key = catalog_key(e.id.as_str());
        let kc = chars_of(key.as_str());
        let installed = contains_string(installed_keys, &kc);
        rev.push(CatalogRow { entry: e, installed, key });
        assert(addons@ =~= all.take(addons@.len() as int));
    }
    while rev.len() > 0
        invariant
            rows@.len() + rev@.len() == all.len(),
            forall|i: int| 0 <= i < rev@.len() ==> {
                let j = all.len() - 1 - i;
                &&& (#[trigger] rev@[i]).entry == all[j]
                &&& rev@[i].key@ == spec_catalog_key(all[j].id@)
                &&& rev@[i].installed == strings_contain(installed_keys@, spec_catalog_key(all[j].id@))
            },
            forall|i: int| 0 <= i < rows@.len() ==> {
                &&& (#[trigger] rows@[i]).entry == all[i]
                &&& rows@[i].key@ == spec_catalog_key(all[i].id@)
                &&& rows@[i].installed == strings_contain(installed_keys@, spec_catalog_key(all[i].id@))
            },
        decreases rev.len(),
    {
        let row = rev.pop().unwrap();
        rows.push(row);
    }
    rows
}

} // verus!
