//! Grouping scanned addon folders into packages and attaching their sources.
use vstd::prelude::*;
use crate::catalog::{entry_views, spec_find_id, find_id_index, lemma_find_id, CatalogEntry, EntrySpec};
use crate::num::{decimal, u64_to_chars};
use crate::sources::{normalize_version, opt_source_view, spec_label, spec_normalize_version, spec_url, Remote, Source, SourceSpec};
use crate::text::{
    chars_eq, lower, lower_exec, take_until_in, take_until_in_exec,
    chars_of, drop_in_end, drop_in_end_exec, push_all, split_char, split_char_exec, starts_with,
    starts_with_exec, string_of, sub_chars, trim, trim_exec, views, skip_in,
};
use crate::wow::{addon_views, ostr, strs, AddonFolder, AddonSpec};
use crate::state::{spec_lookup, InstalledMap, InstalledSpec};
use crate::order::{is_perm, lex_lt, lex_lt_exec, stable_order, stably_sorted};

verus! {

/// The GitHub `owner/repo` named by an addon's website, when it is exactly
/// `https://github.com/owner/repo` (or `http://`), trailing slashes ignored.
pub open spec fn github_from_website(site: Seq<char>) -> Option<Seq<char>> {
    let t = drop_in_end(trim(site), seq!['/']);
    let rest = if starts_with(t, "https://github.com/"@) {
        Some(t.skip("https://github.com/"@.len() as int))
    } else if starts_with(t, "http://github.com/"@) {
        Some(t.skip("http://github.com/"@.len() as int))
    } else {
        None
    };
    match rest {
        Some(r) => {
            let parts = split_char(r, '/');
            if parts.len() == 2 && parts[0].len() > 0 && parts[1].len() > 0 {
                Some(parts[0] + seq!['/'] + parts[1])
            } else {
                None
            }
        },
        None => None,
    }
}

/// Where to update a package from: the catalogue's sources first (GitHub,
/// then Wago when a key is set, WoWInterface, TukUI, then Wago without a key
/// so the UI can explain), then the ids the folder's TOC declares.
pub open spec fn spec_pick_source(entry: Option<EntrySpec>, f: AddonSpec, has_wago: bool) -> Option<SourceSpec> {
    let from_entry = match entry {
        Some(e) => if e.github is Some {
            Some(SourceSpec::Github(e.github->0))
        } else if has_wago && e.wago is Some {
            Some(SourceSpec::Wago(e.wago->0))
        } else if e.wowi is Some {
            Some(SourceSpec::Wowi(e.wowi->0))
        } else if e.tukui is Some {
            Some(SourceSpec::Tukui(e.tukui->0))
        } else if e.wago is Some {
            Some(SourceSpec::Wago(e.wago->0))
        } else {
            None
        },
        None => None,
    };
    if from_entry is Some {
        from_entry
    } else if f.wago is Some {
        Some(SourceSpec::Wago(f.wago->0))
    } else if f.wowi is Some {
        Some(SourceSpec::Wowi(f.wowi->0))
    } else if f.website is Some {
        match github_from_website(f.website->0) {
            Some(r) => Some(SourceSpec::Github(r)),
            None => None,
        }
    } else {
        None
    }
}

pub open spec fn opt_entry_view(e: Option<&CatalogEntry>) -> Option<EntrySpec> {
    match e {
        Some(x) => Some(x@),
        None => None,
    }
}

fn github_repo_of_site(site: &str) -> (r: Option<String>)
    ensures
        match r {
            Some(x) => github_from_website(site@) == Some(x@),
            None => github_from_website(site@) is None,
        },
{
    let c = chars_of(site);
    let t0 = trim_exec(&c);
    let slash = vec!['/'];
    assert(slash@ =~= seq!['/']);
    let t = drop_in_end_exec(&t0, &slash);
    let p1 = chars_of("https://github.com/");
    let p2 = chars_of("http://github.com/");
    let rest = if starts_with_exec(&t, &p1) {
        assert(t@.skip(p1@.len() as int) =~= t@.subrange(p1@.len() as int, t@.len() as int));
        sub_chars(&t, p1.len(), t.len())
    } else if starts_with_exec(&t, &p2) {
        assert(t@.skip(p2@.len() as int) =~= t@.subrange(p2@.len() as int, t@.len() as int));
        sub_chars(&t, p2.len(), t.len())
    } else {
        return None;
    };
    let parts = split_char_exec(&rest, '/');
    assert(views(parts@).len() == parts@.len());
    if parts.len() == 2 && parts[0].len() > 0 && parts[1].len() > 0 {
        assert(views(parts@)[0] == parts@[0]@ && views(parts@)[1] == parts@[1]@);
        let mut v = sub_chars(&parts[0], 0, parts[0].len());
        assert(v@ =~= parts@[0]@);
        v.push('/');
        push_all(&mut v, &parts[1]);
        Some(string_of(&v))
    } else {
        proof {
            if parts@.len() == 2 {
                assert(views(parts@)[0] == parts@[0]@ && views(parts@)[1] == parts@[1]@);
            }
        }
        None
    }
}

/// Pick the update source of a package (see [`spec_pick_source`]).
pub fn pick_source(entry: Option<&CatalogEntry>, f: &AddonFolder, has_wago: bool) -> (r: Option<Source>)
    ensures
        opt_source_view(r) == spec_pick_source(opt_entry_view(entry), f@, has_wago),
{
    if let Some(e) = entry {
        if let Some(r) = &e.github {
            return Some(Source::Github(r.clone()));
        }
        if has_wago {
            if let Some(w) = &e.wago {
                return Some(Source::Wago(w.clone()));
            }
        }
        if let Some(i) = e.wowi {
            return Some(Source::Wowi(i));
        }
        if let Some(t) = &e.tukui {
            return Some(Source::Tukui(t.clone()));
        }
        if let Some(w) = &e.wago {
            return Some(Source::Wago(w.clone()));
        }
    }
    if let Some(w) = &f.wago {
        return Some(Source::Wago(w.clone()));
    }
    if let Some(i) = f.wowi {
        return Some(Source::Wowi(i));
    }
    if let Some(site) = &f.website {
        if let Some(r) = github_repo_of_site(site.as_str()) {
            return Some(Source::Github(r));
        }
    }
    None
}


// ------------------------------------------------------------------ lookups

/// Some entry lists a folder named `lname` (compared lower-cased).
pub open spec fn entry_has_folder(e: EntrySpec, lname: Seq<char>) -> bool {
    exists|j: int| 0 <= j < e.folders.len() && lower(#[trigger] e.folders[j]) == lname
}

/// The last catalogue entry listing folder `lname` (later entries win).
pub open spec fn last_by_folder(ce: Seq<EntrySpec>, lname: Seq<char>) -> Option<int>
    decreases ce.len(),
{
    if ce.len() == 0 {
        None
    } else if entry_has_folder(ce.last(), lname) {
        Some(ce.len() - 1)
    } else {
        last_by_folder(ce.drop_last(), lname)
    }
}

/// The last catalogue entry with Wago id `w`.
pub open spec fn last_by_wago(ce: Seq<EntrySpec>, w: Seq<char>) -> Option<int>
    decreases ce.len(),
{
    if ce.len() == 0 {
        None
    } else if ce.last().wago == Some(w) {
        Some(ce.len() - 1)
    } else {
        last_by_wago(ce.drop_last(), w)
    }
}

/// The last catalogue entry with CurseForge id `c`.
pub open spec fn last_by_curse(ce: Seq<EntrySpec>, c: u64) -> Option<int>
    decreases ce.len(),
{
    if ce.len() == 0 {
        None
    } else if ce.last().curse == Some(c) {
        Some(ce.len() - 1)
    } else {
        last_by_curse(ce.drop_last(), c)
    }
}

/// The last catalogue entry with WoWInterface id `i`.
pub open spec fn last_by_wowi(ce: Seq<EntrySpec>, i: u64) -> Option<int>
    decreases ce.len(),
{
    if ce.len() == 0 {
        None
    } else if ce.last().wowi == Some(i) {
        Some(ce.len() - 1)
    } else {
        last_by_wowi(ce.drop_last(), i)
    }
}

/// The key of the last installed record that owns folder `lname`.
pub open spec fn managed_key(is: Seq<(Seq<char>, InstalledSpec)>, lname: Seq<char>) -> Option<Seq<char>>
    decreases is.len(),
{
    if is.len() == 0 {
        None
    } else if exists|j: int| 0 <= j < is.last().1.folders.len() && lower(#[trigger] is.last().1.folders[j]) == lname {
        Some(is.last().0)
    } else {
        managed_key(is.drop_last(), lname)
    }
}

/// The last scanned folder whose lower-cased name is `lname`.
pub open spec fn disk_index(fs: Seq<AddonSpec>, lname: Seq<char>) -> Option<int>
    decreases fs.len(),
{
    if fs.len() == 0 {
        None
    } else if lower(fs.last().folder) == lname {
        Some(fs.len() - 1)
    } else {
        disk_index(fs.drop_last(), lname)
    }
}

pub(crate) proof fn lemma_last_by_folder(ce: Seq<EntrySpec>, lname: Seq<char>)
    ensures
        last_by_folder(ce, lname) matches Some(i) ==> 0 <= i < ce.len(),
    decreases ce.len(),
{
    if ce.len() > 0 { lemma_last_by_folder(ce.drop_last(), lname); }
}

proof fn lemma_last_by_wago(ce: Seq<EntrySpec>, w: Seq<char>)
    ensures
        last_by_wago(ce, w) matches Some(i) ==> 0 <= i < ce.len(),
    decreases ce.len(),
{
    if ce.len() > 0 { lemma_last_by_wago(ce.drop_last(), w); }
}

proof fn lemma_last_by_curse(ce: Seq<EntrySpec>, c: u64)
    ensures
        last_by_curse(ce, c) matches Some(i) ==> 0 <= i < ce.len(),
    decreases ce.len(),
{
    if ce.len() > 0 { lemma_last_by_curse(ce.drop_last(), c); }
}

proof fn lemma_last_by_wowi(ce: Seq<EntrySpec>, c: u64)
    ensures
        last_by_wowi(ce, c) matches Some(i) ==> 0 <= i < ce.len(),
    decreases ce.len(),
{
    if ce.len() > 0 { lemma_last_by_wowi(ce.drop_last(), c); }
}

pub proof fn lemma_disk_index(fs: Seq<AddonSpec>, lname: Seq<char>)
    ensures
        disk_index(fs, lname) matches Some(i) ==> 0 <= i < fs.len() && lower(fs[i].folder) == lname,
    decreases fs.len(),
{
    if fs.len() > 0 { lemma_disk_index(fs.drop_last(), lname); }
}

fn vec_has_lower(v: &Vec<String>, lname: &[char]) -> (r: bool)
    ensures
        r == exists|j: int| 0 <= j < v@.len() && lower(#[trigger] strs(v@)[j]) == lname@,
{
    let mut j: usize = 0;
    while j < v.len()
        invariant
            j <= v.len(),
            forall|k: int| 0 <= k < j ==> lower(#[trigger] strs(v@)[k]) != lname@,
        decreases v.len() - j,
    {
        let c = chars_of(v[j].as_str());
        let l = lower_exec(&c);
        assert(strs(v@)[j as int] == v@[j as int]@);
        if chars_eq(&l, lname) {
            assert(lower(strs(v@)[j as int]) == lname@);
            return true;
        }
        j = j + 1;
    }
    false
}

pub(crate) fn find_last_by_folder(addons: &Vec<CatalogEntry>, lname: &[char]) -> (r: Option<usize>)
    ensures
        opt_index(r) == last_by_folder(entry_views(addons@), lname@),
{
    let ghost ce = entry_views(addons@);
    let mut n: usize = addons.len();
    assert(ce.take(ce.len() as int) =~= ce);
    while n > 0
        invariant
            n <= addons.len(),
            ce == entry_views(addons@),
            last_by_folder(ce, lname@) == last_by_folder(ce.take(n as int), lname@),
        decreases n,
    {
        let ghost pre = ce.take(n as int);
        assert(pre.drop_last() =~= ce.take(n - 1));
        assert(pre.last() == addons@[n - 1]@);
        if vec_has_lower(&addons[n - 1].folders, lname) {
            proof {
                let j = choose|j: int| 0 <= j < addons@[n - 1].folders@.len() && lower(#[trigger] strs(addons@[n - 1].folders@)[j]) == lname@;
                assert(lower(pre.last().folders[j]) == lname@);
            }
            return Some(n - 1);
        }
        proof {
            assert forall|j: int| 0 <= j < pre.last().folders.len() implies lower(#[trigger] pre.last().folders[j]) != lname@ by {
                assert(pre.last().folders[j] == strs(addons@[n - 1].folders@)[j]);
            }
        }
        n = n - 1;
    }
    None
}

fn find_last_by_wago(addons: &Vec<CatalogEntry>, w: &[char]) -> (r: Option<usize>)
    ensures
        opt_index(r) == last_by_wago(entry_views(addons@), w@),
{
    let ghost ce = entry_views(addons@);
    let mut n: usize = addons.len();
    assert(ce.take(ce.len() as int) =~= ce);
    while n > 0
        invariant
            n <= addons.len(),
            ce == entry_views(addons@),
            last_by_wago(ce, w@) == last_by_wago(ce.take(n as int), w@),
        decreases n,
    {
        let ghost pre = ce.take(n as int);
        assert(pre.drop_last() =~= ce.take(n - 1));
        assert(pre.last() == addons@[n - 1]@);
        if let Some(x) = &addons[n - 1].wago {
            let c = chars_of(x.as_str());
            if chars_eq(&c, w) {
                return Some(n - 1);
            }
        }
        n = n - 1;
    }
    None
}

fn find_last_by_curse(addons: &Vec<CatalogEntry>, c: u64) -> (r: Option<usize>)
    ensures
        opt_index(r) == last_by_curse(entry_views(addons@), c),
{
    let ghost ce = entry_views(addons@);
    let mut n: usize = addons.len();
    assert(ce.take(ce.len() as int) =~= ce);
    while n > 0
        invariant
            n <= addons.len(),
            ce == entry_views(addons@),
            last_by_curse(ce, c) == last_by_curse(ce.take(n as int), c),
        decreases n,
    {
        let ghost pre = ce.take(n as int);
        assert(pre.drop_last() =~= ce.take(n - 1));
        assert(pre.last() == addons@[n - 1]@);
        if addons[n - 1].curse == Some(c) {
            return Some(n - 1);
        }
        n = n - 1;
    }
    None
}

fn find_last_by_wowi(addons: &Vec<CatalogEntry>, i: u64) -> (r: Option<usize>)
    ensures
        opt_index(r) == last_by_wowi(entry_views(addons@), i),
{
    let ghost ce = entry_views(addons@);
    let mut n: usize = addons.len();
    assert(ce.take(ce.len() as int) =~= ce);
    while n > 0
        invariant
            n <= addons.len(),
            ce == entry_views(addons@),
            last_by_wowi(ce, i) == last_by_wowi(ce.take(n as int), i),
        decreases n,
    {
        let ghost pre = ce.take(n as int);
        assert(pre.drop_last() =~= ce.take(n - 1));
        assert(pre.last() == addons@[n - 1]@);
        if addons[n - 1].wowi == Some(i) {
            return Some(n - 1);
        }
        n = n - 1;
    }
    None
}

fn find_managed_key(installed: &InstalledMap, lname: &[char]) -> (r: Option<String>)
    ensures
        ostr(r) == managed_key(installed@, lname@),
{
    let es = installed.entries();
    let ghost is = installed@;
    let mut n: usize = es.len();
    assert(is.take(is.len() as int) =~= is);
    while n > 0
        invariant
            n <= es.len(),
            is == installed@,
            es@.map_values(|p: (String, crate::state::Installed)| (p.0@, p.1@)) == is,
            managed_key(is, lname@) == managed_key(is.take(n as int), lname@),
        decreases n,
    {
        let ghost pre = is.take(n as int);
        assert(pre.drop_last() =~= is.take(n - 1));
        assert(pre.last() == (es@[n - 1].0@, es@[n - 1].1@));
        assert(pre.last().1.folders == strs(es@[n - 1].1.folders@));
        if vec_has_lower(&es[n - 1].1.folders, lname) {
            proof {
                let j = choose|j: int| 0 <= j < es@[n - 1].1.folders@.len() && lower(#[trigger] strs(es@[n - 1].1.folders@)[j]) == lname@;
                assert(lower(pre.last().1.folders[j]) == lname@);
            }
            return Some(es[n - 1].0.clone());
        }
        proof {
            assert forall|j: int| 0 <= j < pre.last().1.folders.len() implies lower(#[trigger] pre.last().1.folders[j]) != lname@ by {
                assert(pre.last().1.folders[j] == strs(es@[n - 1].1.folders@)[j]);
            }
        }
        n = n - 1;
    }
    None
}

pub(crate) fn find_disk_index(folders: &[AddonFolder], lname: &[char]) -> (r: Option<usize>)
    ensures
        opt_index(r) == disk_index(addon_views(folders@), lname@),
{
    let ghost fs = addon_views(folders@);
    let mut n: usize = folders.len();
    assert(fs.take(fs.len() as int) =~= fs);
    while n > 0
        invariant
            n <= folders.len(),
            fs == addon_views(folders@),
            disk_index(fs, lname@) == disk_index(fs.take(n as int), lname@),
        decreases n,
    {
        let ghost pre = fs.take(n as int);
        assert(pre.drop_last() =~= fs.take(n - 1));
        assert(pre.last() == folders@[n - 1]@);
        let c = chars_of(folders[n - 1].folder.as_str());
        let l = lower_exec(&c);
        if chars_eq(&l, lname) {
            return Some(n - 1);
        }
        n = n - 1;
    }
    None
}

pub open spec fn opt_index(r: Option<usize>) -> Option<int> {
    match r {
        Some(i) => Some(i as int),
        None => None,
    }
}

pub open spec fn or_else(a: Option<int>, b: Option<int>) -> Option<int> {
    if a is Some { a } else { b }
}

/// The key and catalogue entry a folder gets on its own: the package that
/// installed it, else a catalogue entry (by folder, Wago, CurseForge, then
/// WoWInterface id), else an id from its TOC, else its folder name.
pub open spec fn spec_direct_key(ce: Seq<EntrySpec>, is: Seq<(Seq<char>, InstalledSpec)>, f: AddonSpec) -> (Seq<char>, Option<int>) {
    let lname = lower(f.folder);
    match managed_key(is, lname) {
        Some(k) => (k, if starts_with(k, "cat:"@) { spec_find_id(ce, k.skip(4)) } else { None }),
        None => {
            let entry = or_else(last_by_folder(ce, lname),
                or_else(match f.wago { Some(w) => last_by_wago(ce, w), None => None },
                or_else(match f.curse { Some(c) => last_by_curse(ce, c), None => None },
                match f.wowi { Some(i) => last_by_wowi(ce, i), None => None })));
            let key = match entry {
                Some(e) => "cat:"@ + ce[e].id,
                None => match f.wago {
                    Some(w) => "wago:"@ + w,
                    None => match f.wowi {
                        Some(i) => "wowi:"@ + decimal(i as nat),
                        None => match f.curse {
                            Some(c) => "curse:"@ + decimal(c as nat),
                            None => "folder:"@ + f.folder,
                        },
                    },
                },
            };
            (key, entry)
        },
    }
}

fn lit_plus(lit: &str, rest: &[char]) -> (r: String)
    ensures
        r@ == lit@ + rest@,
{
    let mut v = chars_of(lit);
    push_all(&mut v, rest);
    string_of(&v)
}

fn direct_key(addons: &Vec<CatalogEntry>, installed: &InstalledMap, f: &AddonFolder) -> (r: (String, Option<usize>))
    ensures
        (r.0@, opt_index(r.1)) == spec_direct_key(entry_views(addons@), installed@, f@),
        r.1 matches Some(e) ==> e < addons@.len(),
{
    let ghost ce = entry_views(addons@);
    let fc = chars_of(f.folder.as_str());
    let lname = lower_exec(&fc);
    if let Some(k) = find_managed_key(installed, &lname) {
        let kc = chars_of(k.as_str());
        let cat = chars_of("cat:");
        proof { reveal_strlit("cat:"); }
        let entry = if starts_with_exec(&kc, &cat) {
            let id = sub_chars(&kc, 4, kc.len());
            assert(id@ =~= k@.skip(4));
            proof { lemma_find_id(ce, id@); }
            find_id_index(addons, &id)
        } else {
            None
        };
        return (k, entry);
    }
    proof {
        lemma_last_by_folder(ce, lname@);
        if let Some(w) = f@.wago { lemma_last_by_wago(ce, w); }
        if let Some(c) = f@.curse { lemma_last_by_curse(ce, c); }
        if let Some(i) = f@.wowi { lemma_last_by_wowi(ce, i); }
    }
    let mut entry = find_last_by_folder(addons, &lname);
    if entry.is_none() {
        if let Some(w) = &f.wago {
            let wc = chars_of(w.as_str());
            entry = find_last_by_wago(addons, &wc);
        }
    }
    if entry.is_none() {
        if let Some(c) = f.curse {
            entry = find_last_by_curse(addons, c);
        }
    }
    if entry.is_none() {
        if let Some(i) = f.wowi {
            entry = find_last_by_wowi(addons, i);
        }
    }
    let key = if let Some(e) = entry {
        let id = chars_of(addons[e].id.as_str());
        lit_plus("cat:", &id)
    } else if let Some(w) = &f.wago {
        let wc = chars_of(w.as_str());
        lit_plus("wago:", &wc)
    } else if let Some(i) = f.wowi {
        let ic = u64_to_chars(i);
        lit_plus("wowi:", &ic)
    } else if let Some(c) = f.curse {
        let cc = u64_to_chars(c);
        lit_plus("curse:", &cc)
    } else {
        lit_plus("folder:", &fc)
    };
    (key, entry)
}


// ------------------------------------------------------------------ modules

/// The lower-cased part of a folder name before the first `_` or `-`.
pub open spec fn stem(s: Seq<char>) -> Seq<char> {
    lower(take_until_in(s, seq!['_', '-']))
}

/// The first dependency (from position `d`) that is a scanned folder other
/// than `f` itself sharing `f`'s stem.
pub open spec fn dep_parent_from(fs: Seq<AddonSpec>, f: AddonSpec, d: int) -> Option<int>
    decreases f.dependencies.len() - d,
{
    if d < 0 || d >= f.dependencies.len() {
        None
    } else {
        match disk_index(fs, lower(f.dependencies[d])) {
            Some(pi) => if fs[pi].folder != f.folder && stem(fs[pi].folder) == stem(f.folder) {
                Some(pi)
            } else {
                dep_parent_from(fs, f, d + 1)
            },
            None => dep_parent_from(fs, f, d + 1),
        }
    }
}

/// The folder `fs[i]` is a module of (e.g. BigWigs_Sporefall -> BigWigs,
/// DBM-GUI -> DBM-Core): the folder it declares itself part of, else a
/// dependency with the same name stem.
pub open spec fn module_of(fs: Seq<AddonSpec>, i: int) -> Option<int> {
    let f = fs[i];
    match f.part_of {
        Some(p) => match disk_index(fs, lower(p)) {
            Some(pi) => Some(pi),
            None => dep_parent_from(fs, f, 0),
        },
        None => dep_parent_from(fs, f, 0),
    }
}

proof fn lemma_dep_parent(fs: Seq<AddonSpec>, f: AddonSpec, d: int)
    requires
        0 <= d,
    ensures
        dep_parent_from(fs, f, d) matches Some(pi) ==> 0 <= pi < fs.len(),
    decreases f.dependencies.len() - d,
{
    if d < f.dependencies.len() {
        lemma_disk_index(fs, lower(f.dependencies[d]));
        lemma_dep_parent(fs, f, d + 1);
    }
}

proof fn lemma_module_of(fs: Seq<AddonSpec>, i: int)
    ensures
        module_of(fs, i) matches Some(pi) ==> 0 <= pi < fs.len(),
{
    lemma_dep_parent(fs, fs[i], 0);
    if let Some(p) = fs[i].part_of {
        lemma_disk_index(fs, lower(p));
    }
}

fn stem_exec(s: &[char]) -> (r: Vec<char>)
    ensures
        r@ == stem(s@),
{
    let set = vec!['_', '-'];
    assert(set@ =~= seq!['_', '-']);
    let a = take_until_in_exec(s, &set);
    lower_exec(&a)
}

fn module_of_exec(folders: &[AddonFolder], i: usize) -> (r: Option<usize>)
    requires
        i < folders@.len(),
    ensures
        opt_index(r) == module_of(addon_views(folders@), i as int),
        r matches Some(pi) ==> pi < folders@.len(),
{
    let ghost fs = addon_views(folders@);
    proof { lemma_module_of(fs, i as int); }
    let f = &folders[i];
    assert(fs[i as int] == f@);
    if let Some(p) = &f.part_of {
        let pc = chars_of(p.as_str());
        let pl = lower_exec(&pc);
        if let Some(pi) = find_disk_index(folders, &pl) {
            return Some(pi);
        }
    }
    let fc = chars_of(f.folder.as_str());
    let my_stem = stem_exec(&fc);
    let mut d: usize = 0;
    while d < f.dependencies.len()
        invariant
            d <= f.dependencies.len(),
            fs == addon_views(folders@),
            f@ == fs[i as int],
            fc@ == f@.folder,
            my_stem@ == stem(f@.folder),
            dep_parent_from(fs, f@, 0) == dep_parent_from(fs, f@, d as int),
            module_of(fs, i as int) == dep_parent_from(fs, f@, 0),
        decreases f.dependencies.len() - d,
    {
        assert(f@.dependencies[d as int] == f.dependencies@[d as int]@);
        let dc = chars_of(f.dependencies[d].as_str());
        let dl = lower_exec(&dc);
        proof { lemma_disk_index(fs, dl@); }
        if let Some(pi) = find_disk_index(folders, &dl) {
            assert(fs[pi as int] == folders@[pi as int]@);
            let pc = chars_of(folders[pi].folder.as_str());
            let ps = stem_exec(&pc);
            if !chars_eq(&pc, &fc) && chars_eq(&ps, &my_stem) {
                return Some(pi);
            }
        }
        d = d + 1;
    }
    None
}

pub open spec fn key_views(v: Seq<(String, Option<usize>)>) -> Seq<(Seq<char>, Option<int>)> {
    v.map_values(|p: (String, Option<usize>)| (p.0@, opt_index(p.1)))
}

/// Walk up at most `n` module levels from `cur`; a parent whose key is not a
/// bare folder key (or that is another folder) hands its key to the module.
pub open spec fn inherit(
    fs: Seq<AddonSpec>,
    dk: Seq<(Seq<char>, Option<int>)>,
    cur: int,
    n: nat,
    acc: (Seq<char>, Option<int>),
) -> (Seq<char>, Option<int>)
    decreases n,
{
    if n == 0 {
        acc
    } else {
        match module_of(fs, cur) {
            None => acc,
            Some(pi) => {
                let acc2 = match disk_index(fs, lower(fs[pi].folder)) {
                    Some(q) => if !starts_with(dk[q].0, "folder:"@) || fs[pi].folder != fs[cur].folder {
                        dk[q]
                    } else {
                        acc
                    },
                    None => acc,
                };
                inherit(fs, dk, pi, (n - 1) as nat, acc2)
            },
        }
    }
}

/// The key a folder ends up with: a standalone folder inherits from the
/// addon it is a module of.
pub open spec fn final_key(fs: Seq<AddonSpec>, dk: Seq<(Seq<char>, Option<int>)>, i: int) -> (Seq<char>, Option<int>) {
    if starts_with(dk[i].0, "folder:"@) {
        inherit(fs, dk, i, 4, dk[i])
    } else {
        dk[i]
    }
}

pub open spec fn direct_keys(ce: Seq<EntrySpec>, is: Seq<(Seq<char>, InstalledSpec)>, fs: Seq<AddonSpec>) -> Seq<(Seq<char>, Option<int>)> {
    fs.map_values(|f: AddonSpec| spec_direct_key(ce, is, f))
}

pub open spec fn final_keys(fs: Seq<AddonSpec>, dk: Seq<(Seq<char>, Option<int>)>) -> Seq<(Seq<char>, Option<int>)> {
    Seq::new(fs.len(), |i: int| final_key(fs, dk, i))
}

fn dup_key(k: &(String, Option<usize>)) -> (r: (String, Option<usize>))
    ensures
        r.0@ == k.0@,
        r.1 == k.1,
{
    (k.0.clone(), k.1)
}

fn is_folder_key(k: &String) -> (r: bool)
    ensures
        r == starts_with(k@, "folder:"@),
{
    let c = chars_of(k.as_str());
    let p = chars_of("folder:");
    starts_with_exec(&c, &p)
}

fn final_key_exec(folders: &[AddonFolder], dk: &Vec<(String, Option<usize>)>, i: usize) -> (r: (String, Option<usize>))
    requires
        i < folders@.len(),
        dk@.len() == folders@.len(),
    ensures
        (r.0@, opt_index(r.1)) == final_key(addon_views(folders@), key_views(dk@), i as int),
        r.1 == dk@[i as int].1 || exists|j: int| 0 <= j < dk@.len() && r.1 == #[trigger] dk@[j].1,
{
    let ghost fs = addon_views(folders@);
    let ghost kv = key_views(dk@);
    assert(kv[i as int] == (dk@[i as int].0@, opt_index(dk@[i as int].1)));
    if !is_folder_key(&dk[i].0) {
        return dup_key(&dk[i]);
    }
    let mut acc = dup_key(&dk[i]);
    let mut cur: usize = i;
    let mut n: usize = 0;
    while n < 4
        invariant
            n <= 4,
            cur < folders@.len(),
            dk@.len() == folders@.len(),
            fs == addon_views(folders@),
            kv == key_views(dk@),
            inherit(fs, kv, i as int, 4, kv[i as int]) == inherit(fs, kv, cur as int, (4 - n) as nat, (acc.0@, opt_index(acc.1))),
            acc.1 == dk@[i as int].1 || exists|j: int| 0 <= j < dk@.len() && acc.1 == #[trigger] dk@[j].1,
        decreases 4 - n,
    {
        match module_of_exec(folders, cur) {
            None => {
                n = 4;
            },
            Some(pi) => {
                let pc = chars_of(folders[pi].folder.as_str());
                let pl = lower_exec(&pc);
                proof { lemma_disk_index(fs, pl@); }
                assert(fs[pi as int] == folders@[pi as int]@);
                assert(fs[cur as int] == folders@[cur as int]@);
                if let Some(q) = find_disk_index(folders, &pl) {
                    assert(kv[q as int] == (dk@[q as int].0@, opt_index(dk@[q as int].1)));
                    let cc = chars_of(folders[cur].folder.as_str());
                    if !is_folder_key(&dk[q].0) || !chars_eq(&pc, &cc) {
                        acc = dup_key(&dk[q]);
                    }
                }
                cur = pi;
                n = n + 1;
            },
        }
    }
    acc
}


// ------------------------------------------------------------------ grouping

/// Package keys in order of first appearance.
pub open spec fn distinct_keys(fk: Seq<(Seq<char>, Option<int>)>) -> Seq<Seq<char>>
    decreases fk.len(),
{
    if fk.len() == 0 {
        seq![]
    } else {
        let d = distinct_keys(fk.drop_last());
        if d.contains(fk.last().0) { d } else { d.push(fk.last().0) }
    }
}

/// Positions of the folders with key `k`, in order.
pub open spec fn members(fk: Seq<(Seq<char>, Option<int>)>, k: Seq<char>) -> Seq<int>
    decreases fk.len(),
{
    if fk.len() == 0 {
        seq![]
    } else {
        let m = members(fk.drop_last(), k);
        if fk.last().0 == k { m.push(fk.len() - 1) } else { m }
    }
}

/// The first catalogue entry among the folders with key `k`.
pub open spec fn group_entry(fk: Seq<(Seq<char>, Option<int>)>, k: Seq<char>) -> Option<int>
    decreases fk.len(),
{
    if fk.len() == 0 {
        None
    } else {
        let g = group_entry(fk.drop_last(), k);
        if g is Some { g } else if fk.last().0 == k { fk.last().1 } else { None }
    }
}

proof fn lemma_distinct_keys(fk: Seq<(Seq<char>, Option<int>)>, k: Seq<char>)
    ensures
        forall|a: int, b: int| 0 <= a < b < distinct_keys(fk).len() ==> distinct_keys(fk)[a] != distinct_keys(fk)[b],
        !distinct_keys(fk).contains(k) ==> members(fk, k).len() == 0 && group_entry(fk, k) is None,
        distinct_keys(fk).contains(k) ==> members(fk, k).len() > 0,
        forall|j: int| 0 <= j < members(fk, k).len() ==> 0 <= #[trigger] members(fk, k)[j] < fk.len(),
    decreases fk.len(),
{
    if fk.len() > 0 {
        lemma_distinct_keys(fk.drop_last(), k);
        let m = members(fk.drop_last(), k);
        assert forall|j: int| 0 <= j < members(fk, k).len() implies 0 <= #[trigger] members(fk, k)[j] < fk.len() by {
            if j < m.len() {
                assert(members(fk, k)[j] == m[j]);
            }
        }
        let d = distinct_keys(fk.drop_last());
        if !d.contains(fk.last().0) {
            let e = d.push(fk.last().0);
            assert forall|a: int, b: int| 0 <= a < b < e.len() implies e[a] != e[b] by {
                if b == e.len() - 1 {
                    assert(e[a] == d[a]);
                }
            }
        }
        if !distinct_keys(fk).contains(k) && fk.last().0 == k {
            assert(distinct_keys(fk).contains(fk.last().0)) by {
                if d.contains(fk.last().0) {
                } else {
                    assert(d.push(fk.last().0)[d.len() as int] == fk.last().0);
                }
            }
        }
        if distinct_keys(fk).contains(k) && fk.last().0 != k {
            assert(d.contains(k)) by {
                let j = choose|j: int| 0 <= j < distinct_keys(fk).len() && distinct_keys(fk)[j] == k;
                if !d.contains(fk.last().0) {
                    assert(j < d.len());
                    assert(d.push(fk.last().0)[j] == d[j]);
                }
            }
        }
        if !distinct_keys(fk).contains(k) {
            assert(!d.contains(k)) by {
                if d.contains(k) {
                    let j = choose|j: int| 0 <= j < d.len() && d[j] == k;
                    if !d.contains(fk.last().0) {
                        assert(d.push(fk.last().0)[j] == k);
                    }
                }
            }
        }
    }
}

pub open spec fn index_views(v: Seq<usize>) -> Seq<int> {
    v.map_values(|x: usize| x as int)
}

fn find_key(gk: &Vec<String>, k: &String) -> (r: Option<usize>)
    ensures
        match r {
            Some(g) => g < gk@.len() && gk@[g as int]@ == k@,
            None => forall|g: int| 0 <= g < gk@.len() ==> gk@[g]@ != k@,
        },
{
    let kc = chars_of(k.as_str());
    let mut g: usize = 0;
    while g < gk.len()
        invariant
            g <= gk.len(),
            kc@ == k@,
            forall|h: int| 0 <= h < g ==> gk@[h]@ != k@,
        decreases gk.len() - g,
    {
        let c = chars_of(gk[g].as_str());
        if chars_eq(&c, &kc) {
            return Some(g);
        }
        g = g + 1;
    }
    None
}

/// Group positions by key: keys in first-appearance order, each group's first
/// catalogue entry, and each group's positions.
fn group_by_key(fk: &Vec<(String, Option<usize>)>, n_entries: usize) -> (r: (Vec<String>, Vec<Option<usize>>, Vec<Vec<usize>>))
    requires
        forall|j: int| 0 <= j < fk@.len() ==> (#[trigger] fk@[j].1 matches Some(e) ==> e < n_entries),
    ensures
        strs(r.0@) == distinct_keys(key_views(fk@)),
        r.1@.len() == r.0@.len(),
        r.2@.len() == r.0@.len(),
        forall|g: int| 0 <= g < r.0@.len() ==> opt_index(#[trigger] r.1@[g]) == group_entry(key_views(fk@), r.0@[g]@),
        forall|g: int| 0 <= g < r.0@.len() ==> index_views(#[trigger] r.2@[g]@) == members(key_views(fk@), r.0@[g]@),
        forall|g: int| 0 <= g < r.0@.len() ==> (#[trigger] r.1@[g] matches Some(e) ==> e < n_entries),
{
    let ghost kv = key_views(fk@);
    let mut gk: Vec<String> = Vec::new();
    let mut ge: Vec<Option<usize>> = Vec::new();
    let mut gm: Vec<Vec<usize>> = Vec::new();
    let mut i: usize = 0;
    assert(strs(gk@) =~= distinct_keys(kv.take(0)));
    while i < fk.len()
        invariant
            i <= fk.len(),
            kv == key_views(fk@),
            strs(gk@) == distinct_keys(kv.take(i as int)),
            ge@.len() == gk@.len(),
            gm@.len() == gk@.len(),
            forall|g: int| 0 <= g < gk@.len() ==> opt_index(#[trigger] ge@[g]) == group_entry(kv.take(i as int), gk@[g]@),
            forall|g: int| 0 <= g < gk@.len() ==> index_views(#[trigger] gm@[g]@) == members(kv.take(i as int), gk@[g]@),
            forall|g: int| 0 <= g < gk@.len() ==> (#[trigger] ge@[g] matches Some(e) ==> e < n_entries),
            forall|j: int| 0 <= j < fk@.len() ==> (#[trigger] fk@[j].1 matches Some(e) ==> e < n_entries),
        decreases fk.len() - i,
    {
        let ghost pre = kv.take(i as int);
        let ghost nxt = kv.take(i + 1);
        assert(nxt.drop_last() =~= pre);
        assert(nxt.last() == (fk@[i as int].0@, opt_index(fk@[i as int].1)));
        let k = &fk[i].0;
        let e = fk[i].1;
        proof { lemma_distinct_keys(pre, k@); }
        match find_key(&gk, k) {
            Some(g) => {
                assert(strs(gk@)[g as int] == k@);
                assert(distinct_keys(pre).contains(k@));
                let ghost old_gk = gk@;
                let ghost old_ge = ge@;
                let ghost old_gm = gm@;
                let mut ms: Vec<usize> = Vec::new();
                std::mem::swap(&mut ms, &mut gm[g]);
                ms.push(i);
                gm.set(g, ms);
                if ge[g].is_none() {
                    ge.set(g, e);
                }
                assert forall|h: int| 0 <= h < gk@.len() implies opt_index(#[trigger] ge@[h]) == group_entry(nxt, gk@[h]@) by {
                    if h != g {
                        assert(strs(gk@)[h] != strs(gk@)[g as int]);
                    }
                }
                assert forall|h: int| 0 <= h < gk@.len() implies index_views(#[trigger] gm@[h]@) == members(nxt, gk@[h]@) by {
                    if h != g {
                        assert(strs(gk@)[h] != strs(gk@)[g as int]);
                        assert(gm@[h] == old_gm[h]);
                    } else {
                        assert(index_views(gm@[h]@) =~= index_views(old_gm[h]@).push(i as int));
                    }
                }
                assert(fk@[i as int].1 matches Some(x) ==> x < n_entries);
            },
            None => {
                assert(!distinct_keys(pre).contains(k@)) by {
                    if distinct_keys(pre).contains(k@) {
                        let j = choose|j: int| 0 <= j < distinct_keys(pre).len() && distinct_keys(pre)[j] == k@;
                        assert(strs(gk@)[j] == gk@[j]@);
                    }
                }
                let ghost old_gk = gk@;
                let ghost old_gm = gm@;
                gk.push(k.clone());
                ge.push(e);
                let mut ms: Vec<usize> = Vec::new();
                ms.push(i);
                gm.push(ms);
                assert(strs(gk@) =~= strs(old_gk).push(k@));
                assert forall|h: int| 0 <= h < gk@.len() implies opt_index(#[trigger] ge@[h]) == group_entry(nxt, gk@[h]@) by {
                    if h < old_gk.len() {
                        assert(strs(old_gk)[h] == old_gk[h]@);
                        assert(distinct_keys(pre).contains(old_gk[h]@));
                    }
                }
                assert forall|h: int| 0 <= h < gk@.len() implies index_views(#[trigger] gm@[h]@) == members(nxt, gk@[h]@) by {
                    if h < old_gk.len() {
                        assert(strs(old_gk)[h] == old_gk[h]@);
                        assert(distinct_keys(pre).contains(old_gk[h]@));
                        assert(gm@[h] == old_gm[h]);
                    } else {
                        assert(index_views(gm@[h]@) =~= seq![i as int]);
                        assert(members(pre, k@) =~= Seq::<int>::empty());
                    }
                }
                assert(fk@[i as int].1 matches Some(x) ==> x < n_entries);
            },
        }
        i = i + 1;
    }
    assert(kv.take(fk@.len() as int) =~= kv);
    (gk, ge, gm)
}


// ------------------------------------------------------------------ packages

/// One row of the Installed list: an addon made of one or more folders.
#[derive(Debug)]
pub struct Package {
    pub key: String,
    pub name: String,
    pub folders: Vec<String>,
    pub installed_version: Option<String>,
    pub author: Option<String>,
    pub notes: Option<String>,
    pub source: Option<Source>,
    pub source_label: String,
    pub source_url: Option<String>,
    pub curse_id: Option<u64>,
    pub catalog_id: Option<String>,
    pub supports_forever: bool,
    /// True when this app installed it itself (exact version known).
    pub managed: bool,
    pub remote_version: Option<String>,
    pub remote_forever: Option<bool>,
    pub update_available: bool,
    /// ok | update | unknown | curse-only | no-source | no-key | error
    pub status: String,
    pub note: String,
}

/// The mathematical value of a [`Package`].
pub struct PackageSpec {
    pub key: Seq<char>,
    pub name: Seq<char>,
    pub folders: Seq<Seq<char>>,
    pub installed_version: Option<Seq<char>>,
    pub author: Option<Seq<char>>,
    pub notes: Option<Seq<char>>,
    pub source: Option<SourceSpec>,
    pub source_label: Seq<char>,
    pub source_url: Option<Seq<char>>,
    pub curse_id: Option<u64>,
    pub catalog_id: Option<Seq<char>>,
    pub supports_forever: bool,
    pub managed: bool,
    pub remote_version: Option<Seq<char>>,
    pub remote_forever: Option<bool>,
    pub update_available: bool,
    pub status: Seq<char>,
    pub note: Seq<char>,
}

impl View for Package {
    type V = PackageSpec;

    open spec fn view(&self) -> PackageSpec {
        PackageSpec {
            key: self.key@,
            name: self.name@,
            folders: strs(self.folders@),
            installed_version: ostr(self.installed_version),
            author: ostr(self.author),
            notes: ostr(self.notes),
            source: opt_source_view(self.source),
            source_label: self.source_label@,
            source_url: ostr(self.source_url),
            curse_id: self.curse_id,
            catalog_id: ostr(self.catalog_id),
            supports_forever: self.supports_forever,
            managed: self.managed,
            remote_version: ostr(self.remote_version),
            remote_forever: self.remote_forever,
            update_available: self.update_available,
            status: self.status@,
            note: self.note@,
        }
    }
}

pub open spec fn group_folders(fs: Seq<AddonSpec>, ms: Seq<int>) -> Seq<AddonSpec> {
    ms.map_values(|i: int| fs[i])
}

pub open spec fn lower_names(gf: Seq<AddonSpec>) -> Seq<Seq<char>> {
    gf.map_values(|f: AddonSpec| lower(f.folder))
}

/// A folder of the group that no other folder of the group is the base of:
/// none of its dependencies, nor the folder it is part of, is in the group.
pub open spec fn is_root(f: AddonSpec, ig: Seq<Seq<char>>) -> bool {
    &&& forall|d: int| 0 <= d < f.dependencies.len() ==> !ig.contains(lower(#[trigger] f.dependencies[d]))
    &&& match f.part_of {
        Some(p) => !ig.contains(lower(p)),
        None => true,
    }
}

/// `a` ranks before `b` as the primary folder: roots first, then the shorter
/// name (in bytes), then the smaller name.
pub open spec fn rank_lt(a: AddonSpec, b: AddonSpec, ig: Seq<Seq<char>>) -> bool {
    let ra = !is_root(a, ig);
    let rb = !is_root(b, ig);
    let la = vstd::utf8::encode_utf8(a.folder).len() as usize;
    let lb = vstd::utf8::encode_utf8(b.folder).len() as usize;
    (!ra && rb) || (ra == rb && (la < lb || (la == lb && lex_lt(a.folder, b.folder))))
}

/// Position of the primary folder: the first folder of least rank.
pub open spec fn primary_pos(gf: Seq<AddonSpec>, ig: Seq<Seq<char>>) -> int
    decreases gf.len(),
{
    if gf.len() <= 1 {
        0
    } else {
        let p = primary_pos(gf.drop_last(), ig);
        if rank_lt(gf.last(), gf[p], ig) { gf.len() - 1 } else { p }
    }
}

proof fn lemma_primary_pos(gf: Seq<AddonSpec>, ig: Seq<Seq<char>>)
    requires
        gf.len() > 0,
    ensures
        0 <= primary_pos(gf, ig) < gf.len(),
    decreases gf.len(),
{
    if gf.len() > 1 {
        lemma_primary_pos(gf.drop_last(), ig);
    }
}

pub open spec fn first_version(gf: Seq<AddonSpec>) -> Option<Seq<char>>
    decreases gf.len(),
{
    if gf.len() == 0 { None } else if gf[0].version is Some { gf[0].version } else { first_version(gf.drop_first()) }
}

pub open spec fn first_curse(gf: Seq<AddonSpec>) -> Option<u64>
    decreases gf.len(),
{
    if gf.len() == 0 { None } else if gf[0].curse is Some { gf[0].curse } else { first_curse(gf.drop_first()) }
}

pub open spec fn first_pick(gf: Seq<AddonSpec>, has_wago: bool) -> Option<SourceSpec>
    decreases gf.len(),
{
    if gf.len() == 0 {
        None
    } else if spec_pick_source(None, gf[0], has_wago) is Some {
        spec_pick_source(None, gf[0], has_wago)
    } else {
        first_pick(gf.drop_first(), has_wago)
    }
}

pub open spec fn any_supports_forever(gf: Seq<AddonSpec>) -> bool {
    exists|i: int| 0 <= i < gf.len() && ((#[trigger] gf[i]).forever_toc || gf[i].forever_interface)
}

pub open spec fn curse_url(c: u64) -> Seq<char> {
    "https://www.curseforge.com/projects/"@ + decimal(c as nat)
}

pub open spec fn spec_status(source: Option<SourceSpec>, curse: Option<u64>, has_wago: bool) -> (Seq<char>, Seq<char>) {
    match source {
        Some(SourceSpec::Wago(_)) if !has_wago => ("no-key"@, "On Wago: add your free Wago API key in Settings to update"@),
        Some(_) => ("unknown"@, seq![]),
        None => if curse is Some {
            ("curse-only"@, "Only on CurseForge: AddonForge can't update it, but the link works"@)
        } else {
            ("no-source"@, "No update source found in its files"@)
        },
    }
}

/// The package made from the folders at positions `ms` under key `k`
/// (its `folders` field lists the names in group order; the package sorts them).
pub open spec fn spec_package(
    ce: Seq<EntrySpec>,
    is: Seq<(Seq<char>, InstalledSpec)>,
    fs: Seq<AddonSpec>,
    has_wago: bool,
    k: Seq<char>,
    entry: Option<int>,
    ms: Seq<int>,
) -> PackageSpec {
    let gf = group_folders(fs, ms);
    let ig = lower_names(gf);
    let pr = gf[primary_pos(gf, ig)];
    let ev = match entry { Some(e) => Some(ce[e]), None => None };
    let managed = spec_lookup(is, k);
    let iv = match managed { Some(m) => Some(m.version), None => first_version(gf) };
    let source = match spec_pick_source(ev, pr, has_wago) {
        Some(s) => Some(s),
        None => first_pick(gf, has_wago),
    };
    let curse = match ev {
        Some(e) => if e.curse is Some { e.curse } else { first_curse(gf) },
        None => first_curse(gf),
    };
    PackageSpec {
        key: k,
        name: match ev { Some(e) => e.name, None => pr.title },
        folders: gf.map_values(|f: AddonSpec| f.folder),
        installed_version: match iv {
            Some(v) => if v.len() > 0 && !starts_with(v, "@"@) { Some(v) } else { None },
            None => None,
        },
        author: pr.author,
        notes: match ev {
            Some(e) => if e.desc.len() > 0 { Some(e.desc) } else { pr.notes },
            None => pr.notes,
        },
        source,
        source_label: match source { Some(s) => spec_label(s), None => seq![] },
        source_url: match source {
            Some(s) => Some(spec_url(s)),
            None => match curse { Some(c) => Some(curse_url(c)), None => None },
        },
        curse_id: curse,
        catalog_id: match ev { Some(e) => Some(e.id), None => None },
        supports_forever: any_supports_forever(gf),
        managed: managed is Some,
        remote_version: None,
        remote_forever: None,
        update_available: false,
        status: spec_status(source, curse, has_wago).0,
        note: spec_status(source, curse, has_wago).1,
    }
}

/// `out` lists the names `names` in ascending order.
pub open spec fn sorted_names(out: Seq<Seq<char>>, names: Seq<Seq<char>>) -> bool {
    exists|idx: Seq<usize>| #![trigger is_perm(idx, names.len())]
        is_perm(idx, names.len()) && stably_sorted(names, idx)
        && out == idx.map_values(|i: usize| names[i as int])
}

/// `p` is the package `g`, with its folder names sorted.
pub open spec fn package_matches(p: PackageSpec, g: PackageSpec) -> bool {
    &&& sorted_names(p.folders, g.folders)
    &&& p == PackageSpec { folders: p.folders, ..g }
}

fn contains_lower(ig: &Vec<Vec<char>>, s: &[char]) -> (r: bool)
    ensures
        r == views(ig@).contains(crate::text::lower(s@)),
{
    let l = lower_exec(s);
    let mut i: usize = 0;
    while i < ig.len()
        invariant
            i <= ig.len(),
            l@ == lower(s@),
            forall|j: int| 0 <= j < i ==> views(ig@)[j] != l@,
        decreases ig.len() - i,
    {
        assert(views(ig@)[i as int] == ig@[i as int]@);
        if chars_eq(&ig[i], &l) {
            return true;
        }
        i = i + 1;
    }
    false
}

fn is_root_exec(f: &AddonFolder, ig: &Vec<Vec<char>>) -> (r: bool)
    ensures
        r == is_root(f@, views(ig@)),
{
    let mut d: usize = 0;
    while d < f.dependencies.len()
        invariant
            d <= f.dependencies.len(),
            forall|j: int| 0 <= j < d ==> !views(ig@).contains(lower(#[trigger] f@.dependencies[j])),
        decreases f.dependencies.len() - d,
    {
        assert(f@.dependencies[d as int] == f.dependencies@[d as int]@);
        let dc = chars_of(f.dependencies[d].as_str());
        if contains_lower(ig, &dc) {
            return false;
        }
        d = d + 1;
    }
    match &f.part_of {
        Some(p) => {
            let pc = chars_of(p.as_str());
            !contains_lower(ig, &pc)
        },
        None => true,
    }
}

fn dup_ostr(o: &Option<String>) -> (r: Option<String>)
    ensures
        ostr(r) == ostr(*o),
{
    match o {
        Some(s) => Some(s.clone()),
        None => None,
    }
}

fn lit_string(s: &str) -> (r: String)
    ensures
        r@ == s@,
{
    String::from_str(s)
}

/// Build the package of one group (folder names sorted).
fn make_package(
    addons: &Vec<CatalogEntry>,
    installed: &InstalledMap,
    folders: &[AddonFolder],
    has_wago: bool,
    key: String,
    entry: Option<usize>,
    ms: &Vec<usize>,
) -> (r: Package)
    requires
        ms@.len() > 0,
        forall|j: int| 0 <= j < ms@.len() ==> #[trigger] ms@[j] < folders@.len(),
        entry matches Some(e) ==> e < addons@.len(),
    ensures
        package_matches(r@, spec_package(entry_views(addons@), installed@, addon_views(folders@), has_wago, key@, opt_index(entry), index_views(ms@))),
{
    let ghost fs = addon_views(folders@);
    let ghost gf = group_folders(fs, index_views(ms@));
    let ghost spec = spec_package(entry_views(addons@), installed@, fs, has_wago, key@, opt_index(entry), index_views(ms@));
    assert forall|j: int| 0 <= j < ms@.len() implies #[trigger] gf[j] == folders@[ms@[j] as int]@ by {}
    // lower-cased names of the group
    let mut ig: Vec<Vec<char>> = Vec::new();
    let mut j: usize = 0;
    while j < ms.len()
        invariant
            j <= ms.len(),
            ms@.len() > 0,
            forall|q: int| 0 <= q < ms@.len() ==> #[trigger] ms@[q] < folders@.len(),
            forall|q: int| 0 <= q < ms@.len() ==> #[trigger] gf[q] == folders@[ms@[q] as int]@,
            gf.len() == ms@.len(),
            views(ig@) == lower_names(gf).take(j as int),
        decreases ms.len() - j,
    {
        let c = chars_of(folders[ms[j]].folder.as_str());
        assert(lower_names(gf)[j as int] == lower(gf[j as int].folder));
        let ghost before = views(ig@);
        let lc = lower_exec(&c);
        ig.push(lc);
        assert(views(ig@) =~= before.push(lc@));
        assert(lower_names(gf).take(j + 1) =~= lower_names(gf).take(j as int).push(lower_names(gf)[j as int]));
        j = j + 1;
    }
    assert(lower_names(gf).take(ms@.len() as int) =~= lower_names(gf));
    let ghost igv = lower_names(gf);
    // primary folder
    proof { lemma_primary_pos(gf, igv); }
    let mut p: usize = 0;
    let mut q: usize = 1;
    assert(primary_pos(gf.take(1), igv) == 0);
    while q < ms.len()
        invariant
            1 <= q <= ms.len(),
            p < q,
            forall|x: int| 0 <= x < ms@.len() ==> #[trigger] ms@[x] < folders@.len(),
            forall|x: int| 0 <= x < ms@.len() ==> #[trigger] gf[x] == folders@[ms@[x] as int]@,
            gf.len() == ms@.len(),
            views(ig@) == igv,
            p as int == primary_pos(gf.take(q as int), igv),
        decreases ms.len() - q,
    {
        let a = &folders[ms[q]];
        let b = &folders[ms[p]];
        let ra = !is_root_exec(a, &ig);
        let rb = !is_root_exec(b, &ig);
        let la = a.folder.as_str().len();
        let lb = b.folder.as_str().len();
        let ac = chars_of(a.folder.as_str());
        let bc = chars_of(b.folder.as_str());
        let lt = (!ra && rb) || (ra == rb && (la < lb || (la == lb && lex_lt_exec(&ac, &bc))));
        assert(gf.take(q + 1).drop_last() =~= gf.take(q as int));
        assert(gf.take(q + 1).last() == gf[q as int]);
        assert(gf.take(q + 1)[p as int] == gf[p as int]);
        assert(a@ == gf[q as int] && b@ == gf[p as int]);
        assert(lt == rank_lt(gf[q as int], gf[p as int], igv));
        if lt {
            p = q;
        }
        q = q + 1;
    }
    assert(gf.take(ms@.len() as int) =~= gf);
    let pr = &folders[ms[p]];
    assert(pr@ == gf[primary_pos(gf, igv)]);
    let ev: Option<&CatalogEntry> = match entry { Some(e) => Some(&addons[e]), None => None };
    // remaining per-group facts
    let mut first_ver: Option<String> = None;
    let mut first_c: Option<u64> = None;
    let mut first_src: Option<Source> = None;
    let mut forever = false;
    let mut names: Vec<Vec<char>> = Vec::new();
    let mut x: usize = 0;
    while x < ms.len()
        invariant
            x <= ms.len(),
            forall|y: int| 0 <= y < ms@.len() ==> #[trigger] ms@[y] < folders@.len(),
            forall|y: int| 0 <= y < ms@.len() ==> #[trigger] gf[y] == folders@[ms@[y] as int]@,
            gf.len() == ms@.len(),
            first_version(gf) == (if first_ver is Some { ostr(first_ver) } else { first_version(gf.skip(x as int)) }),
            first_curse(gf) == (if first_c is Some { first_c } else { first_curse(gf.skip(x as int)) }),
            first_pick(gf, has_wago) == (if first_src is Some { opt_source_view(first_src) } else { first_pick(gf.skip(x as int), has_wago) }),
            forever == exists|y: int| 0 <= y < x && ((#[trigger] gf[y]).forever_toc || gf[y].forever_interface),
            views(names@) == gf.take(x as int).map_values(|f: AddonSpec| f.folder),
        decreases ms.len() - x,
    {
        let f = &folders[ms[x]];
        assert(gf.skip(x as int)[0] == f@);
        assert(gf.skip(x as int).drop_first() =~= gf.skip(x + 1));
        if first_ver.is_none() {
            first_ver = dup_ostr(&f.version);
        }
        if first_c.is_none() {
            first_c = f.curse;
        }
        if first_src.is_none() {
            first_src = pick_source(None, f, has_wago);
        }
        if f.supports_forever() {
            forever = true;
        }
        let fc = chars_of(f.folder.as_str());
        let ghost before = views(names@);
        names.push(fc);
        assert(views(names@) =~= before.push(gf[x as int].folder));
        assert(gf.take(x + 1).map_values(|f: AddonSpec| f.folder) =~= gf.take(x as int).map_values(|f: AddonSpec| f.folder).push(gf[x as int].folder));
        x = x + 1;
    }
    assert(gf.take(ms@.len() as int) =~= gf);
    assert(gf.skip(ms@.len() as int).len() == 0);
    let managed = installed.get(key.as_str());
    let name = match ev {
        Some(e) => e.name.clone(),
        None => pr.title.clone(),
    };
    let iv = match managed {
        Some(m) => Some(m.version.clone()),
        None => first_ver,
    };
    let installed_version = match iv {
        Some(v) => {
            let vc = chars_of(v.as_str());
            let at = chars_of("@");
            if vc.len() > 0 && !starts_with_exec(&vc, &at) { Some(v) } else { None }
        },
        None => None,
    };
    let source = match pick_source(ev, pr, has_wago) {
        Some(s) => Some(s),
        None => first_src,
    };
    let curse = match ev {
        Some(e) => if e.curse.is_some() { e.curse } else { first_c },
        None => first_c,
    };
    let (status, note) = match &source {
        Some(Source::Wago(_)) if !has_wago => (
            lit_string("no-key"),
            lit_string("On Wago: add your free Wago API key in Settings to update"),
        ),
        Some(_) => (lit_string("unknown"), String::new()),
        None => if curse.is_some() {
            (lit_string("curse-only"), lit_string("Only on CurseForge: AddonForge can't update it, but the link works"))
        } else {
            (lit_string("no-source"), lit_string("No update source found in its files"))
        },
    };
    let source_label = match &source { Some(s) => s.label(), None => String::new() };
    let source_url = match &source {
        Some(s) => Some(s.url()),
        None => match curse {
            Some(c) => {
                let cc = u64_to_chars(c);
                Some(lit_plus("https://www.curseforge.com/projects/", &cc))
            },
            None => None,
        },
    };
    let notes = match ev {
        Some(e) => if !e.desc.as_str().is_empty() { Some(e.desc.clone()) } else { dup_ostr(&pr.notes) },
        None => dup_ostr(&pr.notes),
    };
    let catalog_id = match ev { Some(e) => Some(e.id.clone()), None => None };
    // sorted folder names
    let order = stable_order(&names);
    let mut sorted: Vec<String> = Vec::new();
    let mut z: usize = 0;
    while z < order.len()
        invariant
            z <= order.len(),
            is_perm(order@, names@.len()),
            sorted@.len() == z,
            forall|w: int| 0 <= w < z ==> #[trigger] sorted@[w]@ == names@[order@[w] as int]@,
        decreases order.len() - z,
    {
        sorted.push(string_of(&names[order[z]]));
        z = z + 1;
    }
    let ghost nv = views(names@);
    assert(nv =~= names@.map_values(|k: Vec<char>| k@));
    assert(strs(sorted@) =~= order@.map_values(|i: usize| nv[i as int]));
    let pkg = Package {
        key,
        name,
        folders: sorted,
        installed_version,
        author: dup_ostr(&pr.author),
        notes,
        source,
        source_label,
        source_url,
        curse_id: curse,
        catalog_id,
        supports_forever: forever,
        managed: managed.is_some(),
        remote_version: None,
        remote_forever: None,
        update_available: false,
        status,
        note,
    };
    assert(nv == spec.folders);
    assert(pkg@.key == spec.key);
    assert(pkg@.name == spec.name);
    assert(pkg@.installed_version == spec.installed_version);
    assert(pkg@.author == spec.author);
    assert(pkg@.notes == spec.notes);
    assert(pkg@.source == spec.source);
    assert(pkg@.source_label == spec.source_label);
    assert(pkg@.source_url == spec.source_url);
    assert(pkg@.curse_id == spec.curse_id);
    assert(pkg@.catalog_id == spec.catalog_id);
    assert(pkg@.supports_forever == spec.supports_forever);
    assert(pkg@.managed == spec.managed);
    assert(pkg@.status == spec.status);
    assert(pkg@.note == spec.note);
    assert(sorted_names(pkg@.folders, spec.folders));
    pkg
}


// ------------------------------------------------------------------ building the list

/// The packages the scanned folders form, in group order (first appearance
/// of each key), before sorting by name.
pub open spec fn package_groups(
    is: Seq<(Seq<char>, InstalledSpec)>,
    has_wago: bool,
    ce: Seq<EntrySpec>,
    fs: Seq<AddonSpec>,
) -> Seq<PackageSpec> {
    let fk = final_keys(fs, direct_keys(ce, is, fs));
    distinct_keys(fk).map_values(|k: Seq<char>| spec_package(ce, is, fs, has_wago, k, group_entry(fk, k), members(fk, k)))
}

pub open spec fn name_keys(g: Seq<PackageSpec>) -> Seq<Seq<char>> {
    g.map_values(|p: PackageSpec| lower(p.name))
}

pub open spec fn package_views(v: Seq<Package>) -> Seq<PackageSpec> {
    v.map_values(|p: Package| p@)
}

fn dup_source(s: &Option<Source>) -> (r: Option<Source>)
    ensures
        opt_source_view(r) == opt_source_view(*s),
{
    match s {
        Some(x) => Some(x.clone()),
        None => None,
    }
}

fn dup_strings(v: &Vec<String>) -> (r: Vec<String>)
    ensures
        strs(r@) == strs(v@),
{
    let mut out: Vec<String> = Vec::new();
    let mut i: usize = 0;
    while i < v.len()
        invariant
            i <= v.len(),
            strs(out@) == strs(v@.take(i as int)),
        decreases v.len() - i,
    {
        let ghost prev = strs(out@);
        let x = v[i].clone();
        out.push(x);
        assert(strs(out@) =~= prev.push(x@));
        assert(strs(v@.take(i + 1)) =~= strs(v@.take(i as int)).push(v@[i as int]@));
        i = i + 1;
    }
    assert(v@.take(v.len() as int) =~= v@);
    out
}

impl Package {
    /// A field-for-field copy.
    pub fn duplicate(&self) -> (r: Self)
        ensures
            r@ == self@,
    {
        Package {
            key: self.key.clone(),
            name: self.name.clone(),
            folders: dup_strings(&self.folders),
            installed_version: dup_ostr(&self.installed_version),
            author: dup_ostr(&self.author),
            notes: dup_ostr(&self.notes),
            source: dup_source(&self.source),
            source_label: self.source_label.clone(),
            source_url: dup_ostr(&self.source_url),
            curse_id: self.curse_id,
            catalog_id: dup_ostr(&self.catalog_id),
            supports_forever: self.supports_forever,
            managed: self.managed,
            remote_version: dup_ostr(&self.remote_version),
            remote_forever: self.remote_forever,
            update_available: self.update_available,
            status: self.status.clone(),
            note: self.note.clone(),
        }
    }
}

/// Group scanned folders into packages and attach sources, sorted by name
/// (ignoring ASCII case; equal names keep their group order).
pub fn build_packages(st: &crate::state::AppState, cat: &crate::catalog::Catalog, folders: &[AddonFolder]) -> (r: Vec<Package>)
    ensures
        ({
            let g = package_groups(st.installed@, crate::state::spec_has_key(ostr(st.wago_key)), entry_views(cat.addons@), addon_views(folders@));
            exists|idx: Seq<usize>| #![trigger is_perm(idx, g.len())]
                is_perm(idx, g.len()) && stably_sorted(name_keys(g), idx) && r@.len() == g.len()
                && forall|j: int| 0 <= j < r@.len() ==> package_matches(#[trigger] r@[j]@, g[idx[j] as int])
        }),
{
    let addons = &cat.addons;
    let installed = &st.installed;
    let has_wago = st.has_wago_key();
    let ghost ce = entry_views(addons@);
    let ghost is = installed@;
    let ghost fs = addon_views(folders@);
    let ghost g = package_groups(is, has_wago, ce, fs);
    // first pass: direct keys
    let mut dk: Vec<(String, Option<usize>)> = Vec::new();
    let mut i: usize = 0;
    while i < folders.len()
        invariant
            i <= folders.len(),
            fs == addon_views(folders@),
            ce == entry_views(addons@),
            is == installed@,
            dk@.len() == i,
            forall|j: int| 0 <= j < i ==> #[trigger] key_views(dk@)[j] == spec_direct_key(ce, is, fs[j]),
            forall|j: int| 0 <= j < i ==> (#[trigger] dk@[j].1 matches Some(e) ==> e < addons@.len()),
        decreases folders.len() - i,
    {
        let k = direct_key(addons, installed, &folders[i]);
        let ghost old_kv = key_views(dk@);
        let ghost kk = (k.0@, opt_index(k.1));
        assert(fs[i as int] == folders@[i as int]@);
        dk.push(k);
        assert(key_views(dk@) =~= old_kv.push(kk));
        i = i + 1;
    }
    assert(key_views(dk@) =~= direct_keys(ce, is, fs));
    // second pass: modules inherit their parent's key
    let mut fk: Vec<(String, Option<usize>)> = Vec::new();
    let mut i: usize = 0;
    while i < folders.len()
        invariant
            i <= folders.len(),
            dk@.len() == folders@.len(),
            fs == addon_views(folders@),
            key_views(dk@) == direct_keys(ce, is, fs),
            forall|j: int| 0 <= j < dk@.len() ==> (#[trigger] dk@[j].1 matches Some(e) ==> e < addons@.len()),
            fk@.len() == i,
            forall|j: int| 0 <= j < i ==> #[trigger] key_views(fk@)[j] == final_key(fs, key_views(dk@), j),
            forall|j: int| 0 <= j < i ==> (#[trigger] fk@[j].1 matches Some(e) ==> e < addons@.len()),
        decreases folders.len() - i,
    {
        let k = final_key_exec(folders, &dk, i);
        let ghost old_kv = key_views(fk@);
        let ghost kk = (k.0@, opt_index(k.1));
        proof {
            if let Some(e) = k.1 {
                if k.1 != dk@[i as int].1 {
                    let j = choose|j: int| 0 <= j < dk@.len() && k.1 == #[trigger] dk@[j].1;
                }
            }
        }
        fk.push(k);
        assert(key_views(fk@) =~= old_kv.push(kk));
        i = i + 1;
    }
    let ghost fkv = key_views(fk@);
    assert(fkv =~= final_keys(fs, direct_keys(ce, is, fs)));
    // groups
    let (gk, ge, gm) = group_by_key(&fk, addons.len());
    let mut pkgs: Vec<Package> = Vec::new();
    let mut q: usize = 0;
    while q < gk.len()
        invariant
            q <= gk.len(),
            ge@.len() == gk@.len(),
            gm@.len() == gk@.len(),
            fkv == key_views(fk@),
            fk@.len() == folders@.len(),
            fs == addon_views(folders@),
            ce == entry_views(addons@),
            is == installed@,
            g == package_groups(is, has_wago, ce, fs),
            fkv == final_keys(fs, direct_keys(ce, is, fs)),
            strs(gk@) == distinct_keys(fkv),
            forall|h: int| 0 <= h < gk@.len() ==> opt_index(#[trigger] ge@[h]) == group_entry(fkv, gk@[h]@),
            forall|h: int| 0 <= h < gk@.len() ==> index_views(#[trigger] gm@[h]@) == members(fkv, gk@[h]@),
            forall|h: int| 0 <= h < gk@.len() ==> (#[trigger] ge@[h] matches Some(e) ==> e < addons@.len()),
            pkgs@.len() == q,
            forall|h: int| 0 <= h < q ==> package_matches(#[trigger] pkgs@[h]@, g[h]),
        decreases gk.len() - q,
    {
        let ghost k = gk@[q as int]@;
        assert(strs(gk@)[q as int] == k);
        assert(distinct_keys(fkv).contains(k));
        proof { lemma_distinct_keys(fkv, k); }
        let ms = &gm[q];
        assert forall|j: int| 0 <= j < ms@.len() implies #[trigger] ms@[j] < folders@.len() by {
            assert(index_views(ms@)[j] == ms@[j] as int);
            assert(members(fkv, k)[j] < fkv.len());
        }
        assert(index_views(ms@).len() == ms@.len());
        let pkg = make_package(addons, installed, folders, has_wago, gk[q].clone(), ge[q], ms);
        assert(g[q as int] == spec_package(ce, is, fs, has_wago, k, group_entry(fkv, k), members(fkv, k)));
        pkgs.push(pkg);
        q = q + 1;
    }
    assert(g.len() == pkgs@.len());
    // sort by name, ignoring ASCII case
    let mut keys: Vec<Vec<char>> = Vec::new();
    let mut i: usize = 0;
    while i < pkgs.len()
        invariant
            i <= pkgs.len(),
            keys@.len() == i,
            pkgs@.len() == g.len(),
            forall|h: int| 0 <= h < pkgs@.len() ==> package_matches(#[trigger] pkgs@[h]@, g[h]),
            forall|j: int| 0 <= j < i ==> #[trigger] keys@[j]@ == lower(g[j].name),
        decreases pkgs.len() - i,
    {
        let c = chars_of(pkgs[i].name.as_str());
        assert(package_matches(pkgs@[i as int]@, g[i as int]));
        keys.push(lower_exec(&c));
        i = i + 1;
    }
    assert(keys@.map_values(|k: Vec<char>| k@) =~= name_keys(g));
    let order = stable_order(&keys);
    let mut out: Vec<Package> = Vec::new();
    let mut z: usize = 0;
    while z < order.len()
        invariant
            z <= order.len(),
            is_perm(order@, g.len()),
            pkgs@.len() == g.len(),
            forall|h: int| 0 <= h < pkgs@.len() ==> package_matches(#[trigger] pkgs@[h]@, g[h]),
            out@.len() == z,
            forall|j: int| 0 <= j < z ==> package_matches(#[trigger] out@[j]@, g[order@[j] as int]),
        decreases order.len() - z,
    {
        let p = pkgs[order[z]].duplicate();
        assert(package_matches(pkgs@[order@[z as int] as int]@, g[order@[z as int] as int]));
        out.push(p);
        z = z + 1;
    }
    out
}


// ------------------------------------------------------------------ update checks

/// A package is checked when it has a source, unless that source is Wago and no key is set.
pub open spec fn spec_should_resolve(source: Option<SourceSpec>, wago_key: Option<Seq<char>>) -> bool {
    match source {
        Some(SourceSpec::Wago(_)) => crate::state::spec_has_key(wago_key),
        Some(_) => true,
        None => false,
    }
}

pub fn should_resolve(pkg: &Package, wago_key: Option<&str>) -> (r: bool)
    ensures
        r == spec_should_resolve(opt_source_view(pkg.source), match wago_key { Some(k) => Some(k@), None => None }),
{
    match &pkg.source {
        Some(Source::Wago(_)) => match wago_key {
            Some(k) => {
                let c = chars_of(k);
                let t = trim_exec(&c);
                t.len() > 0
            },
            None => false,
        },
        Some(_) => true,
        None => false,
    }
}

/// The Forever flag shown: a release that says "not Forever" is treated as
/// unknown when the catalogue vouches for a Forever build.
pub open spec fn shown_forever(remote: Option<bool>, vouched: Option<bool>) -> Option<bool> {
    if remote == Some(false) && vouched == Some(true) { None } else { remote }
}

/// Installed and latest versions are the same release (`v1.2` == `1.2`).
pub open spec fn same_version(installed: Option<Seq<char>>, latest: Seq<char>) -> bool {
    match installed {
        Some(v) => spec_normalize_version(v) == spec_normalize_version(latest),
        None => false,
    }
}

/// Record the outcome of looking up a package's latest release
/// (`vouched` is the catalogue entry's Forever flag).
pub fn resolve_into(pkg: &mut Package, vouched: Option<bool>, result: Result<Remote, String>)
    ensures
        match result {
            Ok(r) => {
                let fv = shown_forever(r.forever, vouched);
                let same = same_version(old(pkg)@.installed_version, r.version@);
                final(pkg)@ == PackageSpec {
                    update_available: !same,
                    status: if same { "ok"@ } else { "update"@ },
                    note: if fv == Some(false) { "Latest release does not list a Forever build"@ } else { seq![] },
                    remote_forever: fv,
                    remote_version: Some(r.version@),
                    ..old(pkg)@
                }
            },
            Err(e) => final(pkg)@ == PackageSpec { status: "error"@, note: e@, ..old(pkg)@ },
        },
{
    match result {
        Ok(r) => {
            let fv = if r.forever == Some(false) && vouched == Some(true) { None } else { r.forever };
            let same = match &pkg.installed_version {
                Some(v) => {
                    let a = normalize_version(v.as_str());
                    let b = normalize_version(r.version.as_str());
                    let ac = chars_of(a.as_str());
                    let bc = chars_of(b.as_str());
                    chars_eq(&ac, &bc)
                },
                None => false,
            };
            pkg.update_available = !same;
            pkg.status = if same { lit_string("ok") } else { lit_string("update") };
            pkg.note = if fv == Some(false) {
                lit_string("Latest release does not list a Forever build")
            } else {
                String::new()
            };
            pkg.remote_forever = fv;
            pkg.remote_version = Some(r.version);
        },
        Err(e) => {
            pkg.status = lit_string("error");
            pkg.note = e;
        },
    }
}

// ------------------------------------------------------------------ laws of grouping

proof fn lemma_members_exact(fk: Seq<(Seq<char>, Option<int>)>, k: Seq<char>, i: int)
    ensures
        members(fk, k).contains(i) <==> (0 <= i < fk.len() && fk[i].0 == k),
    decreases fk.len(),
{
    if fk.len() > 0 {
        let d = fk.drop_last();
        lemma_members_exact(d, k, i);
        let m = members(d, k);
        if fk.last().0 == k {
            if i == fk.len() - 1 {
                assert(m.push(i)[m.len() as int] == i);
            } else if m.contains(i) {
                let j = choose|j: int| 0 <= j < m.len() && m[j] == i;
                assert(m.push(fk.len() - 1)[j] == i);
            } else if members(fk, k).contains(i) {
                let j = choose|j: int| 0 <= j < members(fk, k).len() && members(fk, k)[j] == i;
                if j < m.len() {
                    assert(m[j] == i);
                }
            }
        }
        if 0 <= i < d.len() {
            assert(d[i] == fk[i]);
        }
    }
}

proof fn lemma_key_listed(fk: Seq<(Seq<char>, Option<int>)>, i: int)
    requires
        0 <= i < fk.len(),
    ensures
        distinct_keys(fk).contains(fk[i].0),
    decreases fk.len(),
{
    let d = distinct_keys(fk.drop_last());
    if i < fk.len() - 1 {
        lemma_key_listed(fk.drop_last(), i);
        assert(fk.drop_last()[i] == fk[i]);
        if !d.contains(fk.last().0) {
            let j = choose|j: int| 0 <= j < d.len() && d[j] == fk[i].0;
            assert(d.push(fk.last().0)[j] == fk[i].0);
        }
    } else if !d.contains(fk.last().0) {
        assert(d.push(fk.last().0)[d.len() as int] == fk.last().0);
    }
}

/// No two scanned folders share a name (they come from one directory).
pub open spec fn distinct_folder_names(fs: Seq<AddonSpec>) -> bool {
    forall|a: int, b: int| 0 <= a < b < fs.len() ==> fs[a].folder != fs[b].folder
}

/// Every scanned folder belongs to exactly one package: some package lists
/// it, and no two packages do.
pub proof fn law_each_folder_in_one_package(
    is: Seq<(Seq<char>, InstalledSpec)>,
    has_wago: bool,
    ce: Seq<EntrySpec>,
    fs: Seq<AddonSpec>,
    i: int,
)
    requires
        0 <= i < fs.len(),
        distinct_folder_names(fs),
    ensures
        exists|g: int| 0 <= g < package_groups(is, has_wago, ce, fs).len()
            && (#[trigger] package_groups(is, has_wago, ce, fs)[g]).folders.contains(fs[i].folder),
        forall|g1: int, g2: int|
            0 <= g1 < g2 < package_groups(is, has_wago, ce, fs).len()
            && (#[trigger] package_groups(is, has_wago, ce, fs)[g1]).folders.contains(fs[i].folder)
            ==> !(#[trigger] package_groups(is, has_wago, ce, fs)[g2]).folders.contains(fs[i].folder),
{
    let fk = final_keys(fs, direct_keys(ce, is, fs));
    let d = distinct_keys(fk);
    let pg = package_groups(is, has_wago, ce, fs);
    assert(fk.len() == fs.len());
    lemma_key_listed(fk, i);
    let g = choose|g: int| 0 <= g < d.len() && d[g] == fk[i].0;
    lemma_members_exact(fk, fk[i].0, i);
    lemma_distinct_keys(fk, fk[i].0);
    let ms = members(fk, fk[i].0);
    let j = choose|j: int| 0 <= j < ms.len() && ms[j] == i;
    assert(pg[g].folders == group_folders(fs, ms).map_values(|f: AddonSpec| f.folder));
    assert(pg[g].folders[j] == fs[i].folder);
    assert forall|g1: int, g2: int|
        0 <= g1 < g2 < pg.len() && (#[trigger] pg[g1]).folders.contains(fs[i].folder)
        implies !(#[trigger] pg[g2]).folders.contains(fs[i].folder) by {
        if pg[g2].folders.contains(fs[i].folder) {
            lemma_distinct_keys(fk, d[g1]);
            lemma_distinct_keys(fk, d[g2]);
            let m1 = members(fk, d[g1]);
            let m2 = members(fk, d[g2]);
            let j1 = choose|j1: int| 0 <= j1 < pg[g1].folders.len() && pg[g1].folders[j1] == fs[i].folder;
            let j2 = choose|j2: int| 0 <= j2 < pg[g2].folders.len() && pg[g2].folders[j2] == fs[i].folder;
            assert(pg[g1].folders[j1] == fs[m1[j1]].folder);
            assert(pg[g2].folders[j2] == fs[m2[j2]].folder);
            assert(m1[j1] == i);
            assert(m2[j2] == i);
            lemma_members_exact(fk, d[g1], i);
            lemma_members_exact(fk, d[g2], i);
            assert(m1.contains(i));
            assert(m2.contains(i));
        }
    }
}

proof fn lemma_sorted_names_same_members(out: Seq<Seq<char>>, names: Seq<Seq<char>>, x: Seq<char>)
    requires
        sorted_names(out, names),
    ensures
        out.contains(x) <==> names.contains(x),
{
    let idx = choose|idx: Seq<usize>| #![trigger is_perm(idx, names.len())]
        is_perm(idx, names.len()) && stably_sorted(names, idx) && out == idx.map_values(|i: usize| names[i as int]);
    if out.contains(x) {
        let k = choose|k: int| 0 <= k < out.len() && out[k] == x;
        assert(out[k] == names[idx[k] as int]);
    }
    if names.contains(x) {
        let k = choose|k: int| 0 <= k < names.len() && names[k] == x;
        // `idx` is a permutation of 0..n, so some position holds k
        lemma_perm_onto(idx, names.len(), k);
        let p = choose|p: int| 0 <= p < idx.len() && idx[p] as int == k;
        assert(out[p] == names[k]);
    }
}

proof fn lemma_perm_onto(idx: Seq<usize>, n: nat, k: int)
    requires
        is_perm(idx, n),
        0 <= k < n,
    ensures
        exists|p: int| 0 <= p < idx.len() && idx[p] as int == k,
{
    if !(exists|p: int| 0 <= p < idx.len() && idx[p] as int == k) {
        // the n entries of idx are distinct values below n other than k
        let s = Set::new(|v: int| 0 <= v < n && v != k);
        let m = idx.map_values(|u: usize| u as int);
        assert forall|p: int| 0 <= p < m.len() implies s.contains(m[p]) by {
            assert(m[p] == idx[p] as int);
        }
        assert(m.no_duplicates()) by {
            assert forall|a: int, b: int| 0 <= a < m.len() && 0 <= b < m.len() && a != b implies m[a] != m[b] by {
                if a < b { assert(idx[a] != idx[b]); } else { assert(idx[b] != idx[a]); }
            }
        }
        m.unique_seq_to_set();
        assert(m.to_set().subset_of(s));
        vstd::set_lib::lemma_int_range(0, n as int);
        assert(s =~= vstd::set_lib::set_int_range(0, n as int).remove(k));
        vstd::set_lib::lemma_len_subset(m.to_set(), s);
    }
}

/// In the list the app shows, every scanned folder is in exactly one row:
/// the law of [`law_each_folder_in_one_package`] carried through the
/// reordering that [`build_packages`] states.
pub proof fn law_each_folder_in_one_row(
    is: Seq<(Seq<char>, InstalledSpec)>,
    has_wago: bool,
    ce: Seq<EntrySpec>,
    fs: Seq<AddonSpec>,
    rows: Seq<PackageSpec>,
    idx: Seq<usize>,
    i: int,
)
    requires
        is_perm(idx, package_groups(is, has_wago, ce, fs).len()),
        rows.len() == package_groups(is, has_wago, ce, fs).len(),
        forall|j: int| 0 <= j < rows.len() ==> package_matches(#[trigger] rows[j], package_groups(is, has_wago, ce, fs)[idx[j] as int]),
        0 <= i < fs.len(),
        distinct_folder_names(fs),
    ensures
        exists|j: int| 0 <= j < rows.len() && (#[trigger] rows[j]).folders.contains(fs[i].folder),
        forall|j1: int, j2: int| 0 <= j1 < j2 < rows.len() && (#[trigger] rows[j1]).folders.contains(fs[i].folder)
            ==> !(#[trigger] rows[j2]).folders.contains(fs[i].folder),
{
    let g = package_groups(is, has_wago, ce, fs);
    let x = fs[i].folder;
    law_each_folder_in_one_package(is, has_wago, ce, fs, i);
    let gi = choose|gi: int| 0 <= gi < g.len() && (#[trigger] g[gi]).folders.contains(x);
    lemma_perm_onto(idx, g.len(), gi);
    let j = choose|j: int| 0 <= j < idx.len() && idx[j] as int == gi;
    assert(package_matches(rows[j], g[gi]));
    lemma_sorted_names_same_members(rows[j].folders, g[gi].folders, x);
    assert(rows[j].folders.contains(x));
    assert forall|j1: int, j2: int| 0 <= j1 < j2 < rows.len() && (#[trigger] rows[j1]).folders.contains(x)
        implies !(#[trigger] rows[j2]).folders.contains(x) by {
        if rows[j2].folders.contains(x) {
            assert(package_matches(rows[j1], g[idx[j1] as int]));
            assert(package_matches(rows[j2], g[idx[j2] as int]));
            lemma_sorted_names_same_members(rows[j1].folders, g[idx[j1] as int].folders, x);
            lemma_sorted_names_same_members(rows[j2].folders, g[idx[j2] as int].folders, x);
            assert(idx[j1] != idx[j2]);
            if idx[j1] < idx[j2] {
                assert(g[idx[j1] as int].folders.contains(x));
                assert(!g[idx[j2] as int].folders.contains(x));
            } else {
                assert(g[idx[j2] as int].folders.contains(x));
                assert(!g[idx[j1] as int].folders.contains(x));
            }
        }
    }
}

/// A key paired with a catalogue entry names that entry: `cat:<id>`.
pub open spec fn names_its_entry(ce: Seq<EntrySpec>, p: (Seq<char>, Option<int>)) -> bool {
    p.1 matches Some(e) ==> 0 <= e < ce.len() && p.0 == "cat:"@ + ce[e].id
}

proof fn lemma_last_by_range(ce: Seq<EntrySpec>, f: AddonSpec, lname: Seq<char>)
    ensures
        last_by_folder(ce, lname) matches Some(e) ==> 0 <= e < ce.len(),
        (match f.wago { Some(w) => last_by_wago(ce, w), None => None }) matches Some(e) ==> 0 <= e < ce.len(),
        (match f.curse { Some(c) => last_by_curse(ce, c), None => None }) matches Some(e) ==> 0 <= e < ce.len(),
        (match f.wowi { Some(i) => last_by_wowi(ce, i), None => None }) matches Some(e) ==> 0 <= e < ce.len(),
    decreases ce.len(),
{
    if ce.len() > 0 {
        lemma_last_by_range(ce.drop_last(), f, lname);
    }
}

proof fn lemma_direct_key_names_entry(ce: Seq<EntrySpec>, is: Seq<(Seq<char>, InstalledSpec)>, f: AddonSpec)
    ensures
        names_its_entry(ce, spec_direct_key(ce, is, f)),
{
    let lname = lower(f.folder);
    lemma_last_by_range(ce, f, lname);
    match managed_key(is, lname) {
        Some(k) => {
            if starts_with(k, "cat:"@) {
                lemma_find_id(ce, k.skip(4));
                reveal_strlit("cat:");
                assert(k =~= "cat:"@ + k.skip(4));
            }
        },
        None => {},
    }
}

proof fn lemma_inherit_names_entry(
    ce: Seq<EntrySpec>,
    fs: Seq<AddonSpec>,
    dk: Seq<(Seq<char>, Option<int>)>,
    cur: int,
    n: nat,
    acc: (Seq<char>, Option<int>),
)
    requires
        dk.len() == fs.len(),
        names_its_entry(ce, acc),
        forall|q: int| 0 <= q < dk.len() ==> names_its_entry(ce, #[trigger] dk[q]),
    ensures
        names_its_entry(ce, inherit(fs, dk, cur, n, acc)),
    decreases n,
{
    if n > 0 {
        match module_of(fs, cur) {
            None => {},
            Some(pi) => {
                lemma_disk_index(fs, lower(fs[pi].folder));
                let acc2 = match disk_index(fs, lower(fs[pi].folder)) {
                    Some(q) => if !starts_with(dk[q].0, "folder:"@) || fs[pi].folder != fs[cur].folder {
                        dk[q]
                    } else {
                        acc
                    },
                    None => acc,
                };
                lemma_inherit_names_entry(ce, fs, dk, pi, (n - 1) as nat, acc2);
            },
        }
    }
}

proof fn lemma_group_entry_from(fk: Seq<(Seq<char>, Option<int>)>, k: Seq<char>, i: int)
    requires
        0 <= i < fk.len(),
        fk[i].0 == k,
        fk[i].1 is Some,
    ensures
        group_entry(fk, k) matches Some(e) && exists|m: int| 0 <= m < fk.len() && (#[trigger] fk[m]).0 == k && fk[m].1 == Some(e),
    decreases fk.len(),
{
    let d = fk.drop_last();
    if i < fk.len() - 1 {
        assert(d[i] == fk[i]);
        lemma_group_entry_from(d, k, i);
        let e = group_entry(d, k)->0;
        let m = choose|m: int| 0 <= m < d.len() && (#[trigger] d[m]).0 == k && d[m].1 == Some(e);
        assert(fk[m] == d[m]);
    } else {
        if group_entry(d, k) is Some {
            lemma_group_entry_some(d, k);
            let e = group_entry(d, k)->0;
            let m = choose|m: int| 0 <= m < d.len() && (#[trigger] d[m]).0 == k && d[m].1 == Some(e);
            assert(fk[m] == d[m]);
        } else {
            assert(fk[fk.len() - 1] == fk.last());
        }
    }
}

proof fn lemma_group_entry_some(fk: Seq<(Seq<char>, Option<int>)>, k: Seq<char>)
    ensures
        group_entry(fk, k) matches Some(e) ==> exists|m: int| 0 <= m < fk.len() && (#[trigger] fk[m]).0 == k && fk[m].1 == Some(e),
    decreases fk.len(),
{
    if fk.len() > 0 {
        let d = fk.drop_last();
        lemma_group_entry_some(d, k);
        if group_entry(d, k) is Some {
            let e = group_entry(d, k)->0;
            let m = choose|m: int| 0 <= m < d.len() && (#[trigger] d[m]).0 == k && d[m].1 == Some(e);
            assert(fk[m] == d[m]);
        } else if fk.last().0 == k && fk.last().1 is Some {
            assert(fk[fk.len() - 1] == fk.last());
        }
    }
}

proof fn lemma_managed_key_none(is: Seq<(Seq<char>, InstalledSpec)>, lname: Seq<char>)
    requires
        forall|k: int, j: int| 0 <= k < is.len() && 0 <= j < is[k].1.folders.len() ==> lower(#[trigger] is[k].1.folders[j]) != lname,
    ensures
        managed_key(is, lname) is None,
    decreases is.len(),
{
    if is.len() > 0 {
        let d = is.drop_last();
        assert forall|k: int, j: int| 0 <= k < d.len() && 0 <= j < d[k].1.folders.len() implies lower(#[trigger] d[k].1.folders[j]) != lname by {
            assert(d[k] == is[k]);
        }
        lemma_managed_key_none(d, lname);
        assert(is.last() == is[is.len() - 1]);
    }
}

proof fn lemma_last_by_folder_is(ce: Seq<EntrySpec>, lname: Seq<char>, e: int)
    requires
        0 <= e < ce.len(),
        exists|j: int| 0 <= j < ce[e].folders.len() && lower(#[trigger] ce[e].folders[j]) == lname,
        forall|e2: int, j: int| e < e2 < ce.len() && 0 <= j < ce[e2].folders.len() ==> lower(#[trigger] ce[e2].folders[j]) != lname,
    ensures
        last_by_folder(ce, lname) == Some(e),
    decreases ce.len(),
{
    let d = ce.drop_last();
    if e < ce.len() - 1 {
        assert(ce.last() == ce[ce.len() - 1]);
        assert(!entry_has_folder(ce.last(), lname));
        assert(d[e] == ce[e]);
        assert forall|e2: int, j: int| e < e2 < d.len() && 0 <= j < d[e2].folders.len() implies lower(#[trigger] d[e2].folders[j]) != lname by {
            assert(d[e2] == ce[e2]);
        }
        lemma_last_by_folder_is(d, lname, e);
    } else {
        assert(ce.last() == ce[e]);
        assert(entry_has_folder(ce.last(), lname));
    }
}

/// A scanned folder that no installed record owns, and that a catalogue
/// entry lists under the same name (compared lower-cased), belongs to the
/// package of that entry: the package listing the folder is keyed
/// `cat:<id>` and carries the catalogue id `<id>` of the last entry that
/// lists the name.
pub proof fn law_catalogue_folder_names_package(
    is: Seq<(Seq<char>, InstalledSpec)>,
    has_wago: bool,
    ce: Seq<EntrySpec>,
    fs: Seq<AddonSpec>,
    i: int,
    e: int,
)
    requires
        0 <= i < fs.len(),
        0 <= e < ce.len(),
        forall|k: int, j: int| 0 <= k < is.len() && 0 <= j < is[k].1.folders.len()
            ==> lower(#[trigger] is[k].1.folders[j]) != lower(fs[i].folder),
        exists|j: int| 0 <= j < ce[e].folders.len() && lower(#[trigger] ce[e].folders[j]) == lower(fs[i].folder),
        forall|e2: int, j: int| e < e2 < ce.len() && 0 <= j < ce[e2].folders.len()
            ==> lower(#[trigger] ce[e2].folders[j]) != lower(fs[i].folder),
    ensures
        exists|g: int| 0 <= g < package_groups(is, has_wago, ce, fs).len() && {
            let p = #[trigger] package_groups(is, has_wago, ce, fs)[g];
            &&& p.folders.contains(fs[i].folder)
            &&& p.key == "cat:"@ + ce[e].id
            &&& p.catalog_id == Some(ce[e].id)
        },
{
    let lname = lower(fs[i].folder);
    let dk = direct_keys(ce, is, fs);
    let fk = final_keys(fs, dk);
    lemma_managed_key_none(is, lname);
    lemma_last_by_folder_is(ce, lname, e);
    assert(dk[i] == spec_direct_key(ce, is, fs[i]));
    assert(dk[i] == ("cat:"@ + ce[e].id, Some(e)));
    reveal_strlit("cat:");
    reveal_strlit("folder:");
    assert(!starts_with(dk[i].0, "folder:"@)) by {
        assert(dk[i].0[0] == 'c');
        assert("folder:"@[0] == 'f');
    }
    assert(fk[i] == dk[i]);
    lemma_group_of(is, has_wago, ce, fs, i);
}

/// The package of the `i`th folder: it lists the folder, has the folder's
/// final key, and its catalogue id is that of an entry whose `cat:<id>`
/// key it is (the folder's own entry when it has one).
proof fn lemma_group_of(is: Seq<(Seq<char>, InstalledSpec)>, has_wago: bool, ce: Seq<EntrySpec>, fs: Seq<AddonSpec>, i: int)
    requires
        0 <= i < fs.len(),
    ensures
        exists|g: int| 0 <= g < package_groups(is, has_wago, ce, fs).len() && {
            let p = #[trigger] package_groups(is, has_wago, ce, fs)[g];
            let fk = final_keys(fs, direct_keys(ce, is, fs));
            &&& p.folders.contains(fs[i].folder)
            &&& p.key == fk[i].0
            &&& (p.catalog_id matches Some(id) ==> p.key == "cat:"@ + id)
            &&& (fk[i].1 matches Some(e) ==> p.catalog_id == Some(ce[e].id))
        },
{
    reveal_strlit("cat:");
    let dk = direct_keys(ce, is, fs);
    let fk = final_keys(fs, dk);
    let pg = package_groups(is, has_wago, ce, fs);
    assert forall|q: int| 0 <= q < dk.len() implies names_its_entry(ce, #[trigger] dk[q]) by {
        lemma_direct_key_names_entry(ce, is, fs[q]);
    }
    assert forall|m: int| 0 <= m < fk.len() implies names_its_entry(ce, #[trigger] fk[m]) by {
        if starts_with(dk[m].0, "folder:"@) {
            lemma_inherit_names_entry(ce, fs, dk, m, 4, dk[m]);
        }
    }
    let k = fk[i].0;
    lemma_key_listed(fk, i);
    let d = distinct_keys(fk);
    let g = choose|g: int| 0 <= g < d.len() && d[g] == k;
    lemma_members_exact(fk, k, i);
    lemma_distinct_keys(fk, k);
    let ms = members(fk, k);
    let j = choose|j: int| 0 <= j < ms.len() && ms[j] == i;
    assert(pg[g].folders == group_folders(fs, ms).map_values(|f: AddonSpec| f.folder));
    assert(pg[g].folders[j] == fs[i].folder);
    assert(pg[g].key == k);
    lemma_group_entry_some(fk, k);
    if let Some(e2) = group_entry(fk, k) {
        let m = choose|m: int| 0 <= m < fk.len() && (#[trigger] fk[m]).0 == k && fk[m].1 == Some(e2);
        assert(names_its_entry(ce, fk[m]));
        assert(pg[g].catalog_id == Some(ce[e2].id));
        if let Some(e) = fk[i].1 {
            assert(names_its_entry(ce, fk[i]));
            assert(ce[e2].id =~= ("cat:"@ + ce[e2].id).skip(4));
            assert(ce[e].id =~= ("cat:"@ + ce[e].id).skip(4));
        }
    } else {
        if fk[i].1 is Some {
            lemma_group_entry_from(fk, k, i);
        }
    }
}

proof fn lemma_no_entry_by_folder(ce: Seq<EntrySpec>, lname: Seq<char>)
    requires
        forall|e: int, j: int| 0 <= e < ce.len() && 0 <= j < ce[e].folders.len() ==> lower(#[trigger] ce[e].folders[j]) != lname,
    ensures
        last_by_folder(ce, lname) is None,
    decreases ce.len(),
{
    if ce.len() > 0 {
        let d = ce.drop_last();
        assert forall|e: int, j: int| 0 <= e < d.len() && 0 <= j < d[e].folders.len() implies lower(#[trigger] d[e].folders[j]) != lname by {
            assert(d[e] == ce[e]);
        }
        lemma_no_entry_by_folder(d, lname);
        assert(ce.last() == ce[ce.len() - 1]);
    }
}

proof fn lemma_last_by_wago_is(ce: Seq<EntrySpec>, w: Seq<char>, e: int)
    requires
        0 <= e < ce.len(),
        ce[e].wago == Some(w),
        forall|e2: int| e < e2 < ce.len() ==> (#[trigger] ce[e2]).wago != Some(w),
    ensures
        last_by_wago(ce, w) == Some(e),
    decreases ce.len(),
{
    if e < ce.len() - 1 {
        let d = ce.drop_last();
        assert(ce.last() == ce[ce.len() - 1]);
        assert(d[e] == ce[e]);
        assert forall|e2: int| e < e2 < d.len() implies (#[trigger] d[e2]).wago != Some(w) by {
            assert(d[e2] == ce[e2]);
        }
        lemma_last_by_wago_is(d, w, e);
    } else {
        assert(ce.last() == ce[e]);
    }
}

proof fn lemma_no_entry_by_ids(ce: Seq<EntrySpec>, f: AddonSpec)
    requires
        f.wago matches Some(w) ==> forall|e: int| 0 <= e < ce.len() ==> (#[trigger] ce[e]).wago != Some(w),
        f.curse matches Some(c) ==> forall|e: int| 0 <= e < ce.len() ==> (#[trigger] ce[e]).curse != Some(c),
        f.wowi matches Some(n) ==> forall|e: int| 0 <= e < ce.len() ==> (#[trigger] ce[e]).wowi != Some(n),
    ensures
        (match f.wago { Some(w) => last_by_wago(ce, w), None => None }) is None,
        (match f.curse { Some(c) => last_by_curse(ce, c), None => None }) is None,
        (match f.wowi { Some(n) => last_by_wowi(ce, n), None => None }) is None,
    decreases ce.len(),
{
    if ce.len() > 0 {
        let d = ce.drop_last();
        assert(ce.last() == ce[ce.len() - 1]);
        assert forall|e: int| 0 <= e < d.len() implies #[trigger] d[e] == ce[e] by {}
        lemma_no_entry_by_ids(d, f);
    }
}

/// A scanned folder that no installed record owns and no catalogue entry
/// lists by name, but whose TOC gives a Wago id that catalogue entries
/// carry, belongs to the package of the last such entry: keyed `cat:<id>`,
/// with catalogue id `<id>`.
pub proof fn law_wago_id_names_package(
    is: Seq<(Seq<char>, InstalledSpec)>,
    has_wago: bool,
    ce: Seq<EntrySpec>,
    fs: Seq<AddonSpec>,
    i: int,
    e: int,
)
    requires
        0 <= i < fs.len(),
        0 <= e < ce.len(),
        forall|k: int, j: int| 0 <= k < is.len() && 0 <= j < is[k].1.folders.len()
            ==> lower(#[trigger] is[k].1.folders[j]) != lower(fs[i].folder),
        forall|e2: int, j: int| 0 <= e2 < ce.len() && 0 <= j < ce[e2].folders.len()
            ==> lower(#[trigger] ce[e2].folders[j]) != lower(fs[i].folder),
        fs[i].wago is Some,
        ce[e].wago == fs[i].wago,
        forall|e2: int| e < e2 < ce.len() ==> (#[trigger] ce[e2]).wago != fs[i].wago,
    ensures
        exists|g: int| 0 <= g < package_groups(is, has_wago, ce, fs).len() && {
            let p = #[trigger] package_groups(is, has_wago, ce, fs)[g];
            &&& p.folders.contains(fs[i].folder)
            &&& p.key == "cat:"@ + ce[e].id
            &&& p.catalog_id == Some(ce[e].id)
        },
{
    let lname = lower(fs[i].folder);
    let dk = direct_keys(ce, is, fs);
    let fk = final_keys(fs, dk);
    lemma_managed_key_none(is, lname);
    lemma_no_entry_by_folder(ce, lname);
    lemma_last_by_wago_is(ce, fs[i].wago->0, e);
    assert(dk[i] == spec_direct_key(ce, is, fs[i]));
    assert(dk[i] == ("cat:"@ + ce[e].id, Some(e)));
    reveal_strlit("cat:");
    reveal_strlit("folder:");
    assert(!starts_with(dk[i].0, "folder:"@)) by {
        assert(dk[i].0[0] == 'c');
        assert("folder:"@[0] == 'f');
    }
    assert(fk[i] == dk[i]);
    lemma_group_of(is, has_wago, ce, fs, i);
}

/// A scanned folder that nothing in the catalogue matches (no installed
/// record owns it, no entry lists its name or carries its Wago, CurseForge
/// or WoWInterface id) but whose TOC gives a Wago id forms the package
/// `wago:<id>`, without a catalogue id.
pub proof fn law_unmatched_wago_folder_package(
    is: Seq<(Seq<char>, InstalledSpec)>,
    has_wago: bool,
    ce: Seq<EntrySpec>,
    fs: Seq<AddonSpec>,
    i: int,
    w: Seq<char>,
)
    requires
        0 <= i < fs.len(),
        forall|k: int, j: int| 0 <= k < is.len() && 0 <= j < is[k].1.folders.len()
            ==> lower(#[trigger] is[k].1.folders[j]) != lower(fs[i].folder),
        forall|e2: int, j: int| 0 <= e2 < ce.len() && 0 <= j < ce[e2].folders.len()
            ==> lower(#[trigger] ce[e2].folders[j]) != lower(fs[i].folder),
        fs[i].wago == Some(w),
        forall|e: int| 0 <= e < ce.len() ==> (#[trigger] ce[e]).wago != Some(w),
        fs[i].curse matches Some(c) ==> forall|e: int| 0 <= e < ce.len() ==> (#[trigger] ce[e]).curse != Some(c),
        fs[i].wowi matches Some(n) ==> forall|e: int| 0 <= e < ce.len() ==> (#[trigger] ce[e]).wowi != Some(n),
    ensures
        exists|g: int| 0 <= g < package_groups(is, has_wago, ce, fs).len() && {
            let p = #[trigger] package_groups(is, has_wago, ce, fs)[g];
            &&& p.folders.contains(fs[i].folder)
            &&& p.key == "wago:"@ + w
            &&& p.catalog_id is None
        },
{
    let lname = lower(fs[i].folder);
    let dk = direct_keys(ce, is, fs);
    let fk = final_keys(fs, dk);
    lemma_managed_key_none(is, lname);
    lemma_no_entry_by_folder(ce, lname);
    lemma_no_entry_by_ids(ce, fs[i]);
    assert(dk[i] == spec_direct_key(ce, is, fs[i]));
    assert(dk[i] == ("wago:"@ + w, None::<int>));
    reveal_strlit("wago:");
    reveal_strlit("folder:");
    reveal_strlit("cat:");
    assert(!starts_with(dk[i].0, "folder:"@)) by {
        assert(dk[i].0[0] == 'w');
        assert("folder:"@[0] == 'f');
    }
    assert(fk[i] == dk[i]);
    lemma_group_of(is, has_wago, ce, fs, i);
    let pg = package_groups(is, has_wago, ce, fs);
    let g = choose|g: int| 0 <= g < pg.len() && {
        let p = #[trigger] pg[g];
        &&& p.folders.contains(fs[i].folder)
        &&& p.key == fk[i].0
        &&& (p.catalog_id matches Some(id) ==> p.key == "cat:"@ + id)
        &&& (fk[i].1 matches Some(e) ==> p.catalog_id == Some(ce[e].id))
    };
    if let Some(id) = pg[g].catalog_id {
        assert(pg[g].key[0] == 'w');
        assert(("cat:"@ + id)[0] == 'c');
    }
}

/// A package that carries a catalogue id takes its name from a catalogue
/// entry with that id, and when that entry names a GitHub repository, the
/// package updates from it (status `unknown` until checked).
pub proof fn law_catalogue_package_source(
    is: Seq<(Seq<char>, InstalledSpec)>,
    has_wago: bool,
    ce: Seq<EntrySpec>,
    fs: Seq<AddonSpec>,
    g: int,
)
    requires
        0 <= g < package_groups(is, has_wago, ce, fs).len(),
    ensures
        package_groups(is, has_wago, ce, fs)[g].catalog_id matches Some(id) ==> exists|e: int| 0 <= e < ce.len() && {
            let p = package_groups(is, has_wago, ce, fs)[g];
            &&& (#[trigger] ce[e]).id == id
            &&& p.name == ce[e].name
            &&& (ce[e].github matches Some(r) ==> p.source == Some(SourceSpec::Github(r)) && p.status == "unknown"@)
        },
{
    let dk = direct_keys(ce, is, fs);
    let fk = final_keys(fs, dk);
    let pg = package_groups(is, has_wago, ce, fs);
    let k = distinct_keys(fk)[g];
    assert forall|q: int| 0 <= q < dk.len() implies names_its_entry(ce, #[trigger] dk[q]) by {
        lemma_direct_key_names_entry(ce, is, fs[q]);
    }
    assert forall|m: int| 0 <= m < fk.len() implies names_its_entry(ce, #[trigger] fk[m]) by {
        if starts_with(dk[m].0, "folder:"@) {
            lemma_inherit_names_entry(ce, fs, dk, m, 4, dk[m]);
        }
    }
    lemma_group_entry_some(fk, k);
    assert(pg[g] == spec_package(ce, is, fs, has_wago, k, group_entry(fk, k), members(fk, k)));
    if let Some(e) = group_entry(fk, k) {
        let m = choose|m: int| 0 <= m < fk.len() && (#[trigger] fk[m]).0 == k && fk[m].1 == Some(e);
        assert(names_its_entry(ce, fk[m]));
        assert(0 <= e < ce.len());
        let _ = ce[e];
    }
}

/// An update is reported exactly when the installed and latest versions
/// differ once trimmed, stripped of a leading `v`/`V`, trimmed again and
/// compared ignoring ASCII case; a package with no known installed version
/// is always reported as having one.
pub proof fn law_update_when_versions_differ(installed: Option<Seq<char>>, latest: Seq<char>)
    ensures
        same_version(installed, latest) <==> (installed matches Some(v)
            && lower(trim(skip_in(trim(v), seq!['v', 'V']))) == lower(trim(skip_in(trim(latest), seq!['v', 'V'])))),
{
    if let Some(v) = installed {
        crate::sources::law_version_form(v, latest);
    }
}

proof fn lemma_managed_key_is(is: Seq<(Seq<char>, InstalledSpec)>, lname: Seq<char>, r: int)
    requires
        0 <= r < is.len(),
        exists|j: int| 0 <= j < is[r].1.folders.len() && lower(#[trigger] is[r].1.folders[j]) == lname,
        forall|r2: int, j: int| r < r2 < is.len() && 0 <= j < is[r2].1.folders.len() ==> lower(#[trigger] is[r2].1.folders[j]) != lname,
    ensures
        managed_key(is, lname) == Some(is[r].0),
    decreases is.len(),
{
    let d = is.drop_last();
    assert(is.last() == is[is.len() - 1]);
    if r < is.len() - 1 {
        assert(d[r] == is[r]);
        assert forall|r2: int, j: int| r < r2 < d.len() && 0 <= j < d[r2].1.folders.len() implies lower(#[trigger] d[r2].1.folders[j]) != lname by {
            assert(d[r2] == is[r2]);
        }
        lemma_managed_key_is(d, lname, r);
    }
}

/// A scanned folder that an installed record lists (compared lower-cased)
/// belongs to that record's package: the package listing the folder has
/// the key of the last record that lists it.
pub proof fn law_installed_record_names_package(
    is: Seq<(Seq<char>, InstalledSpec)>,
    has_wago: bool,
    ce: Seq<EntrySpec>,
    fs: Seq<AddonSpec>,
    i: int,
    r: int,
)
    requires
        0 <= i < fs.len(),
        0 <= r < is.len(),
        exists|j: int| 0 <= j < is[r].1.folders.len() && lower(#[trigger] is[r].1.folders[j]) == lower(fs[i].folder),
        forall|r2: int, j: int| r < r2 < is.len() && 0 <= j < is[r2].1.folders.len()
            ==> lower(#[trigger] is[r2].1.folders[j]) != lower(fs[i].folder),
        !starts_with(is[r].0, "folder:"@),
    ensures
        exists|g: int| 0 <= g < package_groups(is, has_wago, ce, fs).len() && {
            let p = #[trigger] package_groups(is, has_wago, ce, fs)[g];
            &&& p.folders.contains(fs[i].folder)
            &&& p.key == is[r].0
        },
{
    let lname = lower(fs[i].folder);
    let dk = direct_keys(ce, is, fs);
    let fk = final_keys(fs, dk);
    lemma_managed_key_is(is, lname, r);
    assert(dk[i] == spec_direct_key(ce, is, fs[i]));
    assert(dk[i].0 == is[r].0);
    assert(fk[i] == dk[i]);
    lemma_group_of(is, has_wago, ce, fs, i);
}

/// The update source's order of preference: the catalogue entry's GitHub
/// repository, then its Wago project when a Wago key is set, its
/// WoWInterface id, its TukUI slug, its Wago project without a key; and
/// only when the catalogue gives none, the Wago id, then the WoWInterface
/// id the folder's TOC declares.
pub proof fn law_source_preference(e: EntrySpec, f: AddonSpec, has_wago: bool)
    ensures
        e.github matches Some(r) ==> spec_pick_source(Some(e), f, has_wago) == Some(SourceSpec::Github(r)),
        e.github is None && has_wago && e.wago is Some
            ==> spec_pick_source(Some(e), f, has_wago) == Some(SourceSpec::Wago(e.wago->0)),
        e.github is None && !(has_wago && e.wago is Some) && e.wowi is Some
            ==> spec_pick_source(Some(e), f, has_wago) == Some(SourceSpec::Wowi(e.wowi->0)),
        e.github is None && !(has_wago && e.wago is Some) && e.wowi is None && e.tukui is Some
            ==> spec_pick_source(Some(e), f, has_wago) == Some(SourceSpec::Tukui(e.tukui->0)),
        e.github is None && e.wowi is None && e.tukui is None && e.wago is Some
            ==> spec_pick_source(Some(e), f, has_wago) == Some(SourceSpec::Wago(e.wago->0)),
        f.wago matches Some(w) ==> spec_pick_source(None, f, has_wago) == Some(SourceSpec::Wago(w)),
        f.wago is None && f.wowi is Some ==> spec_pick_source(None, f, has_wago) == Some(SourceSpec::Wowi(f.wowi->0)),
        f.wago is None && f.wowi is None && f.website is None ==> spec_pick_source(None, f, has_wago) is None,
{
}

} // verus!
