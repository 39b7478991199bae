//! Persistent local state: the install path, the Wago key and the packages
//! installed by this app.
use vstd::prelude::*;
use std::collections::BTreeSet;
use crate::text::{chars_eq, chars_of, string_of, trim, trim_exec};
use crate::wow::{ostr, strs};

verus! {

/// A package this app installed itself.
#[derive(Clone, Debug)]
pub struct Installed {
    /// Source kind: github | wago | wowi | tukui
    pub source: String,
    pub source_id: String,
    pub version: String,
    pub folders: Vec<String>,
    pub installed_at: u64,
}

/// The mathematical value of an [`Installed`] record.
pub struct InstalledSpec {
    pub source: Seq<char>,
    pub source_id: Seq<char>,
    pub version: Seq<char>,
    pub folders: Seq<Seq<char>>,
    pub installed_at: u64,
}

impl View for Installed {
    type V = InstalledSpec;

    open spec fn view(&self) -> InstalledSpec {
        InstalledSpec {
            source: self.source@,
            source_id: self.source_id@,
            version: self.version@,
            folders: strs(self.folders@),
            installed_at: self.installed_at,
        }
    }
}

/// Installed packages keyed by package key, in the order they were first inserted.
#[derive(Debug)]
pub struct InstalledMap {
    entries: Vec<(String, Installed)>,
}

pub open spec fn keys_unique(e: Seq<(Seq<char>, InstalledSpec)>) -> bool {
    forall|i: int, j: int| 0 <= i < j < e.len() ==> e[i].0 != e[j].0
}

/// Position of `k` in the entries.
pub open spec fn spec_key_index(e: Seq<(Seq<char>, InstalledSpec)>, k: Seq<char>) -> Option<int> {
    if exists|i: int| 0 <= i < e.len() && e[i].0 == k {
        Some(choose|i: int| 0 <= i < e.len() && e[i].0 == k)
    } else {
        None
    }
}

pub open spec fn spec_lookup(e: Seq<(Seq<char>, InstalledSpec)>, k: Seq<char>) -> Option<InstalledSpec> {
    match spec_key_index(e, k) {
        Some(i) => Some(e[i].1),
        None => None,
    }
}

impl View for InstalledMap {
    type V = Seq<(Seq<char>, InstalledSpec)>;

    closed spec fn view(&self) -> Seq<(Seq<char>, InstalledSpec)> {
        self.entries@.map_values(|p: (String, Installed)| (p.0@, p.1@))
    }
}

impl InstalledMap {
    #[verifier::type_invariant]
    closed spec fn wf(&self) -> bool {
        keys_unique(self@)
    }

    pub fn new() -> (r: Self)
        ensures
            r@.len() == 0,
            keys_unique(r@),
    {
        let r = InstalledMap { entries: Vec::new() };
        assert(r@ =~= Seq::<(Seq<char>, InstalledSpec)>::empty());
        r
    }

    /// Number of packages.
    pub fn len(&self) -> (r: usize)
        ensures
            r == self@.len(),
    {
        self.entries.len()
    }

    fn index_of(&self, k: &[char]) -> (r: Option<usize>)
        ensures
            match r {
                Some(i) => i < self@.len() && self@[i as int].0 == k@,
                None => forall|i: int| 0 <= i < self@.len() ==> self@[i].0 != k@,
            },
    {
        let mut i: usize = 0;
        while i < self.entries.len()
            invariant
                i <= self.entries.len(),
                forall|j: int| 0 <= j < i ==> self@[j].0 != k@,
            decreases self.entries.len() - i,
        {
            let c = chars_of(self.entries[i].0.as_str());
            if chars_eq(&c, k) {
                return Some(i);
            }
            i = i + 1;
        }
        None
    }

    /// The record under `key`.
    pub fn get(&self, key: &str) -> (r: Option<&Installed>)
        ensures
            match r {
                Some(v) => spec_lookup(self@, key@) == Some(v@),
                None => spec_lookup(self@, key@) is None,
            },
            keys_unique(self@),
    {
        proof { use_type_invariant(self); }
        let k = chars_of(key);
        match self.index_of(&k) {
            Some(i) => {
                assert(self@[i as int].0 == key@);
                proof {
                    let j = choose|j: int| 0 <= j < self@.len() && self@[j].0 == key@;
                    assert(i == j);
                }
                Some(&self.entries[i].1)
            },
            None => None,
        }
    }

    /// Insert or replace the record under `key`; a new key goes last.
    /// Returns the record it replaced.
    pub fn insert(&mut self, key: String, value: Installed) -> (r: Option<Installed>)
        ensures
            match spec_key_index(old(self)@, key@) {
                Some(i) => final(self)@ == old(self)@.update(i, (key@, value@)) && (r matches Some(o) && o@ == old(self)@[i].1),
                None => final(self)@ == old(self)@.push((key@, value@)) && r is None,
            },
            keys_unique(old(self)@),
            keys_unique(final(self)@),
    {
        proof { use_type_invariant(&*self); }
        let k = chars_of(key.as_str());
        match self.index_of(&k) {
            Some(i) => {
                proof {
                    let j = choose|j: int| 0 <= j < self@.len() && self@[j].0 == key@;
                    assert(i == j);
                }
                let ghost before = self@;
                let mut entries: Vec<(String, Installed)> = Vec::new();
                std::mem::swap(&mut entries, &mut self.entries);
                let old_v = entries.remove(i);
                entries.insert(i, (key, value));
                assert(entries@.map_values(|p: (String, Installed)| (p.0@, p.1@)) =~= before.update(i as int, (key@, value@)));
                assert(keys_unique(before.update(i as int, (key@, value@))));
                self.entries = entries;
                assert(self@ =~= before.update(i as int, (key@, value@)));
                Some(old_v.1)
            },
            None => {
                let ghost before = self@;
                let mut entries: Vec<(String, Installed)> = Vec::new();
                std::mem::swap(&mut entries, &mut self.entries);
                entries.push((key, value));
                assert(entries@.map_values(|p: (String, Installed)| (p.0@, p.1@)) =~= before.push((key@, value@)));
                assert(keys_unique(before.push((key@, value@))));
                self.entries = entries;
                assert(self@ =~= before.push((key@, value@)));
                None
            },
        }
    }

    /// Remove the record under `key`, returning it.
    pub fn remove(&mut self, key: &str) -> (r: Option<Installed>)
        ensures
            match spec_key_index(old(self)@, key@) {
                Some(i) => final(self)@ == old(self)@.remove(i) && (r matches Some(o) && o@ == old(self)@[i].1),
                None => final(self)@ == old(self)@ && r is None,
            },
            keys_unique(old(self)@),
            keys_unique(final(self)@),
    {
        proof { use_type_invariant(&*self); }
        let k = chars_of(key);
        match self.index_of(&k) {
            Some(i) => {
                proof {
                    let j = choose|j: int| 0 <= j < self@.len() && self@[j].0 == key@;
                    assert(i == j);
                }
                let ghost before = self@;
                let mut entries: Vec<(String, Installed)> = Vec::new();
                std::mem::swap(&mut entries, &mut self.entries);
                let old_v = entries.remove(i);
                assert(entries@.map_values(|p: (String, Installed)| (p.0@, p.1@)) =~= before.remove(i as int));
                assert(keys_unique(before.remove(i as int))) by {
                    let n = before.remove(i as int);
                    assert forall|a: int, b: int| 0 <= a < b < n.len() implies n[a].0 != n[b].0 by {
                        let a2 = if a < i { a } else { a + 1 };
                        let b2 = if b < i { b } else { b + 1 };
                        assert(n[a] == before[a2] && n[b] == before[b2]);
                    }
                }
                self.entries = entries;
                assert(self@ =~= before.remove(i as int));
                Some(old_v.1)
            },
            None => None,
        }
    }

    /// A copy of the map.
    pub fn duplicate(&self) -> (r: Self)
        ensures
            r@ == self@,
    {
        proof { use_type_invariant(self); }
        let mut entries: Vec<(String, Installed)> = Vec::new();
        let mut i: usize = 0;
        while i < self.entries.len()
            invariant
                i <= self.entries.len(),
                entries@.map_values(|p: (String, Installed)| (p.0@, p.1@)) == self@.take(i as int),
            decreases self.entries.len() - i,
        {
            let (k, v) = &self.entries[i];
            let ghost before = entries@.map_values(|p: (String, Installed)| (p.0@, p.1@));
            let fol = clone_folders(&v.folders);
            let rec = Installed {
                source: v.source.clone(),
                source_id: v.source_id.clone(),
                version: v.version.clone(),
                folders: fol,
                installed_at: v.installed_at,
            };
            entries.push((k.clone(), rec));
            assert(entries@.map_values(|p: (String, Installed)| (p.0@, p.1@)) =~= before.push((k@, rec@)));
            assert(self@[i as int] == (k@, v@));
            assert(self@.take(i + 1) =~= self@.take(i as int).push(self@[i as int]));
            i = i + 1;
        }
        assert(self@.take(self@.len() as int) =~= self@);
        InstalledMap { entries }
    }

    /// The (key, record) pairs in order.
    pub fn entries(&self) -> (r: &Vec<(String, Installed)>)
        ensures
            r@.map_values(|p: (String, Installed)| (p.0@, p.1@)) == self@,
    {
        &self.entries
    }
}

fn clone_folders(v: &Vec<String>) -> (r: Vec<String>)
    ensures
        strs(r@) == strs(v@),
{
    let mut out: Vec<String> = Vec::new();
    let mut i: usize = 0;
    while i < v.len()
        invariant
            i <= v.len(),
            strs(out@) == strs(v@.take(i as int)),
        decreases v.len() - i,
    {
        let ghost prev = strs(out@);
        let x = v[i].clone();
        out.push(x);
        assert(strs(out@) =~= prev.push(x@));
        assert(strs(v@.take(i + 1)) =~= strs(v@.take(i as int)).push(v@[i as int]@));
        i = i + 1;
    }
    assert(v@.take(v.len() as int) =~= v@);
    out
}

impl Clone for InstalledMap {
    fn clone(&self) -> (r: Self)
        ensures
            r@ == self@,
    {
        self.duplicate()
    }
}

/// Persistent settings.
#[derive(Clone, Debug)]
pub struct AppState {
    /// Product folder we manage.
    pub install_path: Option<String>,
    /// Optional user-supplied Wago Addons API key (stored locally only).
    pub wago_key: Option<String>,
    /// Packages we installed ourselves, keyed by package key.
    pub installed: InstalledMap,
    /// Consider GitHub pre-releases and Wago beta builds when checking.
    pub allow_prerelease: bool,
    /// Package keys whose updates are held back.
    pub pinned: BTreeSet<String>,
    /// Package keys hidden from the Installed list.
    pub ignored: BTreeSet<String>,
    /// A self-update version the user chose to skip ("v0.2.0-b7").
    pub skip_self_update: Option<String>,
}

impl Default for AppState {
    fn default() -> (r: Self)
        ensures
            r.install_path is None,
            r.wago_key is None,
            r.installed@.len() == 0,
            !r.allow_prerelease,
            r.skip_self_update is None,
    {
        AppState {
            install_path: None,
            wago_key: None,
            installed: InstalledMap::new(),
            allow_prerelease: false,
            pinned: BTreeSet::new(),
            ignored: BTreeSet::new(),
            skip_self_update: None,
        }
    }
}

/// A Wago key counts when it has something besides whitespace.
pub open spec fn spec_has_key(k: Option<Seq<char>>) -> bool {
    match k {
        Some(s) => trim(s).len() > 0,
        None => false,
    }
}

/// The key kept from what the user typed: trimmed, `None` when empty.
pub open spec fn spec_normalized_key(input: Seq<char>) -> Option<Seq<char>> {
    if trim(input).len() == 0 { None } else { Some(trim(input)) }
}

impl AppState {
    /// Is a usable Wago key set?
    pub fn has_wago_key(&self) -> (r: bool)
        ensures
            r == spec_has_key(ostr(self.wago_key)),
    {
        match &self.wago_key {
            Some(k) => {
                let c = chars_of(k.as_str());
                let t = trim_exec(&c);
                t.len() > 0
            },
            None => false,
        }
    }

    /// Store the key the user typed (trimmed; empty clears it). Returns whether a key is set.
    pub fn set_wago_key(&mut self, key: &str) -> (r: bool)
        ensures
            ostr(final(self).wago_key) == spec_normalized_key(key@),
            final(self).install_path == old(self).install_path,
            final(self).installed@ == old(self).installed@,
            r == (final(self).wago_key is Some),
    {
        let c = chars_of(key);
        let t = trim_exec(&c);
        if t.len() == 0 {
            self.wago_key = None;
        } else {
            self.wago_key = Some(string_of(&t));
        }
        self.wago_key.is_some()
    }
}

/// Seconds since the Unix epoch as the system clock reports it; `None`
/// when the clock is set before the epoch.
#[verifier::external_body]
fn system_secs_since_epoch() -> Option<u64> {
    std::time::SystemTime::now().duration_since(std::time::UNIX_EPOCH).ok().map(|d| d.as_secs())
}

/// The clock's reading in seconds since the Unix epoch, `s`, with 0 for a
/// clock set before the epoch (`None`).
pub fn secs_or_zero(s: Option<u64>) -> (r: u64)
    ensures
        r == match s {
            Some(x) => x,
            None => 0u64,
        },
{
    match s {
        Some(x) => x,
        None => 0,
    }
}

/// Seconds since the Unix epoch (0 if the clock is before it): the system
/// clock's reading passed through [`secs_or_zero`]. What the clock reads is
/// not stated; the function cannot fail.
pub fn now_secs() -> u64 {
    secs_or_zero(system_secs_since_epoch())
}


// ------------------------------------------------------------------ laws of the installed map

/// The entries after `insert(k, v)`.
pub open spec fn after_insert(m: Seq<(Seq<char>, InstalledSpec)>, k: Seq<char>, v: InstalledSpec) -> Seq<(Seq<char>, InstalledSpec)> {
    match spec_key_index(m, k) {
        Some(i) => m.update(i, (k, v)),
        None => m.push((k, v)),
    }
}

/// The entries after `remove(k)`.
pub open spec fn after_remove(m: Seq<(Seq<char>, InstalledSpec)>, k: Seq<char>) -> Seq<(Seq<char>, InstalledSpec)> {
    match spec_key_index(m, k) {
        Some(i) => m.remove(i),
        None => m,
    }
}

/// Reading a key after writing it gives the record written; every other
/// key reads as before; and keys stay unique.
pub proof fn law_get_after_insert(m: Seq<(Seq<char>, InstalledSpec)>, k: Seq<char>, v: InstalledSpec, other: Seq<char>)
    requires
        keys_unique(m),
    ensures
        spec_lookup(after_insert(m, k, v), k) == Some(v),
        other != k ==> spec_lookup(after_insert(m, k, v), other) == spec_lookup(m, other),
        keys_unique(after_insert(m, k, v)),
{
    let n = after_insert(m, k, v);
    match spec_key_index(m, k) {
        Some(i) => {
            assert(n[i].0 == k);
            let j = choose|j: int| 0 <= j < n.len() && n[j].0 == k;
            assert(j == i);
            if other != k {
                if exists|a: int| 0 <= a < m.len() && m[a].0 == other {
                    let a = choose|a: int| 0 <= a < m.len() && m[a].0 == other;
                    assert(n[a].0 == other);
                    let b = choose|b: int| 0 <= b < n.len() && n[b].0 == other;
                    assert(b == a);
                } else {
                    assert forall|b: int| 0 <= b < n.len() implies n[b].0 != other by {
                        if b != i {
                            assert(n[b] == m[b]);
                        }
                    }
                }
            }
        },
        None => {
            assert(n[m.len() as int].0 == k);
            let j = choose|j: int| 0 <= j < n.len() && n[j].0 == k;
            assert(j == m.len());
            if other != k {
                if exists|a: int| 0 <= a < m.len() && m[a].0 == other {
                    let a = choose|a: int| 0 <= a < m.len() && m[a].0 == other;
                    assert(n[a].0 == other);
                    let b = choose|b: int| 0 <= b < n.len() && n[b].0 == other;
                    assert(b == a);
                } else {
                    assert forall|b: int| 0 <= b < n.len() implies n[b].0 != other by {
                        if b < m.len() {
                            assert(n[b] == m[b]);
                        }
                    }
                }
            }
        },
    }
}

/// After removing a key nothing is found under it; every other key reads
/// as before; and keys stay unique.
pub proof fn law_get_after_remove(m: Seq<(Seq<char>, InstalledSpec)>, k: Seq<char>, other: Seq<char>)
    requires
        keys_unique(m),
    ensures
        spec_lookup(after_remove(m, k), k) is None,
        other != k ==> spec_lookup(after_remove(m, k), other) == spec_lookup(m, other),
        keys_unique(after_remove(m, k)),
{
    let n = after_remove(m, k);
    match spec_key_index(m, k) {
        Some(i) => {
            assert forall|a: int, b: int| 0 <= a < b < n.len() implies n[a].0 != n[b].0 by {
                let a2 = if a < i { a } else { a + 1 };
                let b2 = if b < i { b } else { b + 1 };
                assert(n[a] == m[a2] && n[b] == m[b2]);
            }
            assert forall|b: int| 0 <= b < n.len() implies n[b].0 != k by {
                let b2 = if b < i { b } else { b + 1 };
                assert(n[b] == m[b2]);
            }
            if other != k {
                if exists|a: int| 0 <= a < m.len() && m[a].0 == other {
                    let a = choose|a: int| 0 <= a < m.len() && m[a].0 == other;
                    assert(a != i);
                    let a3 = if a < i { a } else { a - 1 };
                    assert(n[a3] == m[a]);
                    let b = choose|b: int| 0 <= b < n.len() && n[b].0 == other;
                    let b2 = if b < i { b } else { b + 1 };
                    assert(n[b] == m[b2]);
                    assert(b2 == a);
                } else {
                    assert forall|b: int| 0 <= b < n.len() implies n[b].0 != other by {
                        let b2 = if b < i { b } else { b + 1 };
                        assert(n[b] == m[b2]);
                    }
                }
            }
        },
        None => {},
    }
}

} // verus!
