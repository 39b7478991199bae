//! Required dependencies that are not installed, with the catalogue entry
//! that provides each one when the catalogue knows it.
use vstd::prelude::*;
use crate::catalog::{entry_views, CatalogEntry, EntrySpec};
use crate::packages::{disk_index, find_disk_index, find_last_by_folder, last_by_folder, lemma_last_by_folder};
use crate::text::{chars_eq, chars_of, lower, lower_exec};
use crate::wow::{addon_views, AddonFolder, AddonSpec};

verus! {

/// A dependency a TOC requires that no installed folder provides.
#[derive(Clone, Debug)]
pub struct MissingDep {
    /// The dependency as the TOC names it.
    pub name: String,
    /// The first folder that requires it.
    pub needed_by: String,
    /// The catalogue entry that installs a folder of that name, if any.
    pub catalog_id: Option<String>,
}

pub struct MissingSpec {
    pub name: Seq<char>,
    pub needed_by: Seq<char>,
    pub catalog_id: Option<Seq<char>>,
}

impl View for MissingDep {
    type V = MissingSpec;

    open spec fn view(&self) -> MissingSpec {
        MissingSpec {
            name: self.name@,
            needed_by: self.needed_by@,
            catalog_id: match self.catalog_id {
                Some(c) => Some(c@),
                None => None,
            },
        }
    }
}

pub open spec fn missing_views(v: Seq<MissingDep>) -> Seq<MissingSpec> {
    v.map_values(|m: MissingDep| m@)
}

/// Every `(dependency, folder)` pair, folder by folder, in TOC order.
pub open spec fn dep_pairs(fs: Seq<AddonSpec>) -> Seq<(Seq<char>, Seq<char>)>
    decreases fs.len(),
{
    if fs.len() == 0 {
        seq![]
    } else {
        dep_pairs(fs.drop_last()) + fs.last().dependencies.map_values(|d: Seq<char>| (d, fs.last().folder))
    }
}

/// A dependency of that name (ignoring ASCII case) is already listed.
pub open spec fn reported(acc: Seq<MissingSpec>, ln: Seq<char>) -> bool {
    exists|k: int| 0 <= k < acc.len() && lower(#[trigger] acc[k].name) == ln
}

/// The catalogue entry that installs a folder named `ln` (lower-cased).
pub open spec fn provider(ce: Seq<EntrySpec>, ln: Seq<char>) -> Option<Seq<char>> {
    match last_by_folder(ce, ln) {
        Some(e) => Some(ce[e].id),
        None => None,
    }
}

pub open spec fn missing_fold(ce: Seq<EntrySpec>, fs: Seq<AddonSpec>, ps: Seq<(Seq<char>, Seq<char>)>) -> Seq<MissingSpec>
    decreases ps.len(),
{
    if ps.len() == 0 {
        seq![]
    } else {
        let acc = missing_fold(ce, fs, ps.drop_last());
        let d = ps.last().0;
        let ln = lower(d);
        if disk_index(fs, ln) is None && !reported(acc, ln) {
            acc.push(MissingSpec { name: d, needed_by: ps.last().1, catalog_id: provider(ce, ln) })
        } else {
            acc
        }
    }
}

/// The dependencies missing from disk, each once (by name, ignoring ASCII
/// case), in the order they are first required.
pub open spec fn spec_missing_dependencies(ce: Seq<EntrySpec>, fs: Seq<AddonSpec>) -> Seq<MissingSpec> {
    missing_fold(ce, fs, dep_pairs(fs))
}

fn reported_exec(acc: &Vec<MissingDep>, ln: &Vec<char>) -> (r: bool)
    ensures
        r == reported(missing_views(acc@), ln@),
{
    let ghost mv = missing_views(acc@);
    let mut k: usize = 0;
    while k < acc.len()
        invariant
            k <= acc.len(),
            mv == missing_views(acc@),
            forall|q: int| 0 <= q < k ==> lower(#[trigger] mv[q].name) != ln@,
        decreases acc.len() - k,
    {
        let c = chars_of(acc[k].name.as_str());
        let l = lower_exec(&c);
        if chars_eq(&l, ln) {
            assert(lower(mv[k as int].name) == ln@);
            return true;
        }
        k = k + 1;
    }
    false
}

/// Dependencies that the installed addons require and nothing on disk
/// provides, with the catalogue entry to install each from when one lists
/// a folder of that name.
pub fn missing_dependencies(cat: &Vec<CatalogEntry>, folders: &[AddonFolder]) -> (r: Vec<MissingDep>)
    ensures
        missing_views(r@) == spec_missing_dependencies(entry_views(cat@), addon_views(folders@)),
{
    let ghost ce = entry_views(cat@);
    let ghost fs = addon_views(folders@);
    let mut out: Vec<MissingDep> = Vec::new();
    let mut i: usize = 0;
    while i < folders.len()
        invariant
            i <= folders.len(),
            ce == entry_views(cat@),
            fs == addon_views(folders@),
            missing_views(out@) == missing_fold(ce, fs, dep_pairs(fs.take(i as int))),
        decreases folders.len() - i,
    {
        let f = &folders[i];
        let ghost base = dep_pairs(fs.take(i as int));
        let ghost fv = fs[i as int];
        assert(fv == f@);
        let mut j: usize = 0;
        while j < f.dependencies.len()
            invariant
                j <= f.dependencies.len(),
                ce == entry_views(cat@),
                fs == addon_views(folders@),
                fv == f@,
                missing_views(out@) == missing_fold(ce, fs,
                    base + fv.dependencies.take(j as int).map_values(|d: Seq<char>| (d, fv.folder))),
            decreases f.dependencies.len() - j,
        {
            let ghost done = base + fv.dependencies.take(j as int).map_values(|d: Seq<char>| (d, fv.folder));
            let ghost next = base + fv.dependencies.take(j + 1).map_values(|d: Seq<char>| (d, fv.folder));
            assert(fv.dependencies[j as int] == f.dependencies@[j as int]@);
            assert(next.drop_last() =~= done);
            assert(next.last() == (fv.dependencies[j as int], fv.folder));
            let d = &f.dependencies[j];
            let dc = chars_of(d.as_str());
            let ln = lower_exec(&dc);
            let on_disk = find_disk_index(folders, &ln);
            if on_disk.is_none() && !reported_exec(&out, &ln) {
                let entry = find_last_by_folder(cat, &ln);
                proof { lemma_last_by_folder(ce, ln@); }
                let catalog_id = match entry {
                    Some(e) => Some(String::from_str(cat[e].id.as_str())),
                    None => None,
                };
                let m = MissingDep {
                    name: String::from_str(d.as_str()),
                    needed_by: String::from_str(f.folder.as_str()),
                    catalog_id,
                };
                let ghost before = missing_views(out@);
                out.push(m);
                assert(missing_views(out@) =~= before.push(m@));
            }
            assert(missing_views(out@) == missing_fold(ce, fs, next));
            j = j + 1;
        }
        assert(fv.dependencies.take(fv.dependencies.len() as int) =~= fv.dependencies);
        assert(fs.take(i + 1).drop_last() =~= fs.take(i as int));
        assert(fs.take(i + 1).last() == fv);
        i = i + 1;
    }
    assert(fs.take(folders.len() as int) =~= fs);
    out
}

// ------------------------------------------------------------------ laws

proof fn lemma_reported_grows(acc: Seq<MissingSpec>, x: MissingSpec, ln: Seq<char>)
    requires
        reported(acc, ln),
    ensures
        reported(acc.push(x), ln),
{
    let k = choose|k: int| 0 <= k < acc.len() && lower(#[trigger] acc[k].name) == ln;
    assert(acc.push(x)[k] == acc[k]);
}

proof fn lemma_fold_complete(ce: Seq<EntrySpec>, fs: Seq<AddonSpec>, ps: Seq<(Seq<char>, Seq<char>)>, p: int)
    requires
        0 <= p < ps.len(),
        disk_index(fs, lower(ps[p].0)) is None,
    ensures
        reported(missing_fold(ce, fs, ps), lower(ps[p].0)),
    decreases ps.len(),
{
    let acc = missing_fold(ce, fs, ps.drop_last());
    let ln = lower(ps.last().0);
    if p < ps.len() - 1 {
        assert(ps.drop_last()[p] == ps[p]);
        lemma_fold_complete(ce, fs, ps.drop_last(), p);
        if disk_index(fs, ln) is None && !reported(acc, ln) {
            lemma_reported_grows(acc, MissingSpec { name: ps.last().0, needed_by: ps.last().1, catalog_id: provider(ce, ln) }, lower(ps[p].0));
        }
    } else if !reported(acc, ln) {
        let n = acc.push(MissingSpec { name: ps.last().0, needed_by: ps.last().1, catalog_id: provider(ce, ln) });
        assert(n[acc.len() as int].name == ps.last().0);
    }
}

proof fn lemma_fold_sound(ce: Seq<EntrySpec>, fs: Seq<AddonSpec>, ps: Seq<(Seq<char>, Seq<char>)>)
    ensures
        forall|k: int| 0 <= k < missing_fold(ce, fs, ps).len() ==> {
            let m = #[trigger] missing_fold(ce, fs, ps)[k];
            &&& disk_index(fs, lower(m.name)) is None
            &&& ps.contains((m.name, m.needed_by))
            &&& m.catalog_id == provider(ce, lower(m.name))
        },
        forall|a: int, b: int| 0 <= a < b < missing_fold(ce, fs, ps).len()
            ==> lower(#[trigger] missing_fold(ce, fs, ps)[a].name) != lower(#[trigger] missing_fold(ce, fs, ps)[b].name),
    decreases ps.len(),
{
    if ps.len() > 0 {
        let d = ps.drop_last();
        lemma_fold_sound(ce, fs, d);
        let acc = missing_fold(ce, fs, d);
        let r = missing_fold(ce, fs, ps);
        assert forall|k: int| 0 <= k < r.len() implies {
            let m = #[trigger] r[k];
            &&& disk_index(fs, lower(m.name)) is None
            &&& ps.contains((m.name, m.needed_by))
            &&& m.catalog_id == provider(ce, lower(m.name))
        } by {
            if k < acc.len() {
                assert(r[k] == acc[k]);
                let q = choose|q: int| 0 <= q < d.len() && d[q] == (acc[k].name, acc[k].needed_by);
                assert(ps[q] == d[q]);
            } else {
                assert(ps[ps.len() - 1] == ps.last());
            }
        }
        assert forall|a: int, b: int| 0 <= a < b < r.len() implies lower(#[trigger] r[a].name) != lower(#[trigger] r[b].name) by {
            if b < acc.len() {
                assert(r[a] == acc[a] && r[b] == acc[b]);
            } else {
                assert(r[a] == acc[a]);
                if lower(r[a].name) == lower(r[b].name) {
                    assert(reported(acc, lower(ps.last().0)));
                }
            }
        }
    }
}

proof fn lemma_dep_pairs_has(fs: Seq<AddonSpec>, i: int, j: int)
    requires
        0 <= i < fs.len(),
        0 <= j < fs[i].dependencies.len(),
    ensures
        dep_pairs(fs).contains((fs[i].dependencies[j], fs[i].folder)),
    decreases fs.len(),
{
    let base = dep_pairs(fs.drop_last());
    let tail = fs.last().dependencies.map_values(|d: Seq<char>| (d, fs.last().folder));
    if i < fs.len() - 1 {
        assert(fs.drop_last()[i] == fs[i]);
        lemma_dep_pairs_has(fs.drop_last(), i, j);
        let q = choose|q: int| 0 <= q < base.len() && base[q] == (fs[i].dependencies[j], fs[i].folder);
        assert((base + tail)[q] == base[q]);
    } else {
        assert((base + tail)[base.len() + j] == tail[j]);
    }
}

/// Every dependency that some scanned folder requires and no scanned folder
/// provides is reported, under that name ignoring ASCII case.
pub proof fn law_missing_dependencies_complete(ce: Seq<EntrySpec>, fs: Seq<AddonSpec>, i: int, j: int)
    requires
        0 <= i < fs.len(),
        0 <= j < fs[i].dependencies.len(),
        disk_index(fs, lower(fs[i].dependencies[j])) is None,
    ensures
        reported(spec_missing_dependencies(ce, fs), lower(fs[i].dependencies[j])),
{
    lemma_dep_pairs_has(fs, i, j);
    let ps = dep_pairs(fs);
    let p = choose|p: int| 0 <= p < ps.len() && ps[p] == (fs[i].dependencies[j], fs[i].folder);
    lemma_fold_complete(ce, fs, ps, p);
}

/// Everything reported is really missing, is required by the folder named
/// with it, comes with the catalogue entry that provides it, and is
/// reported once.
pub proof fn law_missing_dependencies_sound(ce: Seq<EntrySpec>, fs: Seq<AddonSpec>)
    ensures
        forall|k: int| 0 <= k < spec_missing_dependencies(ce, fs).len() ==> {
            let m = #[trigger] spec_missing_dependencies(ce, fs)[k];
            &&& disk_index(fs, lower(m.name)) is None
            &&& dep_pairs(fs).contains((m.name, m.needed_by))
            &&& m.catalog_id == provider(ce, lower(m.name))
        },
        forall|a: int, b: int| 0 <= a < b < spec_missing_dependencies(ce, fs).len()
            ==> lower(#[trigger] spec_missing_dependencies(ce, fs)[a].name)
                != lower(#[trigger] spec_missing_dependencies(ce, fs)[b].name),
{
    lemma_fold_sound(ce, fs, dep_pairs(fs));
}

} // verus!
