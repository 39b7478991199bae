//! The moves that put a release's addon folders into `Interface\AddOns`.
//! Existing folders are moved aside first and restored if anything fails:
//! each call says which move comes next, given what has been done, and the
//! program performs it and calls again.
use vstd::prelude::*;
use crate::install::{bad_name, first_refused_name};

verus! {

/// One move of an install, by position in the list of folder names.
#[derive(Clone, Copy, Debug, PartialEq, Eq, Structural)]
pub enum PlaceStep {
    /// Rename the existing folder of that name into the backup directory.
    MoveAside(usize),
    /// Rename the extracted folder into `AddOns` under that name.
    Install(usize),
    /// Undo: remove the folder of that name from `AddOns`, then rename its
    /// backup (if one was made) back.
    Restore(usize),
    /// That name is refused: nothing is moved, the install fails.
    Refuse(usize),
    /// Every folder is installed.
    Finish,
    /// A move failed and everything touched has been restored: the install fails.
    Abort,
}

/// The folder a move is about (0 for `Finish` and `Abort`).
pub open spec fn folder(s: PlaceStep) -> int {
    match s {
        PlaceStep::MoveAside(k) => k as int,
        PlaceStep::Install(k) => k as int,
        PlaceStep::Restore(k) => k as int,
        PlaceStep::Refuse(k) => k as int,
        _ => 0,
    }
}

/// Does a folder of the `k`th name already exist in `AddOns`?
pub open spec fn target_exists(exists: Seq<bool>, k: int) -> bool {
    0 <= k < exists.len() && exists[k]
}

/// The forward moves for the first `k` names: for each, in order, move the
/// existing folder aside (when there is one), then install.
pub open spec fn forward_steps(exists: Seq<bool>, k: int) -> Seq<PlaceStep>
    decreases k,
{
    if k <= 0 {
        seq![]
    } else {
        let before = forward_steps(exists, k - 1);
        let i = (k - 1) as usize;
        if target_exists(exists, k - 1) {
            before + seq![PlaceStep::MoveAside(i), PlaceStep::Install(i)]
        } else {
            before + seq![PlaceStep::Install(i)]
        }
    }
}

/// How many names were touched by forward moves that ended in a failed
/// move `f.last()`: up to and including an install that failed (its
/// folder may hold a half-made target), but not a folder whose move aside
/// failed.
pub open spec fn touched_count(f: Seq<PlaceStep>) -> int {
    if f.len() == 0 {
        0
    } else {
        match f.last() {
            PlaceStep::Install(k) => k + 1,
            PlaceStep::MoveAside(k) => k as int,
            _ => 0,
        }
    }
}

/// Restores of the first `t` names, last touched first.
pub open spec fn rollback(t: int) -> Seq<PlaceStep> {
    Seq::new(if t > 0 { t as nat } else { 0 }, |i: int| PlaceStep::Restore((t - 1 - i) as usize))
}

/// How many restores a history holds.
pub open spec fn restores(d: Seq<PlaceStep>) -> nat
    decreases d.len(),
{
    if d.len() == 0 {
        0
    } else {
        restores(d.drop_last()) + if d.last() is Restore { 1nat } else { 0nat }
    }
}

/// Position of the first refused name, if any.
pub open spec fn first_bad(names: Seq<Seq<char>>) -> Option<int> {
    if exists|i: int| 0 <= i < names.len() && bad_name(#[trigger] names[i], false) {
        Some(choose|i: int| 0 <= i < names.len() && bad_name(#[trigger] names[i], false)
            && forall|j: int| 0 <= j < i ==> !bad_name(#[trigger] names[j], false))
    } else {
        None
    }
}

/// The next move of an install of `names` (`exists` saying which are already
/// in `AddOns`), given the moves `done` so far and whether the last forward
/// move failed. A refused name stops everything before any move. Otherwise
/// the forward moves run in order; after a failure every touched folder is
/// restored, last touched first, and the install ends in `Abort`.
pub open spec fn spec_place_next(names: Seq<Seq<char>>, exists: Seq<bool>, done: Seq<PlaceStep>, failed: bool) -> PlaceStep {
    match first_bad(names) {
        Some(k) => PlaceStep::Refuse(k as usize),
        None => {
            let plan = forward_steps(exists, names.len() as int);
            let r = restores(done) as int;
            let m = done.len() - r;
            if !failed {
                if m < plan.len() { plan[m] } else { PlaceStep::Finish }
            } else {
                let f = if m <= plan.len() { plan.take(m) } else { plan };
                let rb = rollback(touched_count(f));
                if r < rb.len() { rb[r] } else { PlaceStep::Abort }
            }
        },
    }
}

/// Facts about the forward moves: each is a move aside or an install of
/// one of the first `k` names, folders never go back, and a move aside is
/// the first move of its folder.
proof fn lemma_forward_steps(exists: Seq<bool>, k: int)
    requires
        0 <= k <= usize::MAX,
    ensures
        forall|j: int| 0 <= j < forward_steps(exists, k).len() ==>
            ((#[trigger] forward_steps(exists, k)[j]) is MoveAside || forward_steps(exists, k)[j] is Install)
            && 0 <= folder(forward_steps(exists, k)[j]) < k,
        forall|a: int, b: int| 0 <= a < b < forward_steps(exists, k).len() ==>
            folder(#[trigger] forward_steps(exists, k)[a]) <= folder(#[trigger] forward_steps(exists, k)[b])
            && (forward_steps(exists, k)[b] is MoveAside ==> folder(forward_steps(exists, k)[a]) < folder(forward_steps(exists, k)[b])),
        forward_steps(exists, k).len() <= 2 * k,
    decreases k,
{
    if k > 0 {
        lemma_forward_steps(exists, k - 1);
        let before = forward_steps(exists, k - 1);
        let s = forward_steps(exists, k);
        assert forall|j: int| 0 <= j < s.len() implies
            ((#[trigger] s[j]) is MoveAside || s[j] is Install) && 0 <= folder(s[j]) < k by {
            if j < before.len() {
                assert(s[j] == before[j]);
            }
        }
        let i = (k - 1) as usize;
        let chunk = if target_exists(exists, k - 1) {
            seq![PlaceStep::MoveAside(i), PlaceStep::Install(i)]
        } else {
            seq![PlaceStep::Install(i)]
        };
        assert(s == before + chunk);
        assert forall|a: int, b: int| 0 <= a < b < s.len() implies
            folder(#[trigger] s[a]) <= folder(#[trigger] s[b])
            && (s[b] is MoveAside ==> folder(s[a]) < folder(s[b])) by {
            if b < before.len() {
                assert(s[a] == before[a] && s[b] == before[b]);
            } else if a < before.len() {
                assert(s[a] == before[a]);
                assert(s[b] == chunk[b - before.len()]);
                assert(folder(s[b]) == k - 1);
            } else {
                assert(s[a] == chunk[a - before.len()]);
                assert(s[b] == chunk[b - before.len()]);
                assert(a - before.len() == 0 && b - before.len() == 1);
            }
        }
    }
}

proof fn lemma_restores_plan(p: Seq<PlaceStep>)
    requires
        forall|j: int| 0 <= j < p.len() ==> !((#[trigger] p[j]) is Restore),
    ensures
        restores(p) == 0,
    decreases p.len(),
{
    if p.len() > 0 {
        lemma_restores_plan(p.drop_last());
    }
}

proof fn lemma_restores_append(p: Seq<PlaceStep>, q: Seq<PlaceStep>)
    requires
        forall|j: int| 0 <= j < q.len() ==> (#[trigger] q[j]) is Restore,
    ensures
        restores(p + q) == restores(p) + q.len(),
    decreases q.len(),
{
    if q.len() > 0 {
        assert((p + q).drop_last() =~= p + q.drop_last());
        lemma_restores_append(p, q.drop_last());
    } else {
        assert(p + q =~= p);
    }
}

fn build_plan(n: usize, exists: &Vec<bool>) -> (r: Vec<PlaceStep>)
    ensures
        r@ == forward_steps(exists@, n as int),
{
    let mut r: Vec<PlaceStep> = Vec::new();
    let mut k: usize = 0;
    while k < n
        invariant
            k <= n,
            r@ == forward_steps(exists@, k as int),
        decreases n - k,
    {
        let ghost before = r@;
        if k < exists.len() && exists[k] {
            r.push(PlaceStep::MoveAside(k));
            r.push(PlaceStep::Install(k));
            assert(r@ =~= before + seq![PlaceStep::MoveAside(k), PlaceStep::Install(k)]);
        } else {
            r.push(PlaceStep::Install(k));
            assert(r@ =~= before + seq![PlaceStep::Install(k)]);
        }
        k = k + 1;
    }
    r
}

fn count_restores(done: &Vec<PlaceStep>) -> (r: usize)
    ensures
        r == restores(done@),
        r <= done@.len(),
{
    let mut c: usize = 0;
    let mut i: usize = 0;
    while i < done.len()
        invariant
            i <= done.len(),
            c == restores(done@.take(i as int)),
            c <= i,
        decreases done.len() - i,
    {
        assert(done@.take(i + 1).drop_last() =~= done@.take(i as int));
        if let PlaceStep::Restore(_) = done[i] {
            c = c + 1;
        }
        i = i + 1;
    }
    assert(done@.take(done.len() as int) =~= done@);
    c
}

/// The next move of an install: see [`spec_place_next`].
pub fn place_next(names: &Vec<String>, exists: &Vec<bool>, done: &Vec<PlaceStep>, failed: bool) -> (r: PlaceStep)
    ensures
        r == spec_place_next(names@.map_values(|s: String| s@), exists@, done@, failed),
{
    let ghost nv = names@.map_values(|s: String| s@);
    match first_refused_name(names, false) {
        Err((k, _)) => {
            proof {
                assert(nv[k as int] == names@[k as int]@);
                assert(bad_name(nv[k as int], false));
                assert(forall|j: int| 0 <= j < k ==> !bad_name(#[trigger] nv[j], false)) by {
                    assert forall|j: int| 0 <= j < k implies !bad_name(#[trigger] nv[j], false) by {
                        assert(nv[j] == names@[j]@);
                    }
                }
                assert(exists|i: int| 0 <= i < nv.len() && bad_name(#[trigger] nv[i], false)
                    && forall|j: int| 0 <= j < i ==> !bad_name(#[trigger] nv[j], false));
                let c = choose|i: int| 0 <= i < nv.len() && bad_name(#[trigger] nv[i], false)
                    && forall|j: int| 0 <= j < i ==> !bad_name(#[trigger] nv[j], false);
                if c < k {
                    assert(nv[c] == names@[c]@);
                } else if c > k {
                    assert(!bad_name(nv[k as int], false));
                }
            }
            return PlaceStep::Refuse(k);
        },
        Ok(()) => {
            proof {
                assert forall|i: int| 0 <= i < nv.len() implies !bad_name(#[trigger] nv[i], false) by {
                    assert(nv[i] == names@[i]@);
                }
            }
        },
    }
    let plan = build_plan(names.len(), exists);
    proof { lemma_forward_steps(exists@, names.len() as int); }
    let r = count_restores(done);
    let m = done.len() - r;
    if !failed {
        if m < plan.len() {
            plan[m]
        } else {
            PlaceStep::Finish
        }
    } else {
        let f_len = if m <= plan.len() { m } else { plan.len() };
        let ghost f = if m <= plan.len() { plan@.take(m as int) } else { plan@ };
        assert(f.len() == f_len);
        let t: usize = if f_len == 0 {
            0
        } else {
            assert(f.last() == plan@[f_len - 1]);
            match plan[f_len - 1] {
                PlaceStep::Install(k) => k + 1,
                PlaceStep::MoveAside(k) => k,
                _ => 0,
            }
        };
        assert(t as int == touched_count(f));
        if r < t {
            PlaceStep::Restore(t - 1 - r)
        } else {
            PlaceStep::Abort
        }
    }
}

/// A refused folder name stops an install before anything is moved: the
/// first move, and every later one, is `Refuse` of the first refused name.
pub proof fn law_refused_name_moves_nothing(names: Seq<Seq<char>>, exists: Seq<bool>, done: Seq<PlaceStep>, failed: bool, i: int)
    requires
        names.len() <= usize::MAX,
        0 <= i < names.len(),
        bad_name(names[i], false),
    ensures
        spec_place_next(names, exists, done, failed) matches PlaceStep::Refuse(k)
            && k <= i && bad_name(names[k as int], false)
            && forall|j: int| 0 <= j < k ==> !bad_name(#[trigger] names[j], false),
{
    let k = choose|c: int| 0 <= c < names.len() && bad_name(#[trigger] names[c], false)
        && forall|j: int| 0 <= j < c ==> !bad_name(#[trigger] names[j], false);
    assert(exists|c: int| 0 <= c < names.len() && bad_name(#[trigger] names[c], false)
        && forall|j: int| 0 <= j < c ==> !bad_name(#[trigger] names[j], false)) by {
        lemma_first_bad_exists(names, i);
    }
    if k > i {
        assert(!bad_name(names[i], false));
    }
}

proof fn lemma_first_bad_exists(names: Seq<Seq<char>>, i: int)
    requires
        0 <= i < names.len(),
        bad_name(names[i], false),
    ensures
        exists|c: int| 0 <= c < names.len() && bad_name(#[trigger] names[c], false)
            && forall|j: int| 0 <= j < c ==> !bad_name(#[trigger] names[j], false),
    decreases i,
{
    if exists|j: int| 0 <= j < i && bad_name(#[trigger] names[j], false) {
        let j = choose|j: int| 0 <= j < i && bad_name(#[trigger] names[j], false);
        lemma_first_bad_exists(names, j);
    } else {
        assert(bad_name(names[i], false) && forall|j: int| 0 <= j < i ==> !bad_name(#[trigger] names[j], false));
    }
}

/// When a forward move fails (the `m`th, with the earlier ones done), the
/// install restores every folder it moved aside or installed, last touched
/// first, one `Restore` per call, and then ends in `Abort`.
pub proof fn law_failure_restores_in_reverse(names: Seq<Seq<char>>, exists: Seq<bool>, m: int, i: int)
    requires
        names.len() <= usize::MAX,
        first_bad(names) is None,
        1 <= m <= forward_steps(exists, names.len() as int).len(),
        0 <= i,
    ensures
        ({
            let plan = forward_steps(exists, names.len() as int);
            let rb = rollback(touched_count(plan.take(m)));
            &&& i < rb.len() ==> spec_place_next(names, exists, plan.take(m) + rb.take(i), true) == rb[i]
            &&& i == rb.len() ==> spec_place_next(names, exists, plan.take(m) + rb.take(i), true) == PlaceStep::Abort
            &&& forall|j: int| 0 <= j < m - 1 ==> (#[trigger] plan[j] is MoveAside ==> rb.contains(PlaceStep::Restore(folder(plan[j]) as usize)))
            &&& forall|j: int| 0 <= j < m ==> (#[trigger] plan[j] is Install ==> rb.contains(PlaceStep::Restore(folder(plan[j]) as usize)))
            &&& forall|a: int, b: int| 0 <= a < b < rb.len() ==> folder(#[trigger] rb[a]) > folder(#[trigger] rb[b])
        }),
{
    let n = names.len() as int;
    let plan = forward_steps(exists, n);
    lemma_forward_steps(exists, n);
    let f = plan.take(m);
    let t = touched_count(f);
    let rb = rollback(t);
    assert(f.last() == plan[m - 1]);
    assert(t >= 0);
    if i <= rb.len() {
        let d = f + rb.take(i);
        assert forall|j: int| 0 <= j < f.len() implies !((#[trigger] f[j]) is Restore) by {
            assert(f[j] == plan[j]);
        }
        lemma_restores_plan(f);
        assert forall|j: int| 0 <= j < rb.take(i).len() implies (#[trigger] rb.take(i)[j]) is Restore by {
            assert(rb.take(i)[j] == rb[j]);
        }
        lemma_restores_append(f, rb.take(i));
        assert(restores(d) == i);
        assert(d.len() - i == m);
    }
    assert forall|j: int| 0 <= j < m - 1 && #[trigger] plan[j] is MoveAside implies rb.contains(PlaceStep::Restore(folder(plan[j]) as usize)) by {
        {
            let k = folder(plan[j]);
            assert(folder(plan[j]) <= folder(plan[m - 1]));
            if plan[m - 1] is MoveAside {
                assert(k < folder(plan[m - 1]));
            }
            assert(0 <= k < t);
            assert(rb[t - 1 - k] == PlaceStep::Restore(k as usize));
        }
    }
    assert forall|j: int| 0 <= j < m && #[trigger] plan[j] is Install implies rb.contains(PlaceStep::Restore(folder(plan[j]) as usize)) by {
        {
            let k = folder(plan[j]);
            if j < m - 1 {
                assert(folder(plan[j]) <= folder(plan[m - 1]));
                if plan[m - 1] is MoveAside {
                    assert(k < folder(plan[m - 1]));
                }
            }
            assert(0 <= k < t);
            assert(rb[t - 1 - k] == PlaceStep::Restore(k as usize));
        }
    }
}

} // verus!
