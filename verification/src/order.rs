//! Lexicographic order on texts and a stable sort by text keys.
use vstd::prelude::*;

verus! {

/// `a < b` as `String`'s `Ord` compares them (character by character).
pub open spec fn lex_lt(a: Seq<char>, b: Seq<char>) -> bool
    decreases a.len(),
{
    if a.len() == 0 {
        b.len() > 0
    } else if b.len() == 0 {
        false
    } else if a[0] < b[0] {
        true
    } else if a[0] > b[0] {
        false
    } else {
        lex_lt(a.drop_first(), b.drop_first())
    }
}

pub open spec fn lex_le(a: Seq<char>, b: Seq<char>) -> bool {
    !lex_lt(b, a)
}

pub proof fn lemma_lex_irrefl(a: Seq<char>)
    ensures
        !lex_lt(a, a),
    decreases a.len(),
{
    if a.len() > 0 {
        lemma_lex_irrefl(a.drop_first());
    }
}

pub proof fn lemma_lex_trans(a: Seq<char>, b: Seq<char>, c: Seq<char>)
    requires
        lex_lt(a, b),
        lex_lt(b, c),
    ensures
        lex_lt(a, c),
    decreases a.len(),
{
    if a.len() > 0 && b.len() > 0 && c.len() > 0 && a[0] == b[0] && b[0] == c[0] {
        lemma_lex_trans(a.drop_first(), b.drop_first(), c.drop_first());
    }
}

pub proof fn lemma_lex_total(a: Seq<char>, b: Seq<char>)
    ensures
        a == b || lex_lt(a, b) || lex_lt(b, a),
    decreases a.len(),
{
    if a.len() > 0 && b.len() > 0 {
        if a[0] == b[0] {
            lemma_lex_total(a.drop_first(), b.drop_first());
            if a.drop_first() == b.drop_first() {
                assert(a =~= seq![a[0]] + a.drop_first());
                assert(b =~= seq![b[0]] + b.drop_first());
            }
        }
    } else if a.len() == 0 && b.len() == 0 {
        assert(a =~= b);
    }
}

pub proof fn lemma_lex_asym(a: Seq<char>, b: Seq<char>)
    requires
        lex_lt(a, b),
    ensures
        !lex_lt(b, a),
{
    if lex_lt(b, a) {
        lemma_lex_trans(a, b, a);
        lemma_lex_irrefl(a);
    }
}

/// `a < b`.
pub fn lex_lt_exec(a: &[char], b: &[char]) -> (r: bool)
    ensures
        r == lex_lt(a@, b@),
{
    let mut i: usize = 0;
    assert(a@.skip(0) =~= a@);
    assert(b@.skip(0) =~= b@);
    while i < a.len() && i < b.len() && a[i] == b[i]
        invariant
            i <= a.len(),
            i <= b.len(),
            lex_lt(a@, b@) == lex_lt(a@.skip(i as int), b@.skip(i as int)),
        decreases a.len() - i,
    {
        assert(a@.skip(i as int).drop_first() =~= a@.skip(i + 1));
        assert(b@.skip(i as int).drop_first() =~= b@.skip(i + 1));
        i = i + 1;
    }
    if i == a.len() {
        i < b.len()
    } else if i == b.len() {
        false
    } else {
        a[i] < b[i]
    }
}

/// `idx` lists each of `0..n` exactly once.
pub open spec fn is_perm(idx: Seq<usize>, n: nat) -> bool {
    &&& idx.len() == n
    &&& forall|i: int| 0 <= i < idx.len() ==> idx[i] < n
    &&& forall|i: int, j: int| 0 <= i < j < idx.len() ==> idx[i] != idx[j]
}

/// `idx` orders `keys` ascending, keeping the original order of equal keys.
pub open spec fn stably_sorted(keys: Seq<Seq<char>>, idx: Seq<usize>) -> bool {
    &&& forall|i: int, j: int| 0 <= i < j < idx.len() ==> lex_le(keys[idx[i] as int], keys[idx[j] as int])
    &&& forall|i: int, j: int|
        0 <= i < j < idx.len() && keys[idx[i] as int] == keys[idx[j] as int] ==> idx[i] < idx[j]
}

/// The order that sorts `keys` stably (as `sort_by` on the keys does).
pub fn stable_order(keys: &Vec<Vec<char>>) -> (r: Vec<usize>)
    ensures
        is_perm(r@, keys@.len()),
        stably_sorted(keys@.map_values(|k: Vec<char>| k@), r@),
{
    let ghost ks = keys@.map_values(|k: Vec<char>| k@);
    let mut idx: Vec<usize> = Vec::new();
    let mut i: usize = 0;
    while i < keys.len()
        invariant
            i <= keys.len(),
            ks == keys@.map_values(|k: Vec<char>| k@),
            is_perm(idx@, i as nat),
            stably_sorted(ks, idx@),
        decreases keys.len() - i,
    {
        let ki = &keys[i];
        assert(ks[i as int] == ki@);
        let mut p: usize = 0;
        while p < idx.len() && !lex_lt_exec(ki, &keys[idx[p]])
            invariant
                p <= idx.len(),
                is_perm(idx@, i as nat),
                i < keys.len(),
                ks == keys@.map_values(|k: Vec<char>| k@),
                ki@ == ks[i as int],
                forall|q: int| 0 <= q < p ==> !lex_lt(ks[i as int], ks[idx@[q] as int]),
            decreases idx.len() - p,
        {
            assert(keys@[idx@[p as int] as int]@ == ks[idx@[p as int] as int]);
            p = p + 1;
        }
        proof {
            if p < idx.len() {
                assert(keys@[idx@[p as int] as int]@ == ks[idx@[p as int] as int]);
            }
        }
        let ghost old_idx = idx@;
        proof {
            if p < old_idx.len() {
                assert(lex_lt(ks[i as int], ks[old_idx[p as int] as int]));
                assert forall|q: int| p <= q < old_idx.len() implies lex_lt(ks[i as int], ks[old_idx[q] as int]) by {
                    if q > p {
                        let a = ks[old_idx[p as int] as int];
                        let b = ks[old_idx[q] as int];
                        lemma_lex_total(a, b);
                        if a != b {
                            if lex_lt(b, a) {
                                assert(lex_le(a, b));
                            } else {
                                lemma_lex_trans(ks[i as int], a, b);
                            }
                        }
                    }
                }
            }
        }
        idx.insert(p, i);
        proof {
            let n = idx@;
            assert(n =~= old_idx.take(p as int).push(i) + old_idx.skip(p as int));
            assert forall|a: int| 0 <= a < n.len() implies n[a] < i + 1 by {
                if a < p { assert(n[a] == old_idx[a]); }
                else if a > p { assert(n[a] == old_idx[a - 1]); }
            }
            assert forall|a: int, b: int| 0 <= a < b < n.len() implies n[a] != n[b] by {
                if a < p && b < p { assert(n[a] == old_idx[a] && n[b] == old_idx[b]); }
                else if a < p && b == p { assert(n[a] == old_idx[a]); }
                else if a < p && b > p { assert(n[a] == old_idx[a] && n[b] == old_idx[b - 1]); }
                else if a == p { assert(n[b] == old_idx[b - 1]); }
                else { assert(n[a] == old_idx[a - 1] && n[b] == old_idx[b - 1]); }
            }
            assert forall|a: int, b: int| 0 <= a < b < n.len() implies lex_le(ks[n[a] as int], ks[n[b] as int]) by {
                if a < p && b < p { assert(n[a] == old_idx[a] && n[b] == old_idx[b]); }
                else if a < p && b == p { assert(n[a] == old_idx[a]); }
                else if a < p && b > p {
                    assert(n[a] == old_idx[a] && n[b] == old_idx[b - 1]);
                }
                else if a == p {
                    assert(n[b] == old_idx[b - 1]);
                    lemma_lex_asym(ks[i as int], ks[old_idx[b - 1] as int]);
                }
                else { assert(n[a] == old_idx[a - 1] && n[b] == old_idx[b - 1]); }
            }
            assert forall|a: int, b: int|
                0 <= a < b < n.len() && ks[n[a] as int] == ks[n[b] as int] implies n[a] < n[b] by {
                if a < p && b < p { assert(n[a] == old_idx[a] && n[b] == old_idx[b]); }
                else if a < p && b == p { assert(n[a] == old_idx[a]); }
                else if a < p && b > p { assert(n[a] == old_idx[a] && n[b] == old_idx[b - 1]); }
                else if a == p {
                    assert(n[b] == old_idx[b - 1]);
                    lemma_lex_irrefl(ks[i as int]);
                }
                else { assert(n[a] == old_idx[a - 1] && n[b] == old_idx[b - 1]); }
            }
        }
        i = i + 1;
    }
    idx
}

} // verus!
