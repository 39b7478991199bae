//! The addon list a user exports to a file and imports on another PC: one
//! line per package, `key<TAB>kind<TAB>id`, the kind and id being the
//! source as `state.json` stores it.
use vstd::prelude::*;
use crate::num::{decimal, u64_to_chars};
use crate::sources::{law_from_parts_roundtrip, spec_from_parts, spec_id, spec_kind, Source, SourceSpec};
use crate::text::{
    chars_of, first_in_from, lemma_first_in_from, lines, lines_exec, lines_from, push_all, split_char,
    split_char_exec, split_from, string_of, strip_cr, views,
};

verus! {

pub open spec fn entry_views(v: Seq<(String, Source)>) -> Seq<(Seq<char>, SourceSpec)> {
    v.map_values(|e: (String, Source)| (e.0@, e.1@))
}

/// One package's line, without its line break.
pub open spec fn entry_line(e: (Seq<char>, SourceSpec)) -> Seq<char> {
    e.0 + seq!['\t'] + spec_kind(e.1) + seq!['\t'] + spec_id(e.1)
}

/// The whole list: every package's line followed by a line break.
pub open spec fn spec_export(es: Seq<(Seq<char>, SourceSpec)>) -> Seq<char>
    decreases es.len(),
{
    if es.len() == 0 {
        seq![]
    } else {
        spec_export(es.drop_last()) + entry_line(es.last()) + seq!['\n']
    }
}

/// A package's line read back: three tab-separated fields naming a known
/// source kind and a valid id.
pub open spec fn parse_entry(line: Seq<char>) -> Option<(Seq<char>, SourceSpec)> {
    let p = split_char(line, '\t');
    if p.len() == 3 {
        match spec_from_parts(p[1], p[2]) {
            Some(s) => Some((p[0], s)),
            None => None,
        }
    } else {
        None
    }
}

pub open spec fn bad_line_message(n: nat) -> Seq<char> {
    "line "@ + decimal(n) + " of the list is not an addon entry"@
}

/// The packages of a list's lines; blank lines are skipped, and the first
/// line that is not a package's is reported by its number (from 1).
pub open spec fn import_lines(ls: Seq<Seq<char>>) -> Result<Seq<(Seq<char>, SourceSpec)>, Seq<char>>
    decreases ls.len(),
{
    if ls.len() == 0 {
        Ok(seq![])
    } else {
        match import_lines(ls.drop_last()) {
            Err(e) => Err(e),
            Ok(v) => if ls.last().len() == 0 {
                Ok(v)
            } else {
                match parse_entry(ls.last()) {
                    Some(x) => Ok(v.push(x)),
                    None => Err(bad_line_message(ls.len())),
                }
            },
        }
    }
}

pub open spec fn spec_import(text: Seq<char>) -> Result<Seq<(Seq<char>, SourceSpec)>, Seq<char>> {
    import_lines(lines(text))
}

/// Writes the list of `(package key, source)` pairs.
pub fn export_list(entries: &Vec<(String, Source)>) -> (r: String)
    ensures
        r@ == spec_export(entry_views(entries@)),
{
    let ghost ev = entry_views(entries@);
    let mut out: Vec<char> = Vec::new();
    let mut i: usize = 0;
    while i < entries.len()
        invariant
            i <= entries.len(),
            ev == entry_views(entries@),
            out@ == spec_export(ev.take(i as int)),
        decreases entries.len() - i,
    {
        assert(ev.take(i + 1).drop_last() =~= ev.take(i as int));
        assert(ev.take(i + 1).last() == ev[i as int]);
        let key = chars_of(entries[i].0.as_str());
        push_all(&mut out, &key);
        out.push('\t');
        let kind = chars_of(entries[i].1.kind());
        push_all(&mut out, &kind);
        out.push('\t');
        let id = entries[i].1.id();
        let idc = chars_of(id.as_str());
        push_all(&mut out, &idc);
        out.push('\n');
        i = i + 1;
        assert(out@ =~= spec_export(ev.take(i as int)));
    }
    assert(ev.take(entries.len() as int) =~= ev);
    string_of(&out)
}

fn parse_entry_exec(line: &Vec<char>) -> (r: Option<(String, Source)>)
    ensures
        match r {
            Some(e) => parse_entry(line@) == Some((e.0@, e.1@)),
            None => parse_entry(line@) is None,
        },
{
    let p = split_char_exec(line, '\t');
    assert(views(p@).len() == p@.len());
    if p.len() != 3 {
        return None;
    }
    assert(views(p@)[0] == p@[0]@ && views(p@)[1] == p@[1]@ && views(p@)[2] == p@[2]@);
    let kind = string_of(&p[1]);
    let id = string_of(&p[2]);
    match Source::from_parts(kind.as_str(), id.as_str()) {
        Some(s) => Some((string_of(&p[0]), s)),
        None => None,
    }
}

/// Reads a list written by `export_list` (or by hand).
pub fn import_list(text: &str) -> (r: Result<Vec<(String, Source)>, String>)
    ensures
        match r {
            Ok(v) => spec_import(text@) == Ok::<Seq<(Seq<char>, SourceSpec)>, Seq<char>>(entry_views(v@)),
            Err(e) => spec_import(text@) == Err::<Seq<(Seq<char>, SourceSpec)>, Seq<char>>(e@),
        },
{
    let t = chars_of(text);
    let ls = lines_exec(&t);
    let ghost lv = views(ls@);
    let mut out: Vec<(String, Source)> = Vec::new();
    assert(lv.take(0) =~= Seq::<Seq<char>>::empty());
    assert(entry_views(out@) =~= Seq::<(Seq<char>, SourceSpec)>::empty());
    let mut i: usize = 0;
    while i < ls.len()
        invariant
            i <= ls.len(),
            lv == views(ls@),
            lv == lines(text@),
            import_lines(lv.take(i as int)) == Ok::<Seq<(Seq<char>, SourceSpec)>, Seq<char>>(entry_views(out@)),
        decreases ls.len() - i,
    {
        assert(lv.take(i + 1).drop_last() =~= lv.take(i as int));
        assert(lv.take(i + 1).last() == ls@[i as int]@);
        if ls[i].len() > 0 {
            match parse_entry_exec(&ls[i]) {
                Some(e) => {
                    let ghost before = entry_views(out@);
                    out.push(e);
                    assert(entry_views(out@) =~= before.push((out@[out@.len() - 1].0@, out@[out@.len() - 1].1@)));
                },
                None => {
                    let mut m = chars_of("line ");
                    let n = u64_to_chars((i + 1) as u64);
                    push_all(&mut m, &n);
                    let rest = chars_of(" of the list is not an addon entry");
                    push_all(&mut m, &rest);
                    let e = string_of(&m);
                    proof {
                        lemma_import_err_stays(lv, i + 1);
                    }
                    return Err(e);
                },
            }
        }
        i = i + 1;
    }
    assert(lv.take(ls.len() as int) =~= lv);
    Ok(out)
}

proof fn lemma_import_err_stays(ls: Seq<Seq<char>>, k: int)
    requires
        0 <= k <= ls.len(),
        import_lines(ls.take(k)) is Err,
    ensures
        import_lines(ls) == import_lines(ls.take(k)),
    decreases ls.len() - k,
{
    if k < ls.len() {
        assert(ls.take(k + 1).drop_last() =~= ls.take(k));
        lemma_import_err_stays(ls, k + 1);
    } else {
        assert(ls.take(k) =~= ls);
    }
}

// ------------------------------------------------------------------ the round trip

/// A package that survives the round trip: no tab or line break in its key
/// or its source's id.
pub open spec fn plain_field(s: Seq<char>) -> bool {
    !s.contains('\t') && !s.contains('\n') && !s.contains('\r')
}

pub open spec fn exportable(e: (Seq<char>, SourceSpec)) -> bool {
    plain_field(e.0) && plain_field(spec_id(e.1))
}

proof fn lemma_first_in_shift(a: Seq<char>, b: Seq<char>, set: Seq<char>, i: int)
    requires
        0 <= i,
    ensures
        first_in_from(a + b, set, a.len() + i) == match first_in_from(b, set, i) {
            Some(j) => Some(a.len() + j),
            None => None,
        },
    decreases b.len() - i,
{
    if i < b.len() {
        assert((a + b)[a.len() + i] == b[i]);
        if !set.contains(b[i]) {
            lemma_first_in_shift(a, b, set, i + 1);
        }
    }
}

proof fn lemma_lines_shift(a: Seq<char>, b: Seq<char>, i: int)
    requires
        0 <= i,
    ensures
        lines_from(a + b, a.len() + i) == lines_from(b, i),
    decreases b.len() - i,
{
    if i < b.len() {
        lemma_first_in_shift(a, b, seq!['\n'], i);
        lemma_first_in_from(b, seq!['\n'], i);
        match first_in_from(b, seq!['\n'], i) {
            Some(j) => {
                assert((a + b).subrange(a.len() + i, a.len() + j) =~= b.subrange(i, j));
                lemma_lines_shift(a, b, j + 1);
            },
            None => {
                assert((a + b).subrange(a.len() + i, (a + b).len() as int) =~= b.subrange(i, b.len() as int));
            },
        }
    }
}

proof fn lemma_lines_split(a: Seq<char>, b: Seq<char>, i: int)
    requires
        a.len() > 0,
        a.last() == '\n',
        0 <= i <= a.len(),
    ensures
        lines_from(a + b, i) == lines_from(a, i) + lines(b),
    decreases a.len() - i,
{
    if i == a.len() {
        lemma_lines_shift(a, b, 0);
        assert(lines_from(a, i) =~= seq![]);
        assert(lines_from(a + b, i) =~= seq![] + lines(b));
    } else {
        lemma_first_in_from(a, seq!['\n'], i);
        assert(seq!['\n'].contains(a[a.len() - 1])) by {
            assert(seq!['\n'][0] == '\n');
        }
        let j = match first_in_from(a, seq!['\n'], i) {
            Some(j) => j,
            None => 0,
        };
        assert(first_in_from(a, seq!['\n'], i) is Some);
        assert(first_in_from(a + b, seq!['\n'], i) == Some(j)) by {
            lemma_first_in_prefix(a, b, seq!['\n'], i);
        }
        assert((a + b).subrange(i, j) =~= a.subrange(i, j));
        lemma_lines_split(a, b, j + 1);
    }
}

proof fn lemma_first_in_prefix(a: Seq<char>, b: Seq<char>, set: Seq<char>, i: int)
    requires
        0 <= i,
        first_in_from(a, set, i) is Some,
    ensures
        first_in_from(a + b, set, i) == first_in_from(a, set, i),
    decreases a.len() - i,
{
    lemma_first_in_from(a, set, i);
    if i < a.len() {
        assert((a + b)[i] == a[i]);
        if !set.contains(a[i]) {
            lemma_first_in_prefix(a, b, set, i + 1);
        }
    }
}

proof fn lemma_no_char_first(s: Seq<char>, c: char, i: int)
    requires
        0 <= i,
        !s.contains(c),
    ensures
        first_in_from(s, seq![c], i) is None,
    decreases s.len() - i,
{
    if i < s.len() {
        assert(!seq![c].contains(s[i])) by {
            if seq![c].contains(s[i]) {
                let q = choose|q: int| 0 <= q < 1 && seq![c][q] == s[i];
                assert(seq![c][q] == c);
                assert(s.contains(s[i]));
            }
        }
        lemma_no_char_first(s, c, i + 1);
    }
}

proof fn lemma_one_line(l: Seq<char>)
    requires
        !l.contains('\n'),
        !l.contains('\r'),
    ensures
        lines(l + seq!['\n']) == seq![l],
{
    let s = l + seq!['\n'];
    let nl = seq!['\n'];
    assert(nl.contains(nl[0]));
    lemma_no_char_first(l, '\n', 0);
    lemma_first_in_prefix_none(l, nl, nl, 0);
    assert(first_in_from(s, nl, 0) == Some(l.len() as int));
    assert(s.subrange(0, l.len() as int) =~= l);
    assert(strip_cr(l) == l) by {
        if l.len() > 0 {
            assert(l.contains(l[l.len() - 1]));
        }
    }
    assert(lines_from(s, (l.len() + 1) as int) =~= Seq::<Seq<char>>::empty());
    assert(lines(s) =~= seq![l]);
}

proof fn lemma_split_three(a: Seq<char>, b: Seq<char>, c: Seq<char>)
    requires
        !a.contains('\t'),
        !b.contains('\t'),
        !c.contains('\t'),
    ensures
        split_char(a + seq!['\t'] + b + seq!['\t'] + c, '\t') == seq![a, b, c],
{
    let s = a + seq!['\t'] + b + seq!['\t'] + c;
    let t = seq!['\t'];
    assert(t.contains('\t')) by { assert(t[0] == '\t'); }
    let p1 = a.len() as int;
    let p2 = (a.len() + 1 + b.len()) as int;
    lemma_no_char_first(a, '\t', 0);
    assert(s =~= a + (seq!['\t'] + b + seq!['\t'] + c));
    lemma_first_in_prefix_none(a, seq!['\t'] + b + seq!['\t'] + c, t, 0);
    lemma_no_char_first(b, '\t', 0);
    assert(s =~= (a + seq!['\t']) + (b + (seq!['\t'] + c)));
    lemma_first_in_shift(a + seq!['\t'], b + (seq!['\t'] + c), t, 0);
    lemma_first_in_prefix_none(b, seq!['\t'] + c, t, 0);
    lemma_no_char_first(c, '\t', 0);
    assert(s =~= (a + seq!['\t'] + b + seq!['\t']) + c);
    lemma_first_in_shift(a + seq!['\t'] + b + seq!['\t'], c, t, 0);
    assert(s.subrange(0, p1) =~= a);
    assert(s.subrange(p1 + 1, p2) =~= b);
    assert(s.subrange(p2 + 1, s.len() as int) =~= c);
    assert(split_from(s, '\t', p2 + 1) == seq![c]);
    assert(split_from(s, '\t', p1 + 1) =~= seq![b, c]);
    assert(split_from(s, '\t', 0) =~= seq![a, b, c]);
}

proof fn lemma_first_in_prefix_none(a: Seq<char>, b: Seq<char>, set: Seq<char>, i: int)
    requires
        0 <= i <= a.len(),
        first_in_from(a, set, i) is None,
        b.len() > 0,
        set.contains(b[0]),
    ensures
        first_in_from(a + b, set, i) == Some(a.len() as int),
    decreases a.len() - i,
{
    lemma_first_in_from(a, set, i);
    if i < a.len() {
        assert((a + b)[i] == a[i]);
        assert(!set.contains(a[i]));
        lemma_first_in_prefix_none(a, b, set, i + 1);
    } else {
        assert((a + b)[i] == b[0]);
    }
}

proof fn lemma_kind_plain(s: SourceSpec)
    ensures
        !spec_kind(s).contains('\t'),
        !spec_kind(s).contains('\n'),
        !spec_kind(s).contains('\r'),
{
    reveal_strlit("github");
    reveal_strlit("wago");
    reveal_strlit("wowi");
    reveal_strlit("tukui");
}

proof fn lemma_export_lines(es: Seq<(Seq<char>, SourceSpec)>)
    requires
        forall|k: int| 0 <= k < es.len() ==> exportable(#[trigger] es[k]),
    ensures
        lines(spec_export(es)) == es.map_values(|e: (Seq<char>, SourceSpec)| entry_line(e)),
    decreases es.len(),
{
    if es.len() > 0 {
        let d = es.drop_last();
        assert forall|k: int| 0 <= k < d.len() implies exportable(#[trigger] d[k]) by {
            assert(d[k] == es[k]);
        }
        lemma_export_lines(d);
        let e = es.last();
        assert(exportable(es[es.len() - 1]));
        let l = entry_line(e);
        lemma_kind_plain(e.1);
        assert(!l.contains('\n') && !l.contains('\r')) by {
            if l.contains('\n') || l.contains('\r') {
                let q = choose|q: int| 0 <= q < l.len() && (l[q] == '\n' || l[q] == '\r');
                let n0 = e.0.len() as int;
                let n1 = n0 + 1 + spec_kind(e.1).len();
                if q < n0 {
                    assert(l[q] == e.0[q]);
                    assert(e.0.contains(e.0[q]));
                } else if q == n0 || q == n1 {
                } else if q < n1 {
                    assert(l[q] == spec_kind(e.1)[q - n0 - 1]);
                    assert(spec_kind(e.1).contains(spec_kind(e.1)[q - n0 - 1]));
                } else {
                    assert(l[q] == spec_id(e.1)[q - n1 - 1]);
                    assert(spec_id(e.1).contains(spec_id(e.1)[q - n1 - 1]));
                }
            }
        }
        lemma_one_line(l);
        let a = spec_export(d);
        if d.len() == 0 {
            assert(a =~= seq![]);
            assert(spec_export(es) =~= l + seq!['\n']);
        } else {
            assert(a.len() > 0 && a.last() == '\n');
            assert(spec_export(es) =~= a + (l + seq!['\n']));
            lemma_lines_split(a, l + seq!['\n'], 0);
        }
        assert(es.map_values(|e: (Seq<char>, SourceSpec)| entry_line(e)) =~= d.map_values(|e: (Seq<char>, SourceSpec)| entry_line(e)).push(l));
    }
}

proof fn lemma_import_lines_back(es: Seq<(Seq<char>, SourceSpec)>)
    requires
        forall|k: int| 0 <= k < es.len() ==> exportable(#[trigger] es[k]),
    ensures
        import_lines(es.map_values(|e: (Seq<char>, SourceSpec)| entry_line(e))) == Ok::<Seq<(Seq<char>, SourceSpec)>, Seq<char>>(es),
    decreases es.len(),
{
    if es.len() > 0 {
        let d = es.drop_last();
        assert forall|k: int| 0 <= k < d.len() implies exportable(#[trigger] d[k]) by {
            assert(d[k] == es[k]);
        }
        lemma_import_lines_back(d);
        let ls = es.map_values(|e: (Seq<char>, SourceSpec)| entry_line(e));
        assert(ls.drop_last() =~= d.map_values(|e: (Seq<char>, SourceSpec)| entry_line(e)));
        let e = es.last();
        assert(exportable(es[es.len() - 1]));
        lemma_kind_plain(e.1);
        lemma_split_three(e.0, spec_kind(e.1), spec_id(e.1));
        law_from_parts_roundtrip(e.1);
        assert(ls.last() == entry_line(e));
        assert(ls.last().len() > 0);
        assert(split_char(ls.last(), '\t') == seq![e.0, spec_kind(e.1), spec_id(e.1)]);
        assert(parse_entry(ls.last()) == Some(e));
        assert(import_lines(ls.drop_last()) == Ok::<Seq<(Seq<char>, SourceSpec)>, Seq<char>>(d));
        assert(d.push(e) =~= es);
    } else {
        assert(es.map_values(|e: (Seq<char>, SourceSpec)| entry_line(e)) =~= Seq::<Seq<char>>::empty());
        assert(es =~= Seq::<(Seq<char>, SourceSpec)>::empty());
    }
}

/// Importing an exported list gives back the same packages, in the same
/// order, for packages whose key and source id hold no tab or line break.
pub proof fn law_export_import_roundtrip(es: Seq<(Seq<char>, SourceSpec)>)
    requires
        forall|k: int| 0 <= k < es.len() ==> exportable(#[trigger] es[k]),
    ensures
        spec_import(spec_export(es)) == Ok::<Seq<(Seq<char>, SourceSpec)>, Seq<char>>(es),
{
    lemma_export_lines(es);
    lemma_import_lines_back(es);
}

} // verus!
