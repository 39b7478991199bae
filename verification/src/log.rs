//! The local log's text: the time stamp at the head of each line and the
//! tail that goes into problem reports.
use vstd::prelude::*;
use crate::num::{decimal, u64_to_chars};
use crate::text::{lines, lines_exec, push_all, string_of, chars_of, views};
use crate::wow::{join, lemma_join_push};

verus! {

/// Largest log file kept before it is rotated (1 MiB).
pub const MAX_LOG_BYTES: u64 = 1048576;

// ------------------------------------------------------------------ calendar

/// The proleptic Gregorian date `(year, month, day)` of the day `days`
/// after 1970-01-01 (the civil-from-days computation by eras of 400 years,
/// counting years from March).
pub open spec fn civil_from_days(days: int) -> (int, int, int) {
    let z = days + 719468;
    let era = z / 146097;
    let doe = z % 146097;
    let yoe = (doe - doe / 1460 + doe / 36524 - doe / 146096) / 365;
    let y = yoe + era * 400;
    let doy = doe - (365 * yoe + yoe / 4 - yoe / 100);
    let mp = (5 * doy + 2) / 153;
    let d = doy - (153 * mp + 2) / 5 + 1;
    let mo = if mp < 10 { mp + 3 } else { mp - 9 };
    (if mo <= 2 { y + 1 } else { y }, mo, d)
}

/// `s` padded on the left with `0` to at least `w` characters.
pub open spec fn zero_pad(s: Seq<char>, w: nat) -> Seq<char> {
    if s.len() < w { Seq::new((w - s.len()) as nat, |i: int| '0') + s } else { s }
}

pub open spec fn padded(n: nat, w: nat) -> Seq<char> {
    zero_pad(decimal(n), w)
}

/// `YYYY-MM-DD HH:MM:SS` (UTC) for `secs` seconds after the Unix epoch.
pub open spec fn spec_stamp(secs: nat) -> Seq<char> {
    let days = secs / 86400;
    let (y, mo, d) = civil_from_days(days as int);
    let h = (secs % 86400) / 3600;
    let m = (secs % 3600) / 60;
    let s = secs % 60;
    padded(y as nat, 4) + "-"@ + padded(mo as nat, 2) + "-"@ + padded(d as nat, 2) + " "@
        + padded(h, 2) + ":"@ + padded(m, 2) + ":"@ + padded(s, 2)
}

proof fn lemma_year_of_era(doe: u32)
    by (bit_vector)
    requires
        doe < 146097,
    ensures
        (doe - doe / 1460 + doe / 36524 - doe / 146096) / 365 <= 399,
        365 * ((doe - doe / 1460 + doe / 36524 - doe / 146096) / 365)
            + ((doe - doe / 1460 + doe / 36524 - doe / 146096) / 365) / 4
            - ((doe - doe / 1460 + doe / 36524 - doe / 146096) / 365) / 100 <= doe,
        doe - (365 * ((doe - doe / 1460 + doe / 36524 - doe / 146096) / 365)
            + ((doe - doe / 1460 + doe / 36524 - doe / 146096) / 365) / 4
            - ((doe - doe / 1460 + doe / 36524 - doe / 146096) / 365) / 100) <= 365,
{
}

proof fn lemma_month(doy: u32)
    by (bit_vector)
    requires
        doy <= 365,
    ensures
        (5 * doy + 2) / 153 <= 11,
        (153 * ((5 * doy + 2) / 153) + 2) / 5 <= doy,
        doy - (153 * ((5 * doy + 2) / 153) + 2) / 5 + 1 <= 31,
{
}

fn push_padded(out: &mut Vec<char>, n: u64, w: usize)
    ensures
        final(out)@ == old(out)@ + padded(n as nat, w as nat),
{
    let digits = u64_to_chars(n);
    let mut k: usize = digits.len();
    let ghost start = out@;
    while k < w
        invariant
            digits.len() <= k <= w || (k == digits.len() && k >= w),
            digits@ == decimal(n as nat),
            out@ == start + Seq::new((k - digits.len()) as nat, |i: int| '0'),
        decreases w - k,
    {
        out.push('0');
        k = k + 1;
        assert(out@ =~= start + Seq::new((k - digits.len()) as nat, |i: int| '0'));
    }
    push_all(out, &digits);
    if digits.len() >= w {
        assert(out@ =~= start + decimal(n as nat));
    } else {
        assert(out@ =~= start + padded(n as nat, w as nat));
    }
}

/// The log's time stamp for `secs` seconds after the Unix epoch.
pub fn stamp_from_secs(secs: u64) -> (r: String)
    ensures
        r@ == spec_stamp(secs as nat),
{
    let days: u64 = secs / 86400;
    let z: u64 = days + 719468;
    let era: u64 = z / 146097;
    let doe: u64 = z % 146097;
    proof {
        lemma_year_of_era(doe as u32);
    }
    let yoe: u64 = (doe - doe / 1460 + doe / 36524 - doe / 146096) / 365;
    assert(era <= 1500000000) by (nonlinear_arith)
        requires era == z / 146097, z == days + 719468, days == secs / 86400;
    let y: u64 = yoe + era * 400;
    let doy: u64 = doe - (365 * yoe + yoe / 4 - yoe / 100);
    proof {
        lemma_month(doy as u32);
    }
    let mp: u64 = (5 * doy + 2) / 153;
    let d: u64 = doy - (153 * mp + 2) / 5 + 1;
    let mo: u64 = if mp < 10 { mp + 3 } else { mp - 9 };
    let year: u64 = if mo <= 2 { y + 1 } else { y };
    let h: u64 = (secs % 86400) / 3600;
    let m: u64 = (secs % 3600) / 60;
    let s: u64 = secs % 60;
    let mut out: Vec<char> = Vec::new();
    push_padded(&mut out, year, 4);
    out.push('-');
    push_padded(&mut out, mo, 2);
    out.push('-');
    push_padded(&mut out, d, 2);
    out.push(' ');
    push_padded(&mut out, h, 2);
    out.push(':');
    push_padded(&mut out, m, 2);
    out.push(':');
    push_padded(&mut out, s, 2);
    proof {
        let (sy, smo, sd) = civil_from_days(days as int);
        assert(sy == year && smo == mo && sd == d);
        reveal_strlit("-");
        reveal_strlit(" ");
        reveal_strlit(":");
    }
    assert(out@ =~= spec_stamp(secs as nat));
    string_of(&out)
}

// ------------------------------------------------------------------ tail

/// Where the last `n` lines start.
pub open spec fn tail_start(count: nat, n: nat) -> nat {
    if count > n { (count - n) as nat } else { 0 }
}

/// The last `n` lines of `text`, joined with `\n`.
pub open spec fn spec_tail(text: Seq<char>, n: nat) -> Seq<char> {
    let ls = lines(text);
    join(ls.skip(tail_start(ls.len(), n) as int), seq!['\n'])
}

pub fn tail(text: &str, n: usize) -> (r: String)
    ensures
        r@ == spec_tail(text@, n as nat),
{
    let t = chars_of(text);
    let ls = lines_exec(&t);
    let start: usize = if ls.len() > n { ls.len() - n } else { 0 };
    let ghost rest = views(ls@).skip(start as int);
    let mut out: Vec<char> = Vec::new();
    let mut i: usize = start;
    while i < ls.len()
        invariant
            start <= i <= ls.len(),
            rest == views(ls@).skip(start as int),
            out@ == join(rest.take(i - start), seq!['\n']),
        decreases ls.len() - i,
    {
        proof {
            lemma_join_push(rest.take(i - start), ls@[i as int]@, seq!['\n']);
            assert(rest.take(i - start + 1) =~= rest.take(i - start).push(ls@[i as int]@));
        }
        if i > start {
            out.push('\n');
        }
        push_all(&mut out, &ls[i]);
        i = i + 1;
    }
    assert(rest.take(ls.len() - start) =~= rest);
    string_of(&out)
}

/// The date of a stamp is a real calendar date as far as its fields go:
/// month 1 to 12 and day 1 to 31, and the time of day is below 24:00:00.
pub proof fn law_stamp_fields_in_range(secs: u64)
    ensures
        ({
            let (y, mo, d) = civil_from_days((secs / 86400) as int);
            1 <= mo <= 12 && 1 <= d <= 31
        }),
        (secs % 86400) / 3600 < 24,
        (secs % 3600) / 60 < 60,
        secs % 60 < 60,
{
    let days: int = (secs / 86400) as int;
    let z: int = days + 719468;
    let doe: int = z % 146097;
    lemma_year_of_era(doe as u32);
    let yoe: int = (doe - doe / 1460 + doe / 36524 - doe / 146096) / 365;
    let doy: int = doe - (365 * yoe + yoe / 4 - yoe / 100);
    lemma_month(doy as u32);
}

} // verus!
