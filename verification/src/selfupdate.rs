//! Self-update: deciding whether a newer build is out and checking what was downloaded.
use vstd::prelude::*;
use crate::num::{decimal, lemma_decimal_digits, lemma_parse_decimal, parse_u32, parse_u64, parse_unsigned, u64_to_chars};
use crate::text::{
    chars_of, contains_char, ends_with, ends_with_exec, lower, lower_exec, push_all, skip_in,
    skip_in_exec, split_char, split_char_exec, string_of, trim, trim_exec, views,
    first_in_from, lemma_first_in_from, split_from, trim_start, trim_end, is_ws, is_digit,
};

verus! {

/// This build's version.
pub fn version() -> (r: &'static str)
    ensures
        r@ == "0.2.0"@,
{
    "0.2.0"
}

/// The build number of a release build: the value the release pipeline
/// sets in `ADDONFORGE_BUILD` when compiling (`raw`, read by the program),
/// as a number; 0 when it is unset or not a number (builds made outside the
/// pipeline).
pub fn build(raw: Option<&str>) -> (r: u32)
    ensures
        r == match raw {
            Some(s) => match parse_u32(s@) {
                Some(n) => n,
                None => 0u32,
            },
            None => 0u32,
        },
{
    match raw {
        Some(s) => {
            let c = chars_of(s);
            match parse_unsigned(&c, 4294967295u64) {
                Some(n) => n as u32,
                None => 0,
            }
        },
        None => 0,
    }
}
/// What `latest.json` describes: the newest build.
#[derive(Clone, Debug)]
pub struct Latest {
    pub version: String,
    pub build: u32,
    pub url: String,
    pub filename: String,
    pub notes: String,
    pub size: u64,
}

/// Result of an update check.
#[derive(Debug)]
pub struct SelfUpdate {
    pub current_version: String,
    pub current_build: u32,
    pub latest: Option<Latest>,
    pub available: bool,
    pub tag: String,
    pub error: Option<String>,
}

/// A version piece as a number (0 when it is not one).
pub open spec fn piece_value(p: Seq<char>) -> u64 {
    match parse_u64(trim(p)) {
        Some(n) => n,
        None => 0,
    }
}

/// `"v1.2.3"` as `(1, 2, 3)`: a leading `v`/`V` is dropped, missing or
/// non-numeric parts count as 0, parts past the third are ignored.
pub open spec fn spec_semver(v: Seq<char>) -> (u64, u64, u64) {
    let parts = split_char(skip_in(trim(v), seq!['v', 'V']), '.');
    (
        if parts.len() > 0 { piece_value(parts[0]) } else { 0 },
        if parts.len() > 1 { piece_value(parts[1]) } else { 0 },
        if parts.len() > 2 { piece_value(parts[2]) } else { 0 },
    )
}

fn piece_value_exec(p: &[char]) -> (r: u64)
    ensures
        r == piece_value(p@),
{
    let t = trim_exec(p);
    match parse_unsigned(&t, u64::MAX) {
        Some(n) => n,
        None => 0,
    }
}

pub fn semver(v: &str) -> (r: (u64, u64, u64))
    ensures
        r == spec_semver(v@),
{
    let c = chars_of(v);
    let t = trim_exec(&c);
    let set = vec!['v', 'V'];
    assert(set@ =~= seq!['v', 'V']);
    let s = skip_in_exec(&t, &set);
    let parts = split_char_exec(&s, '.');
    proof {
        assert(views(parts@).len() == parts@.len());
        if parts@.len() > 0 { assert(views(parts@)[0] == parts@[0]@); }
        if parts@.len() > 1 { assert(views(parts@)[1] == parts@[1]@); }
        if parts@.len() > 2 { assert(views(parts@)[2] == parts@[2]@); }
    }
    let a = if parts.len() > 0 { piece_value_exec(&parts[0]) } else { 0 };
    let b = if parts.len() > 1 { piece_value_exec(&parts[1]) } else { 0 };
    let c = if parts.len() > 2 { piece_value_exec(&parts[2]) } else { 0 };
    (a, b, c)
}

pub open spec fn triple_lt(a: (u64, u64, u64), b: (u64, u64, u64)) -> bool {
    a.0 < b.0 || (a.0 == b.0 && (a.1 < b.1 || (a.1 == b.1 && a.2 < b.2)))
}

/// `latest` is newer than version `cur_version` build `cur_build`: a higher
/// version, or the same version with a higher build number.
pub open spec fn spec_is_newer_than(latest_version: Seq<char>, latest_build: u32, cur_version: Seq<char>, cur_build: u32) -> bool {
    let a = spec_semver(latest_version);
    let b = spec_semver(cur_version);
    triple_lt(b, a) || (a == b && latest_build > cur_build)
}

pub fn is_newer_than(latest: &Latest, cur_version: &str, cur_build: u32) -> (r: bool)
    ensures
        r == spec_is_newer_than(latest.version@, latest.build, cur_version@, cur_build),
{
    let a = semver(latest.version.as_str());
    let b = semver(cur_version);
    let gt = a.0 > b.0 || (a.0 == b.0 && (a.1 > b.1 || (a.1 == b.1 && a.2 > b.2)));
    gt || (a.0 == b.0 && a.1 == b.1 && a.2 == b.2 && latest.build > cur_build)
}

/// Is `latest` newer than this build (numbered `cur_build`)?
pub fn is_newer(latest: &Latest, cur_build: u32) -> (r: bool)
    ensures
        r == spec_is_newer_than(latest.version@, latest.build, "0.2.0"@, cur_build),
{
    is_newer_than(latest, version(), cur_build)
}

/// Newer-than is the lexicographic order of the (major, minor, patch)
/// triples, then of the build numbers: a higher major version is always
/// newer, an equal major and higher minor too, and so on; with equal
/// triples only a higher build number is newer.
pub proof fn law_newer_is_lexicographic(latest: Seq<char>, lb: u32, cur: Seq<char>, cb: u32)
    ensures
        ({
            let a = spec_semver(latest);
            let b = spec_semver(cur);
            spec_is_newer_than(latest, lb, cur, cb) <==> (
                a.0 > b.0
                || (a.0 == b.0 && a.1 > b.1)
                || (a.0 == b.0 && a.1 == b.1 && a.2 > b.2)
                || (a.0 == b.0 && a.1 == b.1 && a.2 == b.2 && lb > cb))
        }),
        spec_semver(latest).0 > spec_semver(cur).0 ==> spec_is_newer_than(latest, lb, cur, cb),
        spec_semver(latest).0 < spec_semver(cur).0 ==> !spec_is_newer_than(latest, lb, cur, cb),
{
}

proof fn lemma_first_at(s: Seq<char>, c: char, i: int, j: int)
    requires
        0 <= i <= j < s.len(),
        s[j] == c,
        forall|k: int| i <= k < j ==> s[k] != c,
    ensures
        first_in_from(s, seq![c], i) == Some(j),
{
    lemma_first_in_from(s, seq![c], i);
    assert(seq![c][0] == s[j]);
    assert(seq![c].contains(s[j]));
    let r = first_in_from(s, seq![c], i);
    if let Some(j2) = r {
        assert(seq![c].contains(s[j2]));
        assert(s[j2] == c) by {
            let t = choose|t: int| 0 <= t < 1 && seq![c][t] == s[j2];
        }
        if j2 < j {
            assert(s[j2] != c);
        }
    }
}

proof fn lemma_first_none(s: Seq<char>, c: char, i: int)
    requires
        0 <= i,
        forall|k: int| i <= k < s.len() ==> s[k] != c,
    ensures
        first_in_from(s, seq![c], i) is None,
{
    lemma_first_in_from(s, seq![c], i);
    if let Some(j2) = first_in_from(s, seq![c], i) {
        assert(seq![c].contains(s[j2]));
        assert(s[j2] == c) by {
            let t = choose|t: int| 0 <= t < 1 && seq![c][t] == s[j2];
        }
    }
}

/// The decimal rendering of a number: digits only, and it reads back.
proof fn lemma_dec(n: u64)
    ensures
        decimal(n as nat).len() > 0,
        forall|i: int| 0 <= i < decimal(n as nat).len() ==> is_digit(#[trigger] decimal(n as nat)[i]),
        piece_value(decimal(n as nat)) == n,
{
    let d = decimal(n as nat);
    lemma_decimal_digits(n as nat);
    lemma_parse_decimal(n);
    assert(is_digit(d[0]));
    assert(is_digit(d.last()) && d.last() == d[d.len() - 1]);
    assert(trim_start(d) == d);
    assert(trim_end(d) == d);
}

/// Three dot-free pieces joined by dots split back into the three.
proof fn lemma_split_three(x: Seq<char>, y: Seq<char>, z: Seq<char>)
    requires
        forall|i: int| 0 <= i < x.len() ==> x[i] != '.',
        forall|i: int| 0 <= i < y.len() ==> y[i] != '.',
        forall|i: int| 0 <= i < z.len() ==> z[i] != '.',
    ensures
        split_char(x + seq!['.'] + y + seq!['.'] + z, '.') == seq![x, y, z],
{
    let t = x + seq!['.'] + y + seq!['.'] + z;
    let lx = x.len() as int;
    let ly = y.len() as int;
    assert forall|k: int| 0 <= k < lx implies t[k] != '.' by { assert(t[k] == x[k]); }
    assert forall|k: int| lx + 1 <= k < lx + 1 + ly implies t[k] != '.' by { assert(t[k] == y[k - lx - 1]); }
    assert forall|k: int| lx + 2 + ly <= k < t.len() implies t[k] != '.' by { assert(t[k] == z[k - lx - 2 - ly]); }
    assert(t[lx] == '.');
    assert(t[lx + 1 + ly] == '.');
    lemma_first_at(t, '.', 0, lx);
    lemma_first_at(t, '.', lx + 1, lx + 1 + ly);
    lemma_first_none(t, '.', lx + 2 + ly);
    assert(t.subrange(0, lx) =~= x);
    assert(t.subrange(lx + 1, lx + 1 + ly) =~= y);
    assert(t.subrange(lx + 2 + ly, t.len() as int) =~= z);
    assert(split_from(t, '.', lx + 2 + ly) == seq![z]);
    assert(split_from(t, '.', lx + 1) == seq![y] + seq![z]);
    assert(split_char(t, '.') == seq![x] + (seq![y] + seq![z]));
    assert(seq![x] + (seq![y] + seq![z]) =~= seq![x, y, z]);
}

/// A version written `a.b.c` (with or without a leading `v` or `V`) reads
/// as the numbers `(a, b, c)`.
pub proof fn law_semver_reads_numbers(a: u64, b: u64, c: u64, prefix: Seq<char>)
    requires
        prefix == seq!['v'] || prefix == seq!['V'] || prefix.len() == 0,
    ensures
        spec_semver(prefix + decimal(a as nat) + seq!['.'] + decimal(b as nat) + seq!['.'] + decimal(c as nat)) == (a, b, c),
{
    let x = decimal(a as nat);
    let y = decimal(b as nat);
    let z = decimal(c as nat);
    lemma_dec(a);
    lemma_dec(b);
    lemma_dec(c);
    assert forall|i: int| 0 <= i < x.len() implies x[i] != '.' by { assert(is_digit(x[i])); }
    assert forall|i: int| 0 <= i < y.len() implies y[i] != '.' by { assert(is_digit(y[i])); }
    assert forall|i: int| 0 <= i < z.len() implies z[i] != '.' by { assert(is_digit(z[i])); }
    lemma_split_three(x, y, z);
    let t = x + seq!['.'] + y + seq!['.'] + z;
    let v = prefix + t;
    assert(prefix + x + seq!['.'] + y + seq!['.'] + z =~= v);
    lemma_stripped(prefix, t, x[0], z.last());
    assert(skip_in(trim(v), seq!['v', 'V']) == t);
}

/// Trimming and stripping the `v` leave the digits and dots.
proof fn lemma_stripped(prefix: Seq<char>, t: Seq<char>, first: char, last: char)
    requires
        prefix == seq!['v'] || prefix == seq!['V'] || prefix.len() == 0,
        t.len() > 0,
        t[0] == first,
        t.last() == last,
        is_digit(first),
        is_digit(last),
    ensures
        skip_in(trim(prefix + t), seq!['v', 'V']) == t,
{
    let v = prefix + t;
    assert(!seq!['v', 'V'].contains(t[0]));
    assert(skip_in(t, seq!['v', 'V']) == t);
    assert(v.last() == t.last()) by {
        assert(v[v.len() - 1] == t[t.len() - 1]);
    }
    if prefix.len() == 0 {
        assert(v =~= t);
    } else {
        assert(v[0] == prefix[0]);
        assert(seq!['v', 'V'].contains(v[0])) by {
            if prefix[0] == 'v' { assert(seq!['v', 'V'][0] == v[0]); } else { assert(seq!['v', 'V'][1] == v[0]); }
        }
        assert(v.drop_first() =~= t);
    }
    assert(trim_start(v) == v);
    assert(trim_end(v) == v);
}

/// A build never counts as newer than itself.
pub proof fn law_not_newer_than_itself(v: Seq<char>, b: u32)
    ensures
        !spec_is_newer_than(v, b, v, b),
{
}

/// Newer-than is transitive.
pub proof fn law_newer_transitive(v1: Seq<char>, b1: u32, v2: Seq<char>, b2: u32, v3: Seq<char>, b3: u32)
    requires
        spec_is_newer_than(v1, b1, v2, b2),
        spec_is_newer_than(v2, b2, v3, b3),
    ensures
        spec_is_newer_than(v1, b1, v3, b3),
{
}

pub open spec fn spec_tag(version: Seq<char>, build: u32) -> Seq<char> {
    "v"@ + version + "-b"@ + decimal(build as nat)
}

/// The outcome of fetching `latest.json` (`Err` holds the fetch error's
/// text), for this build numbered `cur_build`.
pub fn check(fetched: Result<Latest, String>, cur_build: u32) -> (r: SelfUpdate)
    ensures
        r.current_version@ == "0.2.0"@,
        r.current_build == cur_build,
        match fetched {
            Ok(l) => if l.version@.len() > 0 && l.url@.len() > 0 {
                &&& r.available == spec_is_newer_than(l.version@, l.build, "0.2.0"@, cur_build)
                &&& r.tag@ == spec_tag(l.version@, l.build)
                &&& r.latest == Some(l)
                &&& r.error is None
            } else {
                &&& !r.available && r.tag@.len() == 0 && r.latest is None
                &&& r.error matches Some(e) && e@ == "latest.json was empty"@
            },
            Err(e) => {
                &&& !r.available && r.tag@.len() == 0 && r.latest is None
                &&& r.error matches Some(m) && m@ == e@
            },
        },
{
    let mut out = SelfUpdate {
        current_version: String::from_str(version()),
        current_build: cur_build,
        latest: None,
        available: false,
        tag: String::new(),
        error: None,
    };
    match fetched {
        Ok(l) => {
            if !l.version.as_str().is_empty() && !l.url.as_str().is_empty() {
                out.available = is_newer(&l, cur_build);
                let mut t = chars_of("v");
                let vc = chars_of(l.version.as_str());
                push_all(&mut t, &vc);
                let b = chars_of("-b");
                push_all(&mut t, &b);
                let n = u64_to_chars(l.build as u64);
                push_all(&mut t, &n);
                out.tag = string_of(&t);
                out.latest = Some(l);
            } else {
                out.error = Some(String::from_str("latest.json was empty"));
            }
        },
        Err(e) => {
            out.error = Some(e);
        },
    }
    out
}

/// The file name an update is saved under: the release's, else one made from
/// its version and build; refused unless it is a plain `.exe` name.
pub open spec fn spec_update_filename(version: Seq<char>, build: u32, filename: Seq<char>) -> Result<Seq<char>, Seq<char>> {
    let name = if filename.len() == 0 {
        "AddonForge-v"@ + version + "-b"@ + decimal(build as nat) + ".exe"@
    } else {
        filename
    };
    if name.contains('/') || name.contains('\\') || !ends_with(lower(name), ".exe"@) {
        Err("refusing odd update filename "@ + name)
    } else {
        Ok(name)
    }
}

pub fn update_filename(latest: &Latest) -> (r: Result<String, String>)
    ensures
        match r {
            Ok(n) => spec_update_filename(latest.version@, latest.build, latest.filename@) == Ok::<Seq<char>, Seq<char>>(n@),
            Err(e) => spec_update_filename(latest.version@, latest.build, latest.filename@) == Err::<Seq<char>, Seq<char>>(e@),
        },
{
    let name: Vec<char> = if latest.filename.as_str().is_empty() {
        let mut t = chars_of("AddonForge-v");
        let vc = chars_of(latest.version.as_str());
        push_all(&mut t, &vc);
        let b = chars_of("-b");
        push_all(&mut t, &b);
        let n = u64_to_chars(latest.build as u64);
        push_all(&mut t, &n);
        let e = chars_of(".exe");
        push_all(&mut t, &e);
        t
    } else {
        chars_of(latest.filename.as_str())
    };
    let lname = lower_exec(&name);
    let exe = chars_of(".exe");
    if contains_char(&name, '/') || contains_char(&name, '\\') || !ends_with_exec(&lname, &exe) {
        let mut m = chars_of("refusing odd update filename ");
        push_all(&mut m, &name);
        Err(string_of(&m))
    } else {
        Ok(string_of(&name))
    }
}

/// Smallest size a real build can have.
pub const MIN_UPDATE_BYTES: u64 = 1000000;

pub open spec fn spec_check_download(len: u64, expected: u64) -> Result<(), Seq<char>> {
    if len < MIN_UPDATE_BYTES {
        Err("downloaded file is too small to be AddonForge ("@ + decimal(len as nat) + " bytes)"@)
    } else if expected > 0 && len != expected {
        Err("downloaded size "@ + decimal(len as nat) + " does not match the release's "@ + decimal(expected as nat))
    } else {
        Ok(())
    }
}

/// Is a downloaded update plausible: big enough, and of the announced size
/// when the release states one?
pub fn check_download(len: u64, expected: u64) -> (r: Result<(), String>)
    ensures
        match r {
            Ok(_) => spec_check_download(len, expected) is Ok,
            Err(e) => spec_check_download(len, expected) == Err::<(), Seq<char>>(e@),
        },
{
    if len < MIN_UPDATE_BYTES {
        let mut m = chars_of("downloaded file is too small to be AddonForge (");
        let n = u64_to_chars(len);
        push_all(&mut m, &n);
        let t = chars_of(" bytes)");
        push_all(&mut m, &t);
        Err(string_of(&m))
    } else if expected > 0 && len != expected {
        let mut m = chars_of("downloaded size ");
        let n = u64_to_chars(len);
        push_all(&mut m, &n);
        let t = chars_of(" does not match the release's ");
        push_all(&mut m, &t);
        let x = u64_to_chars(expected);
        push_all(&mut m, &x);
        Err(string_of(&m))
    } else {
        Ok(())
    }
}

} // verus!
