//! Addon sources: where an addon's releases are published.
use vstd::prelude::*;

pub mod github;
pub mod tukui;
pub mod wago;
pub mod wowi;
use crate::num::{decimal, lemma_parse_decimal, parse_u64, parse_unsigned, u64_to_chars};
use crate::text::{
    chars_eq, chars_of, drop_in_end, drop_in_end_exec, is_ascii_alnum, is_ascii_alnum_exec, lower,
    lower_exec, push_all, skip_in, skip_in_exec, split_char, split_char_exec, starts_with,
    starts_with_exec, string_of, strip_suffix_all, strip_suffix_all_exec, sub_chars, trim, trim_exec, trim_start, trim_end, is_ws, lower_char,
    ends_with, first_in_from, split_from,
};

verus! {

/// Where an addon is published.
#[derive(Debug, PartialEq, Eq, Hash)]
pub enum Source {
    Github(String),
    Wago(String),
    Wowi(u64),
    Tukui(String),
}

/// The mathematical value of a [`Source`].
pub enum SourceSpec {
    Github(Seq<char>),
    Wago(Seq<char>),
    Wowi(u64),
    Tukui(Seq<char>),
}

impl View for Source {
    type V = SourceSpec;

    open spec fn view(&self) -> SourceSpec {
        match self {
            Source::Github(r) => SourceSpec::Github(r@),
            Source::Wago(i) => SourceSpec::Wago(i@),
            Source::Wowi(i) => SourceSpec::Wowi(*i),
            Source::Tukui(s) => SourceSpec::Tukui(s@),
        }
    }
}

impl Clone for Source {
    fn clone(&self) -> (r: Self)
        ensures
            r@ == self@,
    {
        match self {
            Source::Github(r) => Source::Github(r.clone()),
            Source::Wago(i) => Source::Wago(i.clone()),
            Source::Wowi(i) => Source::Wowi(*i),
            Source::Tukui(s) => Source::Tukui(s.clone()),
        }
    }
}

pub open spec fn opt_source_view(s: Option<Source>) -> Option<SourceSpec> {
    match s {
        Some(x) => Some(x@),
        None => None,
    }
}

pub open spec fn spec_kind(s: SourceSpec) -> Seq<char> {
    match s {
        SourceSpec::Github(_) => "github"@,
        SourceSpec::Wago(_) => "wago"@,
        SourceSpec::Wowi(_) => "wowi"@,
        SourceSpec::Tukui(_) => "tukui"@,
    }
}

pub open spec fn spec_id(s: SourceSpec) -> Seq<char> {
    match s {
        SourceSpec::Github(r) => r,
        SourceSpec::Wago(i) => i,
        SourceSpec::Wowi(i) => decimal(i as nat),
        SourceSpec::Tukui(t) => t,
    }
}

pub open spec fn spec_label(s: SourceSpec) -> Seq<char> {
    match s {
        SourceSpec::Github(r) => "GitHub \u{b7} "@ + r,
        SourceSpec::Wago(_) => "Wago"@,
        SourceSpec::Wowi(_) => "WoWInterface"@,
        SourceSpec::Tukui(_) => "TukUI"@,
    }
}

pub open spec fn spec_url(s: SourceSpec) -> Seq<char> {
    match s {
        SourceSpec::Github(r) => "https://github.com/"@ + r + "/releases/latest"@,
        SourceSpec::Wago(i) => "https://addons.wago.io/addons/"@ + i,
        SourceSpec::Wowi(i) => "https://www.wowinterface.com/downloads/info"@ + decimal(i as nat),
        SourceSpec::Tukui(t) => "https://tukui.org/"@ + t,
    }
}

pub open spec fn spec_from_parts(kind: Seq<char>, id: Seq<char>) -> Option<SourceSpec> {
    if kind == "github"@ {
        Some(SourceSpec::Github(id))
    } else if kind == "wago"@ {
        Some(SourceSpec::Wago(id))
    } else if kind == "wowi"@ {
        match parse_u64(id) {
            Some(n) => Some(SourceSpec::Wowi(n)),
            None => None,
        }
    } else if kind == "tukui"@ {
        Some(SourceSpec::Tukui(id))
    } else {
        None
    }
}

fn concat_string(a: &str, b: &[char]) -> (r: String)
    ensures
        r@ == a@ + b@,
{
    let mut v = chars_of(a);
    push_all(&mut v, b);
    string_of(&v)
}

fn concat3_string(a: &str, b: &[char], c: &str) -> (r: String)
    ensures
        r@ == a@ + b@ + c@,
{
    let mut v = chars_of(a);
    push_all(&mut v, b);
    let cc = chars_of(c);
    push_all(&mut v, &cc);
    string_of(&v)
}

impl Source {
    /// The kind name stored in state.json.
    pub fn kind(&self) -> (r: &'static str)
        ensures
            r@ == spec_kind(self@),
    {
        match self {
            Source::Github(_) => "github",
            Source::Wago(_) => "wago",
            Source::Wowi(_) => "wowi",
            Source::Tukui(_) => "tukui",
        }
    }

    /// The id stored in state.json.
    pub fn id(&self) -> (r: String)
        ensures
            r@ == spec_id(self@),
    {
        match self {
            Source::Github(r) => r.clone(),
            Source::Wago(i) => i.clone(),
            Source::Wowi(i) => {
                let v = u64_to_chars(*i);
                string_of(&v)
            },
            Source::Tukui(s) => s.clone(),
        }
    }

    /// Short human label.
    pub fn label(&self) -> (r: String)
        ensures
            r@ == spec_label(self@),
    {
        match self {
            Source::Github(r) => {
                let rc = chars_of(r.as_str());
                concat_string("GitHub \u{b7} ", &rc)
            },
            Source::Wago(_) => String::from_str("Wago"),
            Source::Wowi(_) => String::from_str("WoWInterface"),
            Source::Tukui(_) => String::from_str("TukUI"),
        }
    }

    /// Page where the user can see the addon.
    pub fn url(&self) -> (r: String)
        ensures
            r@ == spec_url(self@),
    {
        match self {
            Source::Github(r) => {
                let rc = chars_of(r.as_str());
                concat3_string("https://github.com/", &rc, "/releases/latest")
            },
            Source::Wago(i) => {
                let ic = chars_of(i.as_str());
                concat_string("https://addons.wago.io/addons/", &ic)
            },
            Source::Wowi(i) => {
                let ic = u64_to_chars(*i);
                concat_string("https://www.wowinterface.com/downloads/info", &ic)
            },
            Source::Tukui(s) => {
                let sc = chars_of(s.as_str());
                concat_string("https://tukui.org/", &sc)
            },
        }
    }

    /// Rebuild from the strings stored in state.json.
    pub fn from_parts(kind: &str, id: &str) -> (r: Option<Source>)
        ensures
            opt_source_view(r) == spec_from_parts(kind@, id@),
    {
        let k = chars_of(kind);
        let g = chars_of("github");
        let w = chars_of("wago");
        let wi = chars_of("wowi");
        let t = chars_of("tukui");
        if chars_eq(&k, &g) {
            Some(Source::Github(String::from_str(id)))
        } else if chars_eq(&k, &w) {
            Some(Source::Wago(String::from_str(id)))
        } else if chars_eq(&k, &wi) {
            let ic = chars_of(id);
            match parse_unsigned(&ic, u64::MAX) {
                Some(n) => Some(Source::Wowi(n)),
                None => None,
            }
        } else if chars_eq(&k, &t) {
            Some(Source::Tukui(String::from_str(id)))
        } else {
            None
        }
    }
}

/// Rebuilding a source from its stored kind and id gives the same source.
pub proof fn law_from_parts_roundtrip(s: SourceSpec)
    ensures
        spec_from_parts(spec_kind(s), spec_id(s)) == Some(s),
{
    reveal_strlit("github");
    reveal_strlit("wago");
    reveal_strlit("wowi");
    reveal_strlit("tukui");
    assert("github"@.len() == 6 && "wago"@.len() == 4 && "wowi"@.len() == 4 && "tukui"@.len() == 5);
    assert("wago"@[1] == 'a' && "wowi"@[1] == 'o');
    assert("github"@ != "wago"@ && "github"@ != "wowi"@ && "github"@ != "tukui"@);
    assert("wago"@ != "wowi"@ && "wago"@ != "tukui"@ && "wowi"@ != "tukui"@);
    match s {
        SourceSpec::Wowi(n) => {
            lemma_parse_decimal(n);
        },
        _ => {},
    }
}

/// The latest release as the source reports it.
#[derive(Debug)]
pub struct Remote {
    pub version: String,
    pub download_url: String,
    pub filename: String,
    /// Some(true) = source says this build supports Forever,
    /// Some(false) = it says it doesn't, None = the source can't tell us.
    pub forever: Option<bool>,
    /// True when this came from a pre-release / beta channel.
    pub prerelease: bool,
}

/// The mathematical value of a [`Remote`].
pub struct RemoteSpec {
    pub version: Seq<char>,
    pub download_url: Seq<char>,
    pub filename: Seq<char>,
    pub forever: Option<bool>,
    pub prerelease: bool,
}

impl View for Remote {
    type V = RemoteSpec;

    open spec fn view(&self) -> RemoteSpec {
        RemoteSpec {
            version: self.version@,
            download_url: self.download_url@,
            filename: self.filename@,
            forever: self.forever,
            prerelease: self.prerelease,
        }
    }
}

/// `Ok` results compared by value, `Err` by message.
pub open spec fn remote_result(r: Result<Remote, String>) -> Result<RemoteSpec, Seq<char>> {
    match r {
        Ok(x) => Ok(x@),
        Err(e) => Err(e@),
    }
}

/// Options that can influence resolution.
#[derive(Debug)]
pub struct ResolveOpts<'a> {
    pub asset_hint: Option<&'a str>,
    pub wago_key: Option<&'a str>,
    pub prerelease: bool,
}

/// The comparison form of a version string.
pub open spec fn spec_normalize_version(v: Seq<char>) -> Seq<char> {
    lower(trim(skip_in(trim(v), seq!['v', 'V'])))
}

/// "v1.2.3" == "1.2.3" for update checks.
pub fn normalize_version(v: &str) -> (r: String)
    ensures
        r@ == spec_normalize_version(v@),
{
    let c = chars_of(v);
    let a = trim_exec(&c);
    let set = vec!['v', 'V'];
    assert(set@ =~= seq!['v', 'V']);
    let b = skip_in_exec(&a, &set);
    let d = trim_exec(&b);
    let e = lower_exec(&d);
    string_of(&e)
}

/// A character allowed in a GitHub owner or repository name.
pub open spec fn repo_char(c: char) -> bool {
    is_ascii_alnum(c) || c == '-' || c == '_' || c == '.'
}

pub open spec fn repo_part_ok(p: Seq<char>) -> bool {
    p.len() > 0 && forall|i: int| 0 <= i < p.len() ==> repo_char(#[trigger] p[i])
}

fn repo_part_ok_exec(p: &[char]) -> (r: bool)
    ensures
        r == repo_part_ok(p@),
{
    if p.len() == 0 {
        return false;
    }
    let mut i: usize = 0;
    while i < p.len()
        invariant
            i <= p.len(),
            forall|k: int| 0 <= k < i ==> repo_char(#[trigger] p@[k]),
        decreases p.len() - i,
    {
        let c = p[i];
        if !(is_ascii_alnum_exec(c) || c == '-' || c == '_' || c == '.') {
            assert(!repo_char(p@[i as int]));
            return false;
        }
        i = i + 1;
    }
    true
}

/// The input with a known GitHub URL prefix removed (the first that matches).
pub open spec fn strip_github_prefix(s: Seq<char>) -> Seq<char> {
    if starts_with(s, "https://github.com/"@) {
        s.skip("https://github.com/"@.len() as int)
    } else if starts_with(s, "http://github.com/"@) {
        s.skip("http://github.com/"@.len() as int)
    } else if starts_with(s, "github.com/"@) {
        s.skip("github.com/"@.len() as int)
    } else if starts_with(s, "https://www.github.com/"@) {
        s.skip("https://www.github.com/"@.len() as int)
    } else {
        s
    }
}

pub open spec fn spec_parse_github_repo(input: Seq<char>) -> Option<Seq<char>> {
    let s = strip_github_prefix(drop_in_end(trim(input), seq!['/']));
    let parts = split_char(s, '/');
    if parts.len() < 2 {
        None
    } else {
        let owner = parts[0];
        let repo = strip_suffix_all(parts[1], ".git"@);
        if repo_part_ok(owner) && repo_part_ok(repo) {
            Some(owner + seq!['/'] + repo)
        } else {
            None
        }
    }
}

fn strip_known_prefix(s: &[char]) -> (r: Vec<char>)
    ensures
        r@ == strip_github_prefix(s@),
{
    let p1 = chars_of("https://github.com/");
    let p2 = chars_of("http://github.com/");
    let p3 = chars_of("github.com/");
    let p4 = chars_of("https://www.github.com/");
    if starts_with_exec(s, &p1) {
        assert(s@.skip(p1@.len() as int) =~= s@.subrange(p1@.len() as int, s@.len() as int));
        sub_chars(s, p1.len(), s.len())
    } else if starts_with_exec(s, &p2) {
        assert(s@.skip(p2@.len() as int) =~= s@.subrange(p2@.len() as int, s@.len() as int));
        sub_chars(s, p2.len(), s.len())
    } else if starts_with_exec(s, &p3) {
        assert(s@.skip(p3@.len() as int) =~= s@.subrange(p3@.len() as int, s@.len() as int));
        sub_chars(s, p3.len(), s.len())
    } else if starts_with_exec(s, &p4) {
        assert(s@.skip(p4@.len() as int) =~= s@.subrange(p4@.len() as int, s@.len() as int));
        sub_chars(s, p4.len(), s.len())
    } else {
        sub_chars(s, 0, s.len())
    }
}

/// Turn "https://github.com/owner/repo/..." or "owner/repo" into "owner/repo".
pub fn parse_github_repo(input: &str) -> (r: Option<String>)
    ensures
        match r {
            Some(x) => spec_parse_github_repo(input@) == Some(x@),
            None => spec_parse_github_repo(input@) is None,
        },
{
    let c = chars_of(input);
    let t = trim_exec(&c);
    let slash = vec!['/'];
    assert(slash@ =~= seq!['/']);
    let u = drop_in_end_exec(&t, &slash);
    let s = strip_known_prefix(&u);
    let parts = split_char_exec(&s, '/');
    if parts.len() < 2 {
        return None;
    }
    let owner = &parts[0];
    let git = chars_of(".git");
    let repo = strip_suffix_all_exec(&parts[1], &git);
    if repo_part_ok_exec(owner) && repo_part_ok_exec(&repo) {
        let mut out = sub_chars(owner, 0, owner.len());
        assert(out@ =~= owner@);
        out.push('/');
        push_all(&mut out, &repo);
        Some(string_of(&out))
    } else {
        None
    }
}

proof fn lemma_trim_end_cons(c: char, s: Seq<char>)
    requires
        !is_ws(c),
    ensures
        trim_end(seq![c] + s) == seq![c] + trim_end(s),
    decreases s.len(),
{
    if s.len() > 0 && is_ws(s.last()) {
        assert((seq![c] + s).drop_last() =~= seq![c] + s.drop_last());
        lemma_trim_end_cons(c, s.drop_last());
    } else if s.len() == 0 {
        assert(seq![c] + s =~= seq![c]);
    }
}

/// `trim_end` of a text with one more character in front: the character
/// stays unless everything is whitespace.
proof fn lemma_trim_end_front(c: char, s: Seq<char>)
    ensures
        trim_end(s).len() > 0 ==> trim_end(seq![c] + s) == seq![c] + trim_end(s),
        trim_end(s).len() == 0 && is_ws(c) ==> trim_end(seq![c] + s).len() == 0,
        trim_end(s).len() == 0 && !is_ws(c) ==> trim_end(seq![c] + s) == seq![c],
    decreases s.len(),
{
    if s.len() == 0 {
        assert(seq![c] + s =~= seq![c]);
        assert(seq![c].drop_last() =~= Seq::<char>::empty());
        assert(seq![c].last() == c);
        assert(trim_end(Seq::<char>::empty()).len() == 0);
    } else {
        assert((seq![c] + s).drop_last() =~= seq![c] + s.drop_last());
        assert((seq![c] + s).last() == s.last());
        lemma_trim_end_front(c, s.drop_last());
    }
}

proof fn lemma_trim_end_idem(s: Seq<char>)
    ensures
        trim_end(trim_end(s)) == trim_end(s),
    decreases s.len(),
{
    if s.len() > 0 && is_ws(s.last()) {
        lemma_trim_end_idem(s.drop_last());
    }
}

proof fn lemma_trim_start_idem(s: Seq<char>)
    ensures
        trim_start(trim_start(s)) == trim_start(s),
    decreases s.len(),
{
    if s.len() > 0 && is_ws(s[0]) {
        lemma_trim_start_idem(s.drop_first());
    }
}

/// Trimming the start and the end can be done in either order.
proof fn lemma_trim_commute(s: Seq<char>)
    ensures
        trim_start(trim_end(s)) == trim_end(trim_start(s)),
    decreases s.len(),
{
    if s.len() > 0 {
        let c = s[0];
        let rest = s.drop_first();
        assert(s == seq![c] + rest);
        lemma_trim_end_front(c, rest);
        if is_ws(c) {
            lemma_trim_commute(rest);
            if trim_end(rest).len() > 0 {
                let t = seq![c] + trim_end(rest);
                assert(t.drop_first() =~= trim_end(rest));
            }
        } else {
            if trim_end(rest).len() > 0 {
                assert((seq![c] + trim_end(rest))[0] == c);
            } else {
                assert(seq![c][0] == c);
            }
        }
    }
}

/// `trim` of a text already trimmed at the end, or trimmed, is its `trim`.
proof fn lemma_trim_facts(s: Seq<char>)
    ensures
        trim(trim_end(s)) == trim(s),
        trim(trim(s)) == trim(s),
{
    lemma_trim_commute(s);
    lemma_trim_end_idem(trim_start(s));
    lemma_trim_commute(trim_end(trim_start(s)));
    lemma_trim_start_idem(s);
    assert(trim(trim(s)) == trim_end(trim_start(trim_end(trim_start(s)))));
    lemma_trim_commute(trim_start(s));
    lemma_trim_end_idem(trim_start(trim_start(s)));
}

/// The comparison form of a version is the version trimmed, stripped of
/// any leading `v`/`V`, trimmed again and lower-cased: nothing else of it
/// is dropped. So two versions compare equal exactly when those stripped
/// texts agree ignoring ASCII case (`1.2.3` and `1.2.4` differ).
pub proof fn law_version_form(a: Seq<char>, b: Seq<char>)
    ensures
        spec_normalize_version(a) == lower(trim(skip_in(trim(a), seq!['v', 'V']))),
        spec_normalize_version(a) == spec_normalize_version(b)
            <==> lower(trim(skip_in(trim(a), seq!['v', 'V']))) == lower(trim(skip_in(trim(b), seq!['v', 'V']))),
{
}

/// A version with no whitespace at its ends that does not start with `v`
/// or `V` compares as itself lower-cased: every character counts, so
/// `1.2.3` and `1.2.4` are different releases.
pub proof fn law_plain_version_kept(s: Seq<char>)
    requires
        s.len() > 0,
        !is_ws(s[0]),
        !is_ws(s.last()),
        s[0] != 'v' && s[0] != 'V',
    ensures
        spec_normalize_version(s) == lower(s),
{
    assert(trim_start(s) == s);
    assert(trim_end(s) == s);
    assert(!seq!['v', 'V'].contains(s[0]));
    assert(skip_in(s, seq!['v', 'V']) == s);
}

/// Does a text start with `v` or `V`?
pub open spec fn starts_with_v(s: Seq<char>) -> bool {
    s.len() > 0 && (s[0] == 'v' || s[0] == 'V')
}

/// A leading `v` or `V` makes no difference to a version: `v1.2.3` and
/// `1.2.3` are the same release. The one exception is a version that
/// starts with whitespace and then, once trimmed, with a `v` (` v1`):
/// after another `v` in front, that whitespace stops the stripping.
pub proof fn law_version_prefix_ignored(c: char, s: Seq<char>)
    requires
        c == 'v' || c == 'V',
        !(s.len() > 0 && is_ws(s[0]) && starts_with_v(trim(s))),
    ensures
        spec_normalize_version(seq![c] + s) == spec_normalize_version(s),
{
    let vs = seq!['v', 'V'];
    assert(trim_start(seq![c] + s) == seq![c] + s);
    lemma_trim_end_cons(c, s);
    let t = seq![c] + trim_end(s);
    assert(t.drop_first() =~= trim_end(s));
    assert(skip_in(t, vs) == skip_in(trim_end(s), vs));
    if s.len() == 0 || !is_ws(s[0]) {
        assert(trim_start(s) == s);
    } else {
        // `s` starts with whitespace, so does `trim_end(s)` unless it is empty
        lemma_trim_end_front(s[0], s.drop_first());
        assert(s == seq![s[0]] + s.drop_first());
        if trim_end(s).len() > 0 {
            assert(trim_end(s)[0] == s[0]);
        }
        assert(skip_in(trim_end(s), vs) == trim_end(s));
        lemma_trim_facts(s);
        assert(skip_in(trim(s), vs) == trim(s));
    }
}

/// Two characters with the same ASCII lower case are both whitespace or
/// neither, and both `v`/`V` or neither.
proof fn lemma_same_lower_char(a: char, b: char)
    requires
        lower_char(a) == lower_char(b),
    ensures
        is_ws(a) == is_ws(b),
        seq!['v', 'V'].contains(a) == seq!['v', 'V'].contains(b),
{
    assert(seq!['v', 'V'].contains(a) <==> (a == 'v' || a == 'V')) by {
        if a == 'v' { assert(seq!['v', 'V'][0] == a); }
        if a == 'V' { assert(seq!['v', 'V'][1] == a); }
    }
    assert(seq!['v', 'V'].contains(b) <==> (b == 'v' || b == 'V')) by {
        if b == 'v' { assert(seq!['v', 'V'][0] == b); }
        if b == 'V' { assert(seq!['v', 'V'][1] == b); }
    }
}

proof fn lemma_lower_parts(s: Seq<char>, t: Seq<char>)
    requires
        lower(s) == lower(t),
    ensures
        s.len() == t.len(),
        s.len() > 0 ==> lower_char(s[0]) == lower_char(t[0]) && lower(s.drop_first()) == lower(t.drop_first())
            && lower_char(s.last()) == lower_char(t.last()) && lower(s.drop_last()) == lower(t.drop_last()),
{
    assert(lower(s).len() == s.len() && lower(t).len() == t.len());
    if s.len() > 0 {
        assert(lower(s)[0] == lower_char(s[0]) && lower(t)[0] == lower_char(t[0]));
        assert(lower(s)[s.len() - 1] == lower_char(s.last()) && lower(t)[t.len() - 1] == lower_char(t.last()));
        assert(lower(s.drop_first()) =~= lower(s).drop_first());
        assert(lower(t.drop_first()) =~= lower(t).drop_first());
        assert(lower(s.drop_last()) =~= lower(s).drop_last());
        assert(lower(t.drop_last()) =~= lower(t).drop_last());
    }
}

proof fn lemma_lower_trim_start(s: Seq<char>, t: Seq<char>)
    requires
        lower(s) == lower(t),
    ensures
        lower(trim_start(s)) == lower(trim_start(t)),
    decreases s.len(),
{
    lemma_lower_parts(s, t);
    if s.len() > 0 {
        lemma_same_lower_char(s[0], t[0]);
        if is_ws(s[0]) {
            lemma_lower_trim_start(s.drop_first(), t.drop_first());
        }
    }
}

proof fn lemma_lower_trim_end(s: Seq<char>, t: Seq<char>)
    requires
        lower(s) == lower(t),
    ensures
        lower(trim_end(s)) == lower(trim_end(t)),
    decreases s.len(),
{
    lemma_lower_parts(s, t);
    if s.len() > 0 {
        lemma_same_lower_char(s.last(), t.last());
        if is_ws(s.last()) {
            lemma_lower_trim_end(s.drop_last(), t.drop_last());
        }
    }
}

proof fn lemma_lower_skip_v(s: Seq<char>, t: Seq<char>)
    requires
        lower(s) == lower(t),
    ensures
        lower(skip_in(s, seq!['v', 'V'])) == lower(skip_in(t, seq!['v', 'V'])),
    decreases s.len(),
{
    lemma_lower_parts(s, t);
    if s.len() > 0 {
        lemma_same_lower_char(s[0], t[0]);
        if seq!['v', 'V'].contains(s[0]) {
            lemma_lower_skip_v(s.drop_first(), t.drop_first());
        }
    }
}

/// ASCII case makes no difference to a version: `V1.2-BETA` and
/// `v1.2-beta` are the same release.
pub proof fn law_version_case_ignored(s: Seq<char>, t: Seq<char>)
    requires
        lower(s) == lower(t),
    ensures
        spec_normalize_version(s) == spec_normalize_version(t),
{
    lemma_lower_trim_start(s, t);
    lemma_lower_trim_end(trim_start(s), trim_start(t));
    lemma_lower_skip_v(trim(s), trim(t));
    let a = skip_in(trim(s), seq!['v', 'V']);
    let b = skip_in(trim(t), seq!['v', 'V']);
    lemma_lower_trim_start(a, b);
    lemma_lower_trim_end(trim_start(a), trim_start(b));
}

proof fn lemma_strip_suffix_all_done(s: Seq<char>, p: Seq<char>)
    requires
        p.len() > 0,
    ensures
        !ends_with(strip_suffix_all(s, p), p),
    decreases s.len(),
{
    if ends_with(s, p) {
        lemma_strip_suffix_all_done(s.take(s.len() - p.len()), p);
    }
}

/// The characters of a parsed `owner/repo`: name characters and the one `/`.
pub open spec fn repo_text_char(c: char) -> bool {
    repo_char(c) || c == '/'
}

proof fn lemma_no_colon_prefix(r: Seq<char>, p: Seq<char>, k: int)
    requires
        forall|i: int| 0 <= i < r.len() ==> repo_text_char(#[trigger] r[i]),
        0 <= k < p.len(),
        p[k] == ':',
    ensures
        !starts_with(r, p),
{
    if starts_with(r, p) {
        assert(r.take(p.len() as int)[k] == r[k]);
        assert(repo_text_char(r[k]));
    }
}

proof fn lemma_first_slash(s: Seq<char>, i: int, j: int)
    requires
        0 <= i <= j < s.len(),
        s[j] == '/',
        forall|k: int| i <= k < j ==> s[k] != '/',
    ensures
        first_in_from(s, seq!['/'], i) == Some(j),
    decreases j - i,
{
    if i < j {
        assert(!seq!['/'].contains(s[i])) by {
            if seq!['/'].contains(s[i]) {
                let q = choose|q: int| 0 <= q < 1 && seq!['/'][q] == s[i];
                assert(seq!['/'][q] == '/');
            }
        }
        lemma_first_slash(s, i + 1, j);
    } else {
        assert(seq!['/'][0] == '/');
        assert(seq!['/'].contains(s[i]));
    }
}

proof fn lemma_no_slash_from(s: Seq<char>, i: int)
    requires
        0 <= i,
        forall|k: int| i <= k < s.len() ==> s[k] != '/',
    ensures
        first_in_from(s, seq!['/'], i) is None,
    decreases s.len() - i,
{
    if i < s.len() {
        assert(!seq!['/'].contains(s[i])) by {
            if seq!['/'].contains(s[i]) {
                let q = choose|q: int| 0 <= q < 1 && seq!['/'][q] == s[i];
                assert(seq!['/'][q] == '/');
            }
        }
        lemma_no_slash_from(s, i + 1);
    }
}

/// Parsing is idempotent: an `owner/repo` that the parser gave back parses
/// to itself, unless its owner is literally `github.com` (then it reads as
/// a URL prefix).
pub proof fn law_parse_github_repo_idempotent(input: Seq<char>)
    ensures
        spec_parse_github_repo(input) matches Some(r)
            ==> (!starts_with(r, "github.com/"@) ==> spec_parse_github_repo(r) == Some(r)),
{
    if let Some(r) = spec_parse_github_repo(input) {
        if !starts_with(r, "github.com/"@) {
            let s0 = strip_github_prefix(drop_in_end(trim(input), seq!['/']));
            let parts = split_char(s0, '/');
            let owner = parts[0];
            reveal_strlit(".git");
            let repo = strip_suffix_all(parts[1], ".git"@);
            lemma_strip_suffix_all_done(parts[1], ".git"@);
            assert(r == owner + seq!['/'] + repo);
            let n = owner.len() as int;
            assert forall|i: int| 0 <= i < r.len() implies repo_text_char(#[trigger] r[i]) by {
                if i < n {
                    assert(r[i] == owner[i]);
                } else if i > n {
                    assert(r[i] == repo[i - n - 1]);
                }
            }
            // no whitespace at either end, no trailing slash
            assert(!is_ws(r[0])) by { assert(r[0] == owner[0]); }
            assert(r.last() == repo.last());
            assert(!is_ws(r.last()));
            assert(trim_start(r) == r);
            assert(trim_end(r) == r);
            assert(trim(r) == r);
            assert(drop_in_end(r, seq!['/']) == r) by {
                assert(!seq!['/'].contains(r.last())) by {
                    if seq!['/'].contains(r.last()) {
                        let q = choose|q: int| 0 <= q < 1 && seq!['/'][q] == r.last();
                        assert(seq!['/'][q] == '/');
                    }
                }
            }
            // no known URL prefix
            reveal_strlit("https://github.com/");
            reveal_strlit("http://github.com/");
            reveal_strlit("https://www.github.com/");
            lemma_no_colon_prefix(r, "https://github.com/"@, 5);
            lemma_no_colon_prefix(r, "http://github.com/"@, 4);
            lemma_no_colon_prefix(r, "https://www.github.com/"@, 5);
            assert(strip_github_prefix(r) == r);
            // it splits into the same two parts
            lemma_first_slash(r, 0, n);
            assert forall|k: int| n + 1 <= k < r.len() implies r[k] != '/' by {
                assert(r[k] == repo[k - n - 1]);
            }
            lemma_no_slash_from(r, n + 1);
            assert(r.subrange(0, n) =~= owner);
            assert(r.subrange(n + 1, r.len() as int) =~= repo);
            assert(split_from(r, '/', n + 1) == seq![repo]);
            assert(split_char(r, '/') =~= seq![owner, repo]);
            assert(strip_suffix_all(repo, ".git"@) == repo);
        }
    }
}

} // verus!
