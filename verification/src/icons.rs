//! Icons and README previews: which image addresses may be fetched, the
//! GitHub avatar of a repository's owner, the first picture of a README
//! (markdown or GitHub's rendered html) and a plain-text excerpt of it.
use vstd::prelude::*;
use base64::Engine;
use crate::text::{
    chars_of, contains, contains_exec, ends_with, ends_with_exec, find_from, find_from_exec,
    first_in_from, first_in_from_exec, is_ascii_alnum, is_ascii_alnum_exec, lemma_find_from_facts,
    lemma_first_in_from, lower, lower_exec, push_all, starts_with, starts_with_exec, string_of,
    sub_chars, take_until_in, take_until_in_exec, trim, trim_exec, trim_start, trim_start_exec,
    chars_eq, copy_chars, occurs_at, contains_char, split_char, split_char_exec, lines, lines_exec, views, skip_in, skip_in_exec, strip_prefix_all, strip_prefix_all_exec,
};

verus! {

// ------------------------------------------------------------------ avatars

/// The owner part of `owner/repo`, trimmed.
pub open spec fn repo_owner(repo: Seq<char>) -> Seq<char> {
    trim(take_until_in(repo, seq!['/']))
}

/// The avatar of a repository's owner: `https://github.com/{owner}.png?size=64`,
/// or `None` when the owner part is blank.
pub open spec fn spec_github_avatar_url(repo: Seq<char>) -> Option<Seq<char>> {
    let owner = repo_owner(repo);
    if owner.len() == 0 {
        None
    } else {
        Some("https://github.com/"@ + owner + ".png?size=64"@)
    }
}

pub fn github_avatar_url(repo: &str) -> (r: Option<String>)
    ensures
        match r {
            Some(u) => spec_github_avatar_url(repo@) == Some(u@),
            None => spec_github_avatar_url(repo@) is None,
        },
{
    let v = chars_of(repo);
    let slash = vec!['/'];
    assert(slash@ =~= seq!['/']);
    let first = take_until_in_exec(&v, &slash);
    let owner = trim_exec(&first);
    if owner.len() == 0 {
        return None;
    }
    let mut out = chars_of("https://github.com/");
    push_all(&mut out, &owner);
    let tail = chars_of(".png?size=64");
    push_all(&mut out, &tail);
    Some(string_of(&out))
}

// ------------------------------------------------------------------ image hosts

/// The text after the last `c` in `s` (all of `s` when there is none).
pub open spec fn after_last(s: Seq<char>, c: char) -> Seq<char>
    decreases s.len(),
{
    if s.len() == 0 {
        s
    } else if s.last() == c {
        seq![]
    } else {
        after_last(s.drop_last(), c).push(s.last())
    }
}

/// The characters that end the authority of an `https` address: the path,
/// query and fragment separators (a backslash counts as a slash there).
pub open spec fn authority_ends() -> Seq<char> {
    seq!['/', '?', '#', '\\']
}

/// The host of an `https://` address as a URL parser reads it, lower-cased:
/// the authority runs to the first `/`, `?`, `#` or `\`; the user info (up
/// to the last `@`) and the port (from the first `:`) are dropped.
pub open spec fn https_host(url: Seq<char>) -> Option<Seq<char>> {
    if starts_with(url, "https://"@) {
        let authority = take_until_in(url.skip(8), authority_ends());
        Some(lower(take_until_in(after_last(authority, '@'), seq![':'])))
    } else {
        None
    }
}

fn after_last_exec(s: &Vec<char>, c: char) -> (r: Vec<char>)
    ensures
        r@ == after_last(s@, c),
{
    let mut i: usize = s.len();
    assert(s@.skip(i as int) =~= Seq::<char>::empty());
    assert(s@.take(i as int) =~= s@);
    while i > 0 && s[i - 1] != c
        invariant
            i <= s.len(),
            after_last(s@, c) == after_last(s@.take(i as int), c) + s@.skip(i as int),
        decreases i,
    {
        let ghost t = s@.take(i as int);
        assert(t.drop_last() =~= s@.take(i - 1));
        assert(t.last() == s@[i - 1]);
        assert(s@.skip(i - 1) =~= seq![s@[i - 1]] + s@.skip(i as int));
        assert(after_last(t, c) == after_last(s@.take(i - 1), c).push(s@[i - 1]));
        assert(after_last(s@.take(i - 1), c).push(s@[i - 1]) + s@.skip(i as int)
            =~= after_last(s@.take(i - 1), c) + s@.skip(i - 1));
        i = i - 1;
    }
    if i > 0 {
        let ghost t = s@.take(i as int);
        assert(t.last() == c);
        assert(after_last(t, c) =~= Seq::<char>::empty());
    } else {
        assert(s@.take(0) =~= Seq::<char>::empty());
    }
    assert(Seq::<char>::empty() + s@.skip(i as int) =~= s@.skip(i as int));
    let r = sub_chars(s, i, s.len());
    assert(r@ =~= s@.skip(i as int));
    r
}

/// The hosts a preview image may come from: the addon sites and GitHub.
pub open spec fn host_allowed(h: Seq<char>) -> bool {
    h == "github.com"@ || ends_with(h, ".githubusercontent.com"@) || h == "media.forgecdn.net"@
        || h == "addons.wago.io"@ || ends_with(h, ".wago.io"@) || h == "www.wowinterface.com"@
        || h == "cdn-wow.mmoui.com"@
}

/// An image address may be fetched: it is `https` and its host is allowed.
pub open spec fn spec_allowed_image_host(url: Seq<char>) -> bool {
    match https_host(url) {
        Some(h) => host_allowed(h),
        None => false,
    }
}

fn eq_lit(v: &Vec<char>, lit: &str) -> (r: bool)
    ensures
        r == (v@ == lit@),
{
    let l = chars_of(lit);
    chars_eq(v, &l)
}

fn ends_lit(v: &Vec<char>, lit: &str) -> (r: bool)
    ensures
        r == ends_with(v@, lit@),
{
    let l = chars_of(lit);
    ends_with_exec(v, &l)
}

fn contains_lit(v: &Vec<char>, lit: &str) -> (r: bool)
    ensures
        r == contains(v@, lit@),
{
    let l = chars_of(lit);
    contains_exec(v, &l)
}

fn allowed_chars(url: &Vec<char>) -> (r: bool)
    ensures
        r == spec_allowed_image_host(url@),
{
    let pre = chars_of("https://");
    if !starts_with_exec(url, &pre) {
        return false;
    }
    proof { reveal_strlit("https://"); }
    let rest = sub_chars(url, 8, url.len());
    assert(rest@ =~= url@.skip(8));
    let ends = vec!['/', '?', '#', '\\'];
    assert(ends@ =~= authority_ends());
    let authority = take_until_in_exec(&rest, &ends);
    let hostport = after_last_exec(&authority, '@');
    let colon = vec![':'];
    assert(colon@ =~= seq![':']);
    let first = take_until_in_exec(&hostport, &colon);
    let h = lower_exec(&first);
    eq_lit(&h, "github.com") || ends_lit(&h, ".githubusercontent.com") || eq_lit(&h, "media.forgecdn.net")
        || eq_lit(&h, "addons.wago.io") || ends_lit(&h, ".wago.io") || eq_lit(&h, "www.wowinterface.com")
        || eq_lit(&h, "cdn-wow.mmoui.com")
}

/// May a preview image be fetched from `url`?
pub fn allowed_image_host(url: &str) -> (r: bool)
    ensures
        r == spec_allowed_image_host(url@),
{
    let v = chars_of(url);
    allowed_chars(&v)
}

// ------------------------------------------------------------------ html attributes

/// Is position `at` of the lower-cased tag the start of a whole attribute
/// name (not the tail of a longer one such as `data-canonical-src`)?
pub open spec fn attr_boundary(l: Seq<char>, at: int) -> bool {
    at == 0 || (!is_ascii_alnum(l[at - 1]) && l[at - 1] != '-')
}

/// The value of attribute `name` (lower-case) in the body of an html tag,
/// searching from `from`: the first whole-name occurrence followed by `=`
/// and a quoted value gives it; an unquoted value is skipped; a missing
/// value or closing quote ends the search with nothing.
pub open spec fn attr_from(tag: Seq<char>, name: Seq<char>, from: int) -> Option<Seq<char>>
    decreases tag.len() + 1 - from,
{
    if from < 0 || name.len() == 0 {
        None
    } else {
        let l = lower(tag);
        proof { lemma_find_from_facts(l, name, from); }
        match find_from(l, name, from) {
            None => None,
            Some(at) => {
                let rest_t = trim_start(tag.skip(at + name.len()));
                if attr_boundary(l, at) && rest_t.len() > 0 && rest_t[0] == '=' {
                    let v = trim_start(rest_t.skip(1));
                    if v.len() == 0 {
                        None
                    } else if v[0] == '"' || v[0] == '\'' {
                        match find_from(v, seq![v[0]], 1) {
                            Some(e) => Some(v.subrange(1, e)),
                            None => None,
                        }
                    } else {
                        attr_from(tag, name, at + name.len())
                    }
                } else {
                    attr_from(tag, name, at + name.len())
                }
            },
        }
    }
}

pub open spec fn spec_attr(tag: Seq<char>, name: Seq<char>) -> Option<Seq<char>> {
    attr_from(tag, name, 0)
}

fn attr_exec(tag: &Vec<char>, name: &Vec<char>) -> (r: Option<Vec<char>>)
    requires
        name@.len() > 0,
    ensures
        match r {
            Some(v) => spec_attr(tag@, name@) == Some(v@),
            None => spec_attr(tag@, name@) is None,
        },
{
    let l = lower_exec(tag);
    let mut from: usize = 0;
    while from <= tag.len()
        invariant
            l@ == lower(tag@),
            l@.len() == tag@.len(),
            name@.len() > 0,
            spec_attr(tag@, name@) == attr_from(tag@, name@, from as int),
        decreases tag.len() + 1 - from,
    {
        proof { lemma_find_from_facts(l@, name@, from as int); }
        match find_from_exec(&l, name, from) {
            None => return None,
            Some(at) => {
                let after = at + name.len();
                let tail = sub_chars(tag, after, tag.len());
                assert(tail@ =~= tag@.skip(after as int));
                let rest_t = trim_start_exec(&tail);
                let boundary = at == 0 || (!is_ascii_alnum_exec(l[at - 1]) && l[at - 1] != '-');
                if boundary && rest_t.len() > 0 && rest_t[0] == '=' {
                    let r1 = sub_chars(&rest_t, 1, rest_t.len());
                    assert(r1@ =~= rest_t@.skip(1));
                    let v = trim_start_exec(&r1);
                    if v.len() == 0 {
                        return None;
                    }
                    let q = v[0];
                    if q == '"' || q == '\'' {
                        let qs = vec![q];
                        assert(qs@ =~= seq![v@[0]]);
                        match find_from_exec(&v, &qs, 1) {
                            Some(e) => {
                                proof { lemma_find_from_facts(v@, qs@, 1); }
                                return Some(sub_chars(&v, 1, e));
                            },
                            None => return None,
                        }
                    }
                }
                from = after;
            },
        }
    }
    None
}

// ------------------------------------------------------------------ rendered README

/// Text of an optional attribute, lower-cased (empty when absent).
pub open spec fn lower_or_empty(a: Option<Seq<char>>) -> Seq<char> {
    match a {
        Some(s) => lower(s),
        None => Seq::empty(),
    }
}

/// Badges, logos and widgets: skipped when looking for a real picture.
pub open spec fn html_image_skipped(src: Seq<char>, canonical: Option<Seq<char>>, alt: Option<Seq<char>>) -> bool {
    let probe = lower(src) + " "@ + lower_or_empty(canonical);
    let a = lower_or_empty(alt);
    contains(probe, "shields.io"@) || contains(probe, "badge"@) || contains(probe, ".svg"@)
        || contains(probe, "discordapp.com/api"@) || contains(probe, "widget"@) || contains(a, "logo"@)
        || contains(a, "badge"@) || contains(a, "discord"@)
}

/// End of the tag that starts at `start`: its `>`, or the end of the text.
pub open spec fn tag_end(html: Seq<char>, start: int) -> int {
    match first_in_from(html, seq!['>'], start) {
        Some(e) => e,
        None => html.len() as int,
    }
}

/// First picture among the `<img>` tags from position `i` on: the `src` of
/// the first tag that has one, is not a badge, logo or widget, and points
/// at an allowed host.
pub open spec fn html_image_from(html: Seq<char>, i: int) -> Option<Seq<char>>
    decreases html.len() + 1 - i,
{
    if i < 0 {
        None
    } else {
        let l = lower(html);
        proof {
            lemma_find_from_facts(l, "<img"@, i);
            reveal_strlit("<img");
            if let Some(start) = find_from(l, "<img"@, i) {
                lemma_first_in_from(html, seq!['>'], start);
            }
        }
        match find_from(l, "<img"@, i) {
            None => None,
            Some(start) => {
                let end = tag_end(html, start);
                let next = if end > start + 4 { end } else { start + 4 };
                let tag = html.subrange(start, end);
                match spec_attr(tag, "src"@) {
                    None => html_image_from(html, next),
                    Some(src) => {
                        if !html_image_skipped(src, spec_attr(tag, "data-canonical-src"@), spec_attr(tag, "alt"@))
                            && spec_allowed_image_host(src) {
                            Some(src)
                        } else {
                            html_image_from(html, next)
                        }
                    },
                }
            },
        }
    }
}

pub open spec fn spec_first_html_image(html: Seq<char>) -> Option<Seq<char>> {
    html_image_from(html, 0)
}

fn opt_lower(a: &Option<Vec<char>>) -> (r: Vec<char>)
    ensures
        r@ == lower_or_empty(match a { Some(v) => Some(v@), None => None }),
{
    match a {
        Some(v) => lower_exec(v),
        None => Vec::new(),
    }
}

fn html_image_skipped_exec(src: &Vec<char>, canonical: &Option<Vec<char>>, alt: &Option<Vec<char>>) -> (r: bool)
    ensures
        r == html_image_skipped(
            src@,
            match canonical { Some(v) => Some(v@), None => None },
            match alt { Some(v) => Some(v@), None => None },
        ),
{
    let mut probe = lower_exec(src);
    probe.push(' ');
    let c = opt_lower(canonical);
    push_all(&mut probe, &c);
    proof { reveal_strlit(" "); }
    assert(probe@ =~= lower(src@) + " "@ + lower_or_empty(match canonical { Some(v) => Some(v@), None => None }));
    let a = opt_lower(alt);
    contains_lit(&probe, "shields.io") || contains_lit(&probe, "badge") || contains_lit(&probe, ".svg")
        || contains_lit(&probe, "discordapp.com/api") || contains_lit(&probe, "widget")
        || contains_lit(&a, "logo") || contains_lit(&a, "badge") || contains_lit(&a, "discord")
}

/// The first real picture of GitHub's rendered README: images there come
/// through GitHub's own proxy, so nothing off-GitHub is fetched.
pub fn first_html_image(html: &str) -> (r: Option<String>)
    ensures
        match r {
            Some(u) => spec_first_html_image(html@) == Some(u@),
            None => spec_first_html_image(html@) is None,
        },
{
    let h = chars_of(html);
    let l = lower_exec(&h);
    let img = chars_of("<img");
    let gt = vec!['>'];
    assert(gt@ =~= seq!['>']);
    let src_name = chars_of("src");
    let canon_name = chars_of("data-canonical-src");
    let alt_name = chars_of("alt");
    proof {
        reveal_strlit("src");
        reveal_strlit("data-canonical-src");
        reveal_strlit("alt");
    }
    let mut i: usize = 0;
    while i <= h.len()
        invariant
            h@ == html@,
            l@ == lower(html@),
            img@ == "<img"@,
            gt@ == seq!['>'],
            src_name@ == "src"@,
            canon_name@ == "data-canonical-src"@,
            alt_name@ == "alt"@,
            src_name@.len() > 0,
            canon_name@.len() > 0,
            alt_name@.len() > 0,
            spec_first_html_image(html@) == html_image_from(html@, i as int),
        decreases h.len() + 1 - i,
    {
        proof { lemma_find_from_facts(l@, img@, i as int); }
        match find_from_exec(&l, &img, i) {
            None => return None,
            Some(start) => {
                proof {
                    lemma_first_in_from(h@, gt@, start as int);
                    reveal_strlit("<img");
                }
                let end = match first_in_from_exec(&h, &gt, start) {
                    Some(e) => e,
                    None => h.len(),
                };
                let next = if end > start + 4 { end } else { start + 4 };
                let tag = sub_chars(&h, start, end);
                match attr_exec(&tag, &src_name) {
                    None => {},
                    Some(src) => {
                        let canonical = attr_exec(&tag, &canon_name);
                        let alt = attr_exec(&tag, &alt_name);
                        if !html_image_skipped_exec(&src, &canonical, &alt) && allowed_chars(&src) {
                            return Some(string_of(&src));
                        }
                    },
                }
                i = next;
            },
        }
    }
    None
}

// ------------------------------------------------------------------ markdown README

/// A picture reference found in a README: where it starts and its address.
pub type Candidate = (usize, Vec<char>);

pub open spec fn cand_views(c: Seq<Candidate>) -> Seq<(int, Seq<char>)> {
    c.map_values(|x: Candidate| (x.0 as int, x.1@))
}

/// End of a markdown image address: the first `)`, space or newline from
/// `after`, else the end of the text.
pub open spec fn md_url_end(md: Seq<char>, after: int) -> int {
    match first_in_from(md, seq![')', ' ', '\n'], after) {
        Some(e) => e,
        None => md.len() as int,
    }
}

/// `![alt](url)` references from position `i` on, with their positions.
pub open spec fn md_candidates_from(md: Seq<char>, i: int) -> Seq<(int, Seq<char>)>
    decreases md.len() + 1 - i,
{
    if i < 0 {
        seq![]
    } else {
        proof {
            lemma_find_from_facts(md, "!["@, i);
            reveal_strlit("![");
        }
        match find_from(md, "!["@, i) {
            None => seq![],
            Some(start) => {
                let rest = md_candidates_from(md, start + 2);
                match find_from(md, "]("@, start) {
                    Some(close) => seq![(start, trim(md.subrange(close + 2, md_url_end(md, close + 2))))] + rest,
                    None => rest,
                }
            },
        }
    }
}

/// The quote character after `src=` at `q` (a `"` is assumed at the end).
pub open spec fn quote_at(md: Seq<char>, q: int) -> char {
    if q < md.len() { md[q] } else { '"' }
}

/// `<img ... src="url">` references from position `i` on, with the
/// positions of their tags.
pub open spec fn img_candidates_from(md: Seq<char>, i: int) -> Seq<(int, Seq<char>)>
    decreases md.len() + 1 - i,
{
    if i < 0 {
        seq![]
    } else {
        let l = lower(md);
        proof {
            lemma_find_from_facts(l, "<img"@, i);
            reveal_strlit("<img");
        }
        match find_from(l, "<img"@, i) {
            None => seq![],
            Some(start) => {
                let rest = img_candidates_from(md, start + 4);
                match find_from(l, "src="@, start) {
                    None => rest,
                    Some(at) => {
                        let q = at + 4;
                        let quote = quote_at(md, q);
                        if quote == '"' || quote == '\'' {
                            match find_from(md, seq![quote], q + 1) {
                                Some(e) => seq![(start, trim(md.subrange(q + 1, e)))] + rest,
                                None => rest,
                            }
                        } else {
                            rest
                        }
                    },
                }
            },
        }
    }
}

/// The inputs on which the `<img` scan is defined: no `src=` that a tag
/// reaches ends the text right before its opening quote.
pub open spec fn img_scan_defined(md: Seq<char>) -> bool {
    forall|p: int| #[trigger] occurs_at(lower(md), "<img"@, p) ==> find_from(lower(md), "src="@, p) != Some(md.len() - 4)
}

/// Two position-ordered lists merged by position.
pub open spec fn merge_by_pos(a: Seq<(int, Seq<char>)>, b: Seq<(int, Seq<char>)>) -> Seq<(int, Seq<char>)>
    decreases a.len() + b.len(),
{
    if a.len() == 0 {
        b
    } else if b.len() == 0 {
        a
    } else if a[0].0 <= b[0].0 {
        seq![a[0]] + merge_by_pos(a.drop_first(), b)
    } else {
        seq![b[0]] + merge_by_pos(a, b.drop_first())
    }
}

/// `s` with its first `p` replaced by `t` (`replacen(p, t, 1)`).
pub open spec fn replace_first(s: Seq<char>, p: Seq<char>, t: Seq<char>) -> Seq<char> {
    match find_from(s, p, 0) {
        Some(k) => s.take(k) + t + s.skip(k + p.len()),
        None => s,
    }
}

/// What a README picture reference becomes: `None` for a badge, else the
/// absolute address (relative paths against the repository's raw HEAD,
/// `github.com/../blob/..` pages as raw files) when its host is allowed.
pub open spec fn resolve_candidate(url: Seq<char>, repo: Seq<char>) -> Option<Seq<char>> {
    let l = lower(url);
    if contains(l, "shields.io"@) || contains(l, "badge"@) || ends_with(l, ".svg"@) {
        None
    } else {
        let u = if !starts_with(l, "http"@) {
            "https://raw.githubusercontent.com/"@ + repo + "/HEAD/"@ + skip_in(strip_prefix_all(url, "./"@), seq!['/'])
        } else if starts_with(url, "https://github.com/"@) && contains(url.skip(19), "/blob/"@) {
            "https://raw.githubusercontent.com/"@ + replace_first(url.skip(19), "/blob/"@, "/"@)
        } else {
            url
        };
        if spec_allowed_image_host(u) { Some(u) } else { None }
    }
}

/// The first reference that resolves to an allowed picture.
pub open spec fn pick_first(c: Seq<(int, Seq<char>)>, repo: Seq<char>) -> Option<Seq<char>>
    decreases c.len(),
{
    if c.len() == 0 {
        None
    } else {
        match resolve_candidate(c[0].1, repo) {
            Some(u) => Some(u),
            None => pick_first(c.drop_first(), repo),
        }
    }
}

/// First picture of a markdown README, markdown and html references taken
/// in order of position.
pub open spec fn spec_first_readme_image(md: Seq<char>, repo: Seq<char>) -> Option<Seq<char>> {
    pick_first(merge_by_pos(md_candidates_from(md, 0), img_candidates_from(md, 0)), repo)
}

fn md_candidates(md: &Vec<char>) -> (r: Vec<Candidate>)
    ensures
        cand_views(r@) == md_candidates_from(md@, 0),
{
    let open = chars_of("![");
    let close = chars_of("](");
    let stops = vec![')', ' ', '\n'];
    assert(stops@ =~= seq![')', ' ', '\n']);
    proof {
        reveal_strlit("![");
        reveal_strlit("](");
    }
    let mut out: Vec<Candidate> = Vec::new();
    let mut i: usize = 0;
    while i <= md.len()
        invariant
            open@ == "!["@,
            close@ == "]("@,
            open@.len() == 2,
            close@.len() == 2,
            stops@ == seq![')', ' ', '\n'],
            cand_views(out@) + md_candidates_from(md@, i as int) == md_candidates_from(md@, 0),
        decreases md.len() + 1 - i,
    {
        proof { lemma_find_from_facts(md@, open@, i as int); }
        match find_from_exec(md, &open, i) {
            None => {
                assert(cand_views(out@) =~= cand_views(out@) + md_candidates_from(md@, i as int));
                return out;
            },
            Some(start) => {
                proof { lemma_find_from_facts(md@, close@, start as int); }
                match find_from_exec(md, &close, start) {
                    Some(c) => {
                        let after = c + 2;
                        proof { lemma_first_in_from(md@, stops@, after as int); }
                        let end = match first_in_from_exec(md, &stops, after) {
                            Some(e) => e,
                            None => md.len(),
                        };
                        let raw = sub_chars(md, after, end);
                        let url = trim_exec(&raw);
                        let ghost before = cand_views(out@);
                        out.push((start, url));
                        assert(cand_views(out@) =~= before.push((start as int, url@)));
                        assert(cand_views(out@) + md_candidates_from(md@, start + 2) =~= before
                            + md_candidates_from(md@, i as int));
                    },
                    None => {},
                }
                i = start + 2;
            },
        }
    }
    assert(md_candidates_from(md@, i as int) =~= seq![]) by {
        lemma_find_from_facts(md@, open@, i as int);
    }
    assert(cand_views(out@) =~= cand_views(out@) + md_candidates_from(md@, i as int));
    out
}

fn img_candidates(md: &Vec<char>) -> (r: Vec<Candidate>)
    requires
        img_scan_defined(md@),
    ensures
        cand_views(r@) == img_candidates_from(md@, 0),
{
    let l = lower_exec(md);
    let img = chars_of("<img");
    let src = chars_of("src=");
    proof {
        reveal_strlit("<img");
        reveal_strlit("src=");
    }
    let mut out: Vec<Candidate> = Vec::new();
    let mut i: usize = 0;
    while i <= md.len()
        invariant
            l@ == lower(md@),
            l@.len() == md@.len(),
            img@ == "<img"@,
            src@ == "src="@,
            img@.len() == 4,
            src@.len() == 4,
            img_scan_defined(md@),
            cand_views(out@) + img_candidates_from(md@, i as int) == img_candidates_from(md@, 0),
        decreases md.len() + 1 - i,
    {
        proof { lemma_find_from_facts(l@, img@, i as int); }
        match find_from_exec(&l, &img, i) {
            None => {
                assert(cand_views(out@) =~= cand_views(out@) + img_candidates_from(md@, i as int));
                return out;
            },
            Some(start) => {
                proof { lemma_find_from_facts(l@, src@, start as int); }
                match find_from_exec(&l, &src, start) {
                    None => {},
                    Some(at) => {
                        let q = at + 4;
                        let quote = if q < md.len() { md[q] } else { '"' };
                        if quote == '"' || quote == '\'' {
                            assert(q < md@.len()) by {
                                assert(occurs_at(lower(md@), "<img"@, start as int));
                            }
                            let qs = vec![quote];
                            assert(qs@ =~= seq![quote_at(md@, q as int)]);
                            proof { lemma_find_from_facts(md@, qs@, q + 1); }
                            match find_from_exec(md, &qs, q + 1) {
                                Some(e) => {
                                    let raw = sub_chars(md, q + 1, e);
                                    let url = trim_exec(&raw);
                                    let ghost before = cand_views(out@);
                                    out.push((start, url));
                                    assert(cand_views(out@) =~= before.push((start as int, url@)));
                                    assert(cand_views(out@) + img_candidates_from(md@, start + 4) =~= before
                                        + img_candidates_from(md@, i as int));
                                },
                                None => {},
                            }
                        }
                    },
                }
                i = start + 4;
            },
        }
    }
    assert(img_candidates_from(md@, i as int) =~= seq![]) by {
        lemma_find_from_facts(l@, img@, i as int);
    }
    assert(cand_views(out@) =~= cand_views(out@) + img_candidates_from(md@, i as int));
    out
}

fn resolve_candidate_exec(url: &Vec<char>, repo: &Vec<char>) -> (r: Option<Vec<char>>)
    ensures
        match r {
            Some(u) => resolve_candidate(url@, repo@) == Some(u@),
            None => resolve_candidate(url@, repo@) is None,
        },
{
    let l = lower_exec(url);
    if contains_lit(&l, "shields.io") || contains_lit(&l, "badge") || ends_lit(&l, ".svg") {
        return None;
    }
    let http = chars_of("http");
    let gh = chars_of("https://github.com/");
    proof { reveal_strlit("https://github.com/"); }
    let u: Vec<char> = if !starts_with_exec(&l, &http) {
        let dot = chars_of("./");
        let a = strip_prefix_all_exec(url, &dot);
        let slash = vec!['/'];
        assert(slash@ =~= seq!['/']);
        let rel = skip_in_exec(&a, &slash);
        let mut v = chars_of("https://raw.githubusercontent.com/");
        push_all(&mut v, repo);
        let h = chars_of("/HEAD/");
        push_all(&mut v, &h);
        push_all(&mut v, &rel);
        v
    } else if starts_with_exec(url, &gh) && contains_lit(&sub_chars(url, 19, url.len()), "/blob/") {
        let rest = sub_chars(url, 19, url.len());
        assert(rest@ =~= url@.skip(19));
        let blob = chars_of("/blob/");
        proof {
            reveal_strlit("/blob/");
            lemma_find_from_facts(rest@, blob@, 0);
        }
        let mut v = chars_of("https://raw.githubusercontent.com/");
        match find_from_exec(&rest, &blob, 0) {
            Some(k) => {
                let a = sub_chars(&rest, 0, k);
                push_all(&mut v, &a);
                v.push('/');
                let b = sub_chars(&rest, k + 6, rest.len());
                push_all(&mut v, &b);
                proof { reveal_strlit("/"); }
                assert(v@ =~= "https://raw.githubusercontent.com/"@ + replace_first(rest@, "/blob/"@, "/"@));
            },
            None => {
                push_all(&mut v, &rest);
            },
        }
        v
    } else {
        copy_chars(url)
    };
    if allowed_chars(&u) {
        Some(u)
    } else {
        None
    }
}

/// First picture of a markdown README: `![alt](url)` or `<img src="url">`,
/// whichever comes first, skipping badges; relative paths resolve against
/// the repository's raw HEAD; only allowed hosts are returned.
pub fn first_readme_image(md: &str, repo: &str) -> (r: Option<String>)
    requires
        img_scan_defined(md@),
    ensures
        match r {
            Some(u) => spec_first_readme_image(md@, repo@) == Some(u@),
            None => spec_first_readme_image(md@, repo@) is None,
        },
{
    let m = chars_of(md);
    let rp = chars_of(repo);
    let a = md_candidates(&m);
    let b = img_candidates(&m);
    let ghost av = cand_views(a@);
    let ghost bv = cand_views(b@);
    assert(av.skip(0) =~= av);
    assert(bv.skip(0) =~= bv);
    let mut i: usize = 0;
    let mut j: usize = 0;
    while i < a.len() || j < b.len()
        invariant
            i <= a.len(),
            j <= b.len(),
            av == cand_views(a@),
            bv == cand_views(b@),
            rp@ == repo@,
            spec_first_readme_image(md@, repo@) == pick_first(merge_by_pos(av.skip(i as int), bv.skip(j as int)), repo@),
        decreases a.len() + b.len() - i - j,
    {
        let take_a = i < a.len() && (j >= b.len() || a[i].0 <= b[j].0);
        let ghost sa = av.skip(i as int);
        let ghost sb = bv.skip(j as int);
        let url: &Vec<char> = if take_a { &a[i].1 } else { &b[j].1 };
        proof {
            if take_a {
                assert(sa.drop_first() =~= av.skip(i + 1));
                assert(merge_by_pos(sa, sb) == seq![sa[0]] + merge_by_pos(av.skip(i + 1), sb));
                assert((seq![sa[0]] + merge_by_pos(av.skip(i + 1), sb)).drop_first()
                    =~= merge_by_pos(av.skip(i + 1), sb));
            } else {
                assert(sb.drop_first() =~= bv.skip(j + 1));
                assert(merge_by_pos(sa, sb) == seq![sb[0]] + merge_by_pos(sa, bv.skip(j + 1)));
                assert((seq![sb[0]] + merge_by_pos(sa, bv.skip(j + 1))).drop_first()
                    =~= merge_by_pos(sa, bv.skip(j + 1)));
            }
        }
        match resolve_candidate_exec(url, &rp) {
            Some(u) => return Some(string_of(&u)),
            None => {},
        }
        if take_a {
            i = i + 1;
        } else {
            j = j + 1;
        }
    }
    assert(av.skip(i as int) =~= seq![]);
    assert(bv.skip(j as int) =~= seq![]);
    None
}

// ------------------------------------------------------------------ README excerpt

/// Bytes a character takes in UTF-8.
pub open spec fn char_utf8_len(c: char) -> nat {
    if (c as u32) < 0x80 {
        1
    } else if (c as u32) < 0x800 {
        2
    } else if (c as u32) < 0x10000 {
        3
    } else {
        4
    }
}

/// Bytes a text takes in UTF-8 (`str::len`).
pub open spec fn utf8_len(s: Seq<char>) -> nat
    decreases s.len(),
{
    if s.len() == 0 {
        0
    } else {
        utf8_len(s.drop_last()) + char_utf8_len(s.last())
    }
}

/// Longest prose kept, in bytes.
pub const EXCERPT_BYTES: usize = 700;

/// `[text](url)` links reduced to their text, left to right, while the
/// first `[` comes before the first `](` and a `)` follows it.
pub open spec fn reduce_links(s: Seq<char>) -> Seq<char>
    decreases s.len(),
{
    proof {
        lemma_find_from_facts(s, "]("@, 0);
        reveal_strlit("](");
        lemma_first_in_from(s, seq!['['], 0);
    }
    match (find_from(s, "]("@, 0), first_in_from(s, seq!['['], 0)) {
        (Some(a), Some(b)) => {
            if b < a {
                proof { lemma_first_in_from(s, seq![')'], a); }
                match first_in_from(s, seq![')'], a) {
                    Some(c) => {
                        proof {
                            assert(s.subrange(a, a + 2) == "]("@);
                            assert(s[a] == s.subrange(a, a + 2)[0]);
                        }
                        reduce_links(s.take(b) + s.subrange(b + 1, a) + s.skip(c + 1))
                    },
                    None => s,
                }
            } else {
                s
            }
        },
        _ => s,
    }
}

/// Every occurrence of `p` removed, left to right (`replace(p, "")`).
pub open spec fn remove_all(s: Seq<char>, p: Seq<char>) -> Seq<char>
    decreases s.len(),
{
    if p.len() == 0 {
        s
    } else {
        proof { lemma_find_from_facts(s, p, 0); }
        match find_from(s, p, 0) {
            Some(k) => s.take(k) + remove_all(s.skip(k + p.len()), p),
            None => s,
        }
    }
}

/// A list item's `- ` or `* ` marker shown as a bullet.
pub open spec fn bullet(s: Seq<char>) -> Seq<char> {
    if starts_with(s, "- "@) || starts_with(s, "* "@) {
        seq!['\u{2022}', ' '] + s.skip(2)
    } else {
        s
    }
}

/// A line of prose as plain text: links to their text, `**` and `` ` `` dropped.
pub open spec fn prose_line(line: Seq<char>) -> Seq<char> {
    bullet(remove_all(remove_all(reduce_links(line), "**"@), "`"@))
}

/// Lines that are not prose: headings, badges, images, html, tables, rules.
pub open spec fn markup_line(line: Seq<char>) -> bool {
    line.len() == 0 || starts_with(line, "#"@) || starts_with(line, "[!["@) || starts_with(line, "!["@)
        || starts_with(line, "<"@) || starts_with(line, "|"@) || starts_with(line, "---"@)
}

/// The excerpt so far, whether inside a code block, and whether it is full.
pub type ExcerptState = (Seq<char>, bool, bool);

pub open spec fn excerpt_step(st: ExcerptState, raw: Seq<char>) -> ExcerptState {
    let (out, in_code, full) = st;
    let line = trim(raw);
    if full {
        st
    } else if starts_with(line, "```"@) {
        (out, !in_code, false)
    } else if in_code || markup_line(line) {
        if line.len() == 0 && out.len() > 0 && !ends_with(out, "\n\n"@) {
            (out + "\n\n"@, in_code, false)
        } else {
            (out, in_code, false)
        }
    } else {
        let sep = if out.len() > 0 && out.last() != '\n' { out.push(' ') } else { out };
        let next = sep + prose_line(line);
        (next, in_code, utf8_len(next) > EXCERPT_BYTES)
    }
}

pub open spec fn excerpt_fold(ls: Seq<Seq<char>>) -> ExcerptState
    decreases ls.len(),
{
    if ls.len() == 0 {
        (Seq::empty(), false, false)
    } else {
        excerpt_step(excerpt_fold(ls.drop_last()), ls.last())
    }
}

/// How many leading characters of `t` start before byte `limit`, counting from `j`.
pub open spec fn chars_before(t: Seq<char>, limit: nat, j: int) -> int
    decreases t.len() - j,
{
    if j < 0 || j >= t.len() || utf8_len(t.take(j)) >= limit {
        j
    } else {
        chars_before(t, limit, j + 1)
    }
}

/// Plain-text excerpt of a README: code blocks, headings, badges, images,
/// html, tables and rules dropped, links reduced to their text, prose lines
/// joined by spaces and paragraphs by a blank line, stopping once past 700
/// bytes; a longer result is cut after the last character that starts
/// before byte 700 and ends with `…`.
pub open spec fn spec_readme_excerpt(md: Seq<char>) -> Seq<char> {
    let t = trim(excerpt_fold(lines(md)).0);
    if utf8_len(t) > EXCERPT_BYTES {
        t.take(chars_before(t, EXCERPT_BYTES as nat, 0)).push('\u{2026}')
    } else {
        t
    }
}

fn char_utf8_len_exec(c: char) -> (r: usize)
    ensures
        r == char_utf8_len(c),
        1 <= r <= 4,
{
    let v = c as u32;
    if v < 0x80 {
        1
    } else if v < 0x800 {
        2
    } else if v < 0x10000 {
        3
    } else {
        4
    }
}

proof fn lemma_utf8_len_append(a: Seq<char>, b: Seq<char>)
    ensures
        utf8_len(a + b) == utf8_len(a) + utf8_len(b),
    decreases b.len(),
{
    if b.len() == 0 {
        assert(a + b =~= a);
    } else {
        assert((a + b).drop_last() =~= a + b.drop_last());
        lemma_utf8_len_append(a, b.drop_last());
    }
}

/// `min(utf8_len(s), cap)`.
fn utf8_len_capped(s: &Vec<char>, cap: usize) -> (r: usize)
    requires
        cap <= 1000,
    ensures
        r == if utf8_len(s@) < cap { utf8_len(s@) } else { cap as nat },
{
    let mut n: usize = 0;
    let mut i: usize = 0;
    while i < s.len() && n < cap
        invariant
            i <= s.len(),
            cap <= 1000,
            n == utf8_len(s@.take(i as int)),
        decreases s.len() - i,
    {
        assert(s@.take(i + 1).drop_last() =~= s@.take(i as int));
        n = n + char_utf8_len_exec(s[i]);
        i = i + 1;
    }
    if n < cap {
        assert(s@.take(i as int) =~= s@);
        n
    } else {
        proof {
            lemma_utf8_len_append(s@.take(i as int), s@.skip(i as int));
            assert(s@.take(i as int) + s@.skip(i as int) =~= s@);
        }
        cap
    }
}

fn reduce_links_exec(line: &Vec<char>) -> (r: Vec<char>)
    ensures
        r@ == reduce_links(line@),
{
    let close = chars_of("](");
    proof { reveal_strlit("]("); }
    let open = vec!['['];
    assert(open@ =~= seq!['[']);
    let paren = vec![')'];
    assert(paren@ =~= seq![')']);
    let mut s = copy_chars(line);
    loop
        invariant
            close@ == "]("@,
            close@.len() == 2,
            open@ == seq!['['],
            paren@ == seq![')'],
            reduce_links(s@) == reduce_links(line@),
        decreases s.len(),
    {
        proof {
            lemma_find_from_facts(s@, close@, 0);
            lemma_first_in_from(s@, open@, 0);
        }
        let a = match find_from_exec(&s, &close, 0) {
            Some(a) => a,
            None => return s,
        };
        let b = match first_in_from_exec(&s, &open, 0) {
            Some(b) => b,
            None => return s,
        };
        if b >= a {
            return s;
        }
        proof { lemma_first_in_from(s@, paren@, a as int); }
        let c = match first_in_from_exec(&s, &paren, a) {
            Some(c) => c,
            None => return s,
        };
        proof {
            assert(s@.subrange(a as int, a + 2) == "]("@);
            assert(s@[a as int] == s@.subrange(a as int, a + 2)[0]);
        }
        let mut t = sub_chars(&s, 0, b);
        let mid = sub_chars(&s, b + 1, a);
        push_all(&mut t, &mid);
        let tail = sub_chars(&s, c + 1, s.len());
        push_all(&mut t, &tail);
        assert(t@ =~= s@.take(b as int) + s@.subrange(b + 1, a as int) + s@.skip(c + 1));
        s = t;
    }
}

fn remove_all_exec(s: &Vec<char>, p: &Vec<char>) -> (r: Vec<char>)
    requires
        p@.len() > 0,
    ensures
        r@ == remove_all(s@, p@),
{
    let mut out: Vec<char> = Vec::new();
    let mut i: usize = 0;
    assert(s@.skip(0) =~= s@);
    while i <= s.len()
        invariant
            i <= s.len(),
            p@.len() > 0,
            out@ + remove_all(s@.skip(i as int), p@) == remove_all(s@, p@),
        decreases s.len() + 1 - i,
    {
        let rest = sub_chars(s, i, s.len());
        assert(rest@ =~= s@.skip(i as int));
        proof { lemma_find_from_facts(rest@, p@, 0); }
        match find_from_exec(&rest, p, 0) {
            Some(k) => {
                let head = sub_chars(&rest, 0, k);
                let ghost before = out@;
                push_all(&mut out, &head);
                assert(rest@.take(k as int) =~= head@);
                assert(rest@.skip(k + p.len()) =~= s@.skip(i + k + p.len()));
                assert(out@ + remove_all(s@.skip(i + k + p.len()), p@) =~= before + remove_all(s@.skip(i as int), p@));
                i = i + k + p.len();
            },
            None => {
                push_all(&mut out, &rest);
                return out;
            },
        }
    }
    out
}

fn prose_line_exec(line: &Vec<char>) -> (r: Vec<char>)
    ensures
        r@ == prose_line(line@),
{
    let a = reduce_links_exec(line);
    let stars = chars_of("**");
    let tick = chars_of("`");
    proof {
        reveal_strlit("**");
        reveal_strlit("`");
        reveal_strlit("- ");
        reveal_strlit("* ");
    }
    let b = remove_all_exec(&a, &stars);
    let c = remove_all_exec(&b, &tick);
    let dash = chars_of("- ");
    let star = chars_of("* ");
    if starts_with_exec(&c, &dash) || starts_with_exec(&c, &star) {
        let mut out: Vec<char> = Vec::new();
        out.push('\u{2022}');
        out.push(' ');
        let rest = sub_chars(&c, 2, c.len());
        push_all(&mut out, &rest);
        assert(out@ =~= seq!['\u{2022}', ' '] + c@.skip(2));
        out
    } else {
        c
    }
}

fn markup_line_exec(line: &Vec<char>) -> (r: bool)
    ensures
        r == markup_line(line@),
{
    let hash = chars_of("#");
    let badge = chars_of("[![");
    let image = chars_of("![");
    let tag = chars_of("<");
    let pipe = chars_of("|");
    let rule = chars_of("---");
    line.len() == 0 || starts_with_exec(line, &hash) || starts_with_exec(line, &badge)
        || starts_with_exec(line, &image) || starts_with_exec(line, &tag) || starts_with_exec(line, &pipe)
        || starts_with_exec(line, &rule)
}

/// Plain-text excerpt of a README (see `spec_readme_excerpt`).
pub fn readme_excerpt(md: &str) -> (r: String)
    ensures
        r@ == spec_readme_excerpt(md@),
{
    let m = chars_of(md);
    let ls = lines_exec(&m);
    let ghost lv = views(ls@);
    let fence = chars_of("```");
    let para = chars_of("\n\n");
    proof {
        reveal_strlit("\n\n");
        reveal_strlit(" ");
    }
    let mut out: Vec<char> = Vec::new();
    let mut in_code = false;
    let mut full = false;
    let mut i: usize = 0;
    while i < ls.len()
        invariant
            i <= ls.len(),
            lv == views(ls@),
            lv == lines(md@),
            fence@ == "```"@,
            para@ == "\n\n"@,
            para@.len() == 2,
            (out@, in_code, full) == excerpt_fold(lv.take(i as int)),
        decreases ls.len() - i,
    {
        assert(lv.take(i + 1).drop_last() =~= lv.take(i as int));
        if !full {
            let line = trim_exec(&ls[i]);
            if starts_with_exec(&line, &fence) {
                in_code = !in_code;
            } else if in_code || markup_line_exec(&line) {
                if line.len() == 0 && out.len() > 0 && !ends_with_exec(&out, &para) {
                    let ghost before = out@;
                    push_all(&mut out, &para);
                }
            } else {
                if out.len() > 0 && out[out.len() - 1] != '\n' {
                    out.push(' ');
                }
                let p = prose_line_exec(&line);
                push_all(&mut out, &p);
                let n = utf8_len_capped(&out, 701);
                full = n > 700;
            }
        }
        i = i + 1;
    }
    assert(lv.take(ls.len() as int) =~= lv);
    let t = trim_exec(&out);
    let n = utf8_len_capped(&t, 701);
    if n <= 700 {
        return string_of(&t);
    }
    let mut j: usize = 0;
    let mut off: usize = 0;
    while j < t.len() && off < 700
        invariant
            j <= t.len(),
            off == utf8_len(t@.take(j as int)),
            off <= 703,
            chars_before(t@, 700, 0) == chars_before(t@, 700, j as int),
        decreases t.len() - j,
    {
        assert(t@.take(j + 1).drop_last() =~= t@.take(j as int));
        off = off + char_utf8_len_exec(t[j]);
        j = j + 1;
    }
    let mut cut = sub_chars(&t, 0, j);
    cut.push('\u{2026}');
    assert(cut@ =~= t@.take(j as int).push('\u{2026}'));
    string_of(&cut)
}

/// Does the `<img` scan of `first_readme_image` have a defined result on `md`?
pub fn readme_scan_defined(md: &str) -> (r: bool)
    ensures
        r == img_scan_defined(md@),
{
    let m = chars_of(md);
    let l = lower_exec(&m);
    let img = chars_of("<img");
    let src = chars_of("src=");
    proof {
        reveal_strlit("<img");
        reveal_strlit("src=");
    }
    let mut p: usize = 0;
    while p <= l.len()
        invariant
            l@ == lower(md@),
            l@.len() == md@.len(),
            img@ == "<img"@,
            src@ == "src="@,
            img@.len() == 4,
            src@.len() == 4,
            forall|q: int| 0 <= q < p && #[trigger] occurs_at(lower(md@), "<img"@, q)
                ==> find_from(lower(md@), "src="@, q) != Some(md@.len() - 4),
        decreases l.len() + 1 - p,
    {
        proof { lemma_find_from_facts(l@, img@, p as int); }
        match find_from_exec(&l, &img, p) {
            None => {
                return true;
            },
            Some(start) => {
                proof { lemma_find_from_facts(l@, src@, start as int); }
                match find_from_exec(&l, &src, start) {
                    Some(at) => {
                        if at == l.len() - 4 {
                            return false;
                        }
                    },
                    None => {},
                }
                p = start + 1;
            },
        }
    }
    assert forall|q: int| #[trigger] occurs_at(lower(md@), "<img"@, q)
        implies find_from(lower(md@), "src="@, q) != Some(md@.len() - 4) by {
        assert(q < p);
    }
    true
}

// ------------------------------------------------------------------ README details

/// Summary and preview picture of a repository's README.
#[derive(Clone, Debug)]
pub struct Details {
    pub summary: Option<String>,
    pub image: Option<String>,
}

impl Default for Details {
    fn default() -> (r: Self)
        ensures
            r.summary is None && r.image is None,
    {
        Details { summary: None, image: None }
    }
}

/// The summary of a README: its excerpt, unless that is empty.
pub open spec fn spec_summary(md: Seq<char>) -> Option<Seq<char>> {
    let e = spec_readme_excerpt(md);
    if e.len() > 0 { Some(e) } else { None }
}

/// The preview address: the rendered README's first picture when there is
/// one, else the markdown's.
pub open spec fn spec_preview_url(md: Seq<char>, html: Option<Seq<char>>, repo: Seq<char>) -> Option<Seq<char>> {
    match html {
        Some(h) => match spec_first_html_image(h) {
            Some(u) => Some(u),
            None => spec_first_readme_image(md, repo),
        },
        None => spec_first_readme_image(md, repo),
    }
}

pub open spec fn opt_view(o: Option<String>) -> Option<Seq<char>> {
    match o {
        Some(s) => Some(s@),
        None => None,
    }
}

/// What a fetched README gives: its summary and the address of its
/// preview picture (`html` is GitHub's rendering, when it could be had).
pub fn readme_details(md: &str, html: Option<&str>, repo: &str) -> (r: (Option<String>, Option<String>))
    requires
        (match html {
            Some(h) => spec_first_html_image(h@) is None,
            None => true,
        }) ==> img_scan_defined(md@),
    ensures
        opt_view(r.0) == spec_summary(md@),
        opt_view(r.1) == spec_preview_url(md@, match html { Some(h) => Some(h@), None => None }, repo@),
{
    let e = readme_excerpt(md);
    let summary = if !e.as_str().is_empty() {
        Some(e)
    } else {
        None
    };
    let from_html = match html {
        Some(h) => first_html_image(h),
        None => None,
    };
    let image = match from_html {
        Some(u) => Some(u),
        None => first_readme_image(md, repo),
    };
    (summary, image)
}

// ------------------------------------------------------------------ data URLs

/// The base64 alphabet of RFC 4648 (`A-Z a-z 0-9 + /`).
pub open spec fn b64_char(v: int) -> char {
    if v < 26 {
        ((65 + v) as u32) as char
    } else if v < 52 {
        ((97 + v - 26) as u32) as char
    } else if v < 62 {
        ((48 + v - 52) as u32) as char
    } else if v == 62 {
        '+'
    } else {
        '/'
    }
}

/// Standard base64 with `=` padding (RFC 4648, section 4).
pub open spec fn base64_standard(b: Seq<u8>) -> Seq<char>
    decreases b.len(),
{
    let x = if b.len() > 0 { b[0] as int } else { 0 };
    let y = if b.len() > 1 { b[1] as int } else { 0 };
    let z = if b.len() > 2 { b[2] as int } else { 0 };
    if b.len() == 0 {
        seq![]
    } else if b.len() == 1 {
        seq![b64_char(x / 4), b64_char((x % 4) * 16), '=', '=']
    } else if b.len() == 2 {
        seq![b64_char(x / 4), b64_char((x % 4) * 16 + y / 16), b64_char((y % 16) * 4), '=']
    } else {
        seq![b64_char(x / 4), b64_char((x % 4) * 16 + y / 16), b64_char((y % 16) * 4 + z / 64), b64_char(z % 64)]
            + base64_standard(b.skip(3))
    }
}

/// `base64::engine::general_purpose::STANDARD.encode`: the standard
/// alphabet with padding, as RFC 4648 defines it.
#[verifier::external_body]
fn encode_base64(bytes: &[u8]) -> (r: String)
    ensures
        r@ == base64_standard(bytes@),
{
    base64::engine::general_purpose::STANDARD.encode(bytes)
}

/// A cached PNG icon as a `data:` URL for the UI.
pub fn png_data_url(png: &[u8]) -> (r: String)
    ensures
        r@ == "data:image/png;base64,"@ + base64_standard(png@),
{
    let mut v = chars_of("data:image/png;base64,");
    let e = encode_base64(png);
    let c = chars_of(e.as_str());
    push_all(&mut v, &c);
    string_of(&v)
}

/// A cached JPEG preview as a `data:` URL for the UI.
pub fn jpeg_data_url(jpeg: &[u8]) -> (r: String)
    ensures
        r@ == "data:image/jpeg;base64,"@ + base64_standard(jpeg@),
{
    let mut v = chars_of("data:image/jpeg;base64,");
    let e = encode_base64(jpeg);
    let c = chars_of(e.as_str());
    push_all(&mut v, &c);
    string_of(&v)
}

// ------------------------------------------------------------------ README addresses

/// The README file names tried, in order.
pub open spec fn readme_names() -> Seq<Seq<char>> {
    seq!["README.md"@, "readme.md"@, "Readme.md"@, "README.MD"@, "README"@]
}

/// The raw addresses of a repository's README, one per name of
/// [`readme_names`], in that order: the first that answers is used.
pub fn readme_urls(repo: &str) -> (r: Vec<String>)
    ensures
        r@.len() == readme_names().len(),
        forall|k: int| 0 <= k < r@.len() ==>
            #[trigger] r@[k]@ == "https://raw.githubusercontent.com/"@ + repo@ + "/HEAD/"@ + readme_names()[k],
{
    let mut names: Vec<Vec<char>> = Vec::new();
    names.push(chars_of("README.md"));
    names.push(chars_of("readme.md"));
    names.push(chars_of("Readme.md"));
    names.push(chars_of("README.MD"));
    names.push(chars_of("README"));
    assert(views(names@) =~= readme_names());
    let pre = chars_of("https://raw.githubusercontent.com/");
    let r = chars_of(repo);
    let mid = chars_of("/HEAD/");
    let mut out: Vec<String> = Vec::new();
    let mut k: usize = 0;
    while k < names.len()
        invariant
            k <= names.len(),
            views(names@) == readme_names(),
            pre@ == "https://raw.githubusercontent.com/"@,
            r@ == repo@,
            mid@ == "/HEAD/"@,
            out@.len() == k,
            forall|j: int| 0 <= j < k ==>
                #[trigger] out@[j]@ == "https://raw.githubusercontent.com/"@ + repo@ + "/HEAD/"@ + readme_names()[j],
        decreases names.len() - k,
    {
        let mut v = copy_chars(&pre);
        push_all(&mut v, &r);
        push_all(&mut v, &mid);
        push_all(&mut v, &names[k]);
        assert(views(names@)[k as int] == names@[k as int]@);
        out.push(string_of(&v));
        k = k + 1;
    }
    out
}

/// The API address that serves a repository's README rendered as html.
pub fn readme_html_url(repo: &str) -> (r: String)
    ensures
        r@ == "https://api.github.com/repos/"@ + repo@ + "/readme"@,
{
    let mut v = chars_of("https://api.github.com/repos/");
    let r = chars_of(repo);
    push_all(&mut v, &r);
    let t = chars_of("/readme");
    push_all(&mut v, &t);
    string_of(&v)
}

// ------------------------------------------------------------------ icon textures

/// Every `from` in `s` replaced by `to`.
pub open spec fn swap_char(s: Seq<char>, from: char, to: char) -> Seq<char> {
    s.map_values(|c: char| if c == from { to } else { c })
}

/// A path component that stays where it is joined: not empty (no root or
/// doubled separator), not `..`, and without `:` (no drive prefix).
pub open spec fn stays_inside(part: Seq<char>) -> bool {
    part.len() > 0 && part != ".."@ && !part.contains(':')
}

/// Every `/`-separated component of a relative path stays inside.
pub open spec fn inside_path(rel: Seq<char>) -> bool {
    forall|i: int| 0 <= i < split_char(rel, '/').len() ==> stays_inside(#[trigger] split_char(rel, '/')[i])
}

/// Where `## IconTexture` points inside `Interface/AddOns`, as a relative
/// path with `/` separators: the trimmed texture, with either slash,
/// must start with `Interface\AddOns\` in any case, and the rest must
/// name a file below that folder (no `..`, root, or drive component).
pub open spec fn spec_texture_rel_path(texture: Seq<char>) -> Option<Seq<char>> {
    let t = swap_char(trim(texture), '/', '\\');
    let rel = swap_char(t.skip(17), '\\', '/');
    if starts_with(lower(t), "interface\\addons\\"@) && inside_path(rel) {
        Some(rel)
    } else {
        None
    }
}

fn inside_path_exec(rel: &Vec<char>) -> (r: bool)
    ensures
        r == inside_path(rel@),
{
    let parts = split_char_exec(rel, '/');
    let dots = chars_of("..");
    let mut i: usize = 0;
    while i < parts.len()
        invariant
            i <= parts.len(),
            views(parts@) == split_char(rel@, '/'),
            dots@ == ".."@,
            forall|k: int| 0 <= k < i ==> stays_inside(#[trigger] split_char(rel@, '/')[k]),
        decreases parts.len() - i,
    {
        let p = &parts[i];
        assert(split_char(rel@, '/')[i as int] == p@);
        if p.len() == 0 || chars_eq(p, &dots) || contains_char(p, ':') {
            return false;
        }
        i = i + 1;
    }
    true
}

fn swap_char_exec(v: &Vec<char>, from: char, to: char) -> (r: Vec<char>)
    ensures
        r@ == swap_char(v@, from, to),
{
    let mut out: Vec<char> = Vec::new();
    let mut i: usize = 0;
    while i < v.len()
        invariant
            i <= v.len(),
            out@ == swap_char(v@.take(i as int), from, to),
        decreases v.len() - i,
    {
        let c = v[i];
        out.push(if c == from { to } else { c });
        i = i + 1;
        assert(out@ =~= swap_char(v@.take(i as int), from, to));
    }
    assert(v@.take(v.len() as int) =~= v@);
    out
}

/// The file an addon's `## IconTexture` names, relative to `Interface/AddOns`
/// (the caller looks for it there, and with a `.tga`, `.blp` or `.png` extension).
pub fn resolve_texture(texture: &str) -> (r: Option<String>)
    ensures
        opt_view(r) == spec_texture_rel_path(texture@),
{
    let raw = chars_of(texture);
    let trimmed = trim_exec(&raw);
    let t = swap_char_exec(&trimmed, '/', '\\');
    let l = lower_exec(&t);
    let pre = chars_of("interface\\addons\\");
    proof { reveal_strlit("interface\\addons\\"); }
    if !starts_with_exec(&l, &pre) {
        return None;
    }
    let rel = sub_chars(&t, 17, t.len());
    assert(rel@ =~= t@.skip(17));
    let out = swap_char_exec(&rel, '\\', '/');
    if !inside_path_exec(&out) {
        return None;
    }
    Some(string_of(&out))
}

// ------------------------------------------------------------------ laws

proof fn lemma_pick_first_allowed(c: Seq<(int, Seq<char>)>, repo: Seq<char>)
    ensures
        pick_first(c, repo) matches Some(u) ==> spec_allowed_image_host(u),
    decreases c.len(),
{
    if c.len() > 0 {
        lemma_pick_first_allowed(c.drop_first(), repo);
    }
}

proof fn lemma_html_image_from_allowed(html: Seq<char>, i: int)
    ensures
        html_image_from(html, i) matches Some(u) ==> spec_allowed_image_host(u),
    decreases html.len() + 1 - i,
{
    if i >= 0 {
        let l = lower(html);
        lemma_find_from_facts(l, "<img"@, i);
        reveal_strlit("<img");
        match find_from(l, "<img"@, i) {
            None => {},
            Some(start) => {
                lemma_first_in_from(html, seq!['>'], start);
                let end = tag_end(html, start);
                let next = if end > start + 4 { end } else { start + 4 };
                lemma_html_image_from_allowed(html, next);
            },
        }
    }
}

/// A README's preview picture only ever comes from an allowed host, be it
/// taken from the rendered html or from the markdown.
pub proof fn law_preview_url_allowed(md: Seq<char>, html: Option<Seq<char>>, repo: Seq<char>)
    ensures
        spec_first_readme_image(md, repo) matches Some(u) ==> spec_allowed_image_host(u),
        html matches Some(h) ==> (spec_first_html_image(h) matches Some(u) ==> spec_allowed_image_host(u)),
        spec_preview_url(md, html, repo) matches Some(u) ==> spec_allowed_image_host(u),
{
    lemma_pick_first_allowed(merge_by_pos(md_candidates_from(md, 0), img_candidates_from(md, 0)), repo);
    if let Some(h) = html {
        lemma_html_image_from_allowed(h, 0);
    }
}

/// An icon texture path never leaves `Interface/AddOns`: every component of
/// the path handed back is a plain name (no `..`, root or drive).
pub proof fn law_texture_path_inside(texture: Seq<char>)
    ensures
        spec_texture_rel_path(texture) matches Some(rel) ==> inside_path(rel),
{
}

/// Only `https` addresses are allowed.
pub proof fn law_allowed_is_https(url: Seq<char>)
    ensures
        spec_allowed_image_host(url) ==> starts_with(url, "https://"@),
{
}

proof fn lemma_chars_before(t: Seq<char>, limit: nat, j: int)
    requires
        0 <= j <= t.len(),
        j == 0 || utf8_len(t.take(j - 1)) < limit,
    ensures
        j <= chars_before(t, limit, j) <= t.len(),
        chars_before(t, limit, j) == 0 || utf8_len(t.take(chars_before(t, limit, j) - 1)) < limit,
    decreases t.len() - j,
{
    if j < t.len() && utf8_len(t.take(j)) < limit {
        lemma_chars_before(t, limit, j + 1);
    }
}

/// A README excerpt is short: at most 706 bytes (700 bytes of text, the
/// rest of a character that starts before byte 700, and the `…`).
pub proof fn law_excerpt_is_short(md: Seq<char>)
    ensures
        utf8_len(spec_readme_excerpt(md)) <= 706,
{
    let t = trim(excerpt_fold(lines(md)).0);
    if utf8_len(t) > EXCERPT_BYTES {
        lemma_chars_before(t, EXCERPT_BYTES as nat, 0);
        let k = chars_before(t, EXCERPT_BYTES as nat, 0);
        let kept = t.take(k);
        if k > 0 {
            assert(kept.drop_last() =~= t.take(k - 1));
            assert(utf8_len(kept) == utf8_len(t.take(k - 1)) + char_utf8_len(kept.last()));
        } else {
            assert(kept =~= Seq::<char>::empty());
        }
        assert(kept.push('\u{2026}').drop_last() =~= kept);
        assert(char_utf8_len('\u{2026}') == 3);
    }
}

} // verus!
