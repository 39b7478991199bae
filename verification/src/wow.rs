//! WoW install description and addon folder / TOC reading.
use vstd::prelude::*;
use crate::num::{decimal, lemma_parse_decimal, lemma_decimal_digits, parse_u32, parse_u64, parse_unsigned};
use crate::order::{is_perm, stable_order, stably_sorted};
use crate::text::{
    ends_with, ends_with_exec, strip_suffix_all, strip_suffix_all_exec,
    chars_eq, chars_of, first_in_from, first_in_from_exec, lemma_first_in_from, lower, lower_exec,
    split_char, split_char_exec, starts_with, starts_with_exec, sub_chars, drop_in_end, drop_in_end_exec, is_ws, is_ws_exec, lines, lines_exec,
    push_all, skip_in, skip_in_exec, string_of, trim, trim_exec, views, trim_start, trim_end, lines_from,
    lower_char, is_digit, split_from,
};

verus! {

/// Lowest interface number that means "WoW: Forever" (1.60.x -> 160xx).
pub const FOREVER_INTERFACE_MIN: u32 = 16000;

/// Highest interface number that means "WoW: Forever".
pub const FOREVER_INTERFACE_MAX: u32 = 16999;

pub open spec fn spec_is_forever_interface(n: u32) -> bool {
    FOREVER_INTERFACE_MIN <= n <= FOREVER_INTERFACE_MAX
}

/// Is `n` an interface number of WoW: Forever?
pub fn is_forever_interface(n: u32) -> (r: bool)
    ensures
        r == spec_is_forever_interface(n),
{
    FOREVER_INTERFACE_MIN <= n && n <= FOREVER_INTERFACE_MAX
}

/// A WoW product folder.
#[derive(Clone, Debug)]
pub struct WowInstall {
    /// Absolute path of the product folder, e.g. `...\World of Warcraft\_classic_beta_`.
    pub path: String,
    /// Product code from `.flavor.info`, e.g. `wow_classic_beta`.
    pub product: String,
    /// Our flavour id: `forever` or `other`.
    pub flavor: String,
    /// Human label.
    pub label: String,
}

pub open spec fn spec_product_flavor(product: Seq<char>) -> (Seq<char>, Seq<char>) {
    if product == "wow_classic_beta"@ {
        ("forever"@, "WoW: Forever (beta)"@)
    } else if product == "wow"@ {
        ("other"@, "Retail"@)
    } else if product == "wow_classic_era"@ {
        ("other"@, "Classic Era"@)
    } else if product == "wow_anniversary"@ {
        ("other"@, "Anniversary"@)
    } else if product == "wow_classic"@ {
        ("other"@, "Classic (progression)"@)
    } else {
        ("other"@, product)
    }
}

fn eq_lit(a: &[char], lit: &str) -> (r: bool)
    ensures
        r == (a@ == lit@),
{
    let l = chars_of(lit);
    chars_eq(a, &l)
}

/// Map Blizzard product codes to the flavour we support.
pub fn product_flavor(product: &str) -> (r: (&'static str, String))
    ensures
        (r.0@, r.1@) == spec_product_flavor(product@),
{
    let p = chars_of(product);
    if eq_lit(&p, "wow_classic_beta") {
        ("forever", String::from_str("WoW: Forever (beta)"))
    } else if eq_lit(&p, "wow") {
        ("other", String::from_str("Retail"))
    } else if eq_lit(&p, "wow_classic_era") {
        ("other", String::from_str("Classic Era"))
    } else if eq_lit(&p, "wow_anniversary") {
        ("other", String::from_str("Anniversary"))
    } else if eq_lit(&p, "wow_classic") {
        ("other", String::from_str("Classic (progression)"))
    } else {
        ("other", String::from_str(product))
    }
}

/// The product code in a `.flavor.info` text: its second line, trimmed, if not empty.
pub open spec fn spec_flavor_from_info(text: Seq<char>) -> Option<Seq<char>> {
    let ls = lines(text);
    if ls.len() >= 2 && trim(ls[1]).len() > 0 {
        Some(trim(ls[1]))
    } else {
        None
    }
}

/// Read the product code out of a `.flavor.info` file's text
/// (format: "Product Flavor!STRING:0\nwow_classic_beta\n").
pub fn flavor_from_info(text: &str) -> (r: Option<String>)
    ensures
        match r {
            Some(p) => spec_flavor_from_info(text@) == Some(p@),
            None => spec_flavor_from_info(text@) is None,
        },
{
    let c = chars_of(text);
    let ls = lines_exec(&c);
    if ls.len() >= 2 {
        assert(views(ls@)[1] == ls@[1]@);
        let t = trim_exec(&ls[1]);
        if t.len() > 0 {
            return Some(string_of(&t));
        }
    }
    None
}

/// Product code taken from the folder name, e.g. "_classic_beta_" -> "wow_classic_beta".
pub open spec fn spec_product_from_dir(dir_name: Option<Seq<char>>) -> Seq<char> {
    let name = match dir_name {
        Some(n) => drop_in_end(skip_in(n, seq!['_']), seq!['_']),
        None => seq![],
    };
    "wow_"@ + name
}

pub open spec fn spec_describe_install(
    product_dir: Seq<char>,
    dir_name: Option<Seq<char>>,
    has_game_dirs: bool,
    flavor_info: Option<Seq<char>>,
) -> Option<(Seq<char>, Seq<char>, Seq<char>, Seq<char>)> {
    let info = match flavor_info {
        Some(t) => spec_flavor_from_info(t),
        None => None,
    };
    if !has_game_dirs && info is None {
        None
    } else {
        let product = match info {
            Some(p) => p,
            None => spec_product_from_dir(dir_name),
        };
        let fl = spec_product_flavor(product);
        Some((product_dir, product, fl.0, fl.1))
    }
}

pub open spec fn install_view(w: WowInstall) -> (Seq<char>, Seq<char>, Seq<char>, Seq<char>) {
    (w.path@, w.product@, w.flavor@, w.label@)
}

/// Describe a product folder the user picked or we discovered.
///
/// `product_dir` is the folder's path, `dir_name` its last component,
/// `has_game_dirs` whether `Interface\AddOns`, `Interface` or `WTF` exists
/// inside it, and `flavor_info` the text of its `.flavor.info` file if readable.
pub fn describe_install(
    product_dir: &str,
    dir_name: Option<&str>,
    has_game_dirs: bool,
    flavor_info: Option<&str>,
) -> (r: Option<WowInstall>)
    ensures
        match r {
            Some(w) => spec_describe_install(product_dir@, opt_str_view(dir_name), has_game_dirs, opt_str_view(flavor_info)) == Some(install_view(w)),
            None => spec_describe_install(product_dir@, opt_str_view(dir_name), has_game_dirs, opt_str_view(flavor_info)) is None,
        },
{
    let info = match flavor_info {
        Some(t) => flavor_from_info(t),
        None => None,
    };
    if !has_game_dirs && info.is_none() {
        return None;
    }
    let product = match info {
        Some(p) => p,
        None => {
            let mut v = chars_of("wow_");
            match dir_name {
                Some(n) => {
                    let nc = chars_of(n);
                    let u = vec!['_'];
                    assert(u@ =~= seq!['_']);
                    let a = skip_in_exec(&nc, &u);
                    let b = drop_in_end_exec(&a, &u);
                    push_all(&mut v, &b);
                },
                None => {
                    assert(v@ =~= "wow_"@ + Seq::<char>::empty());
                },
            }
            string_of(&v)
        },
    };
    let (flavor, label) = product_flavor(product.as_str());
    Some(WowInstall {
        path: String::from_str(product_dir),
        product,
        flavor: String::from_str(flavor),
        label,
    })
}

pub open spec fn opt_str_view(s: Option<&str>) -> Option<Seq<char>> {
    match s {
        Some(x) => Some(x@),
        None => None,
    }
}

// ------------------------------------------------------------------ titles

/// First `j >= i` where `s[j..]` starts with `|t` or `|T` (the end of a texture escape).
pub open spec fn texture_close_from(s: Seq<char>, i: int) -> Option<int>
    decreases s.len() + 1 - i,
{
    if i < 0 || i + 1 >= s.len() {
        None
    } else if s[i] == '|' && (s[i + 1] == 't' || s[i + 1] == 'T') {
        Some(i)
    } else {
        texture_close_from(s, i + 1)
    }
}

pub proof fn lemma_texture_close(s: Seq<char>, i: int)
    requires
        0 <= i,
    ensures
        texture_close_from(s, i) matches Some(j) ==> i <= j && j + 1 < s.len(),
    decreases s.len() + 1 - i,
{
    if i + 1 < s.len() && !(s[i] == '|' && (s[i + 1] == 't' || s[i + 1] == 'T')) {
        lemma_texture_close(s, i + 1);
    }
}

/// The text of a TOC title from position `i` with WoW escape codes removed:
/// `|c` plus eight colour digits, `|r`, `|T...|t` textures; `||` is a literal `|`;
/// any other `|` is dropped.
pub open spec fn strip_codes_from(s: Seq<char>, i: int) -> Seq<char>
    decreases s.len() + 1 - i,
{
    if i < 0 || i >= s.len() {
        seq![]
    } else if s[i] != '|' {
        seq![s[i]] + strip_codes_from(s, i + 1)
    } else if i + 1 >= s.len() {
        seq![]
    } else if s[i + 1] == 'c' || s[i + 1] == 'C' {
        if i + 10 >= s.len() {
            seq![]
        } else {
            strip_codes_from(s, i + 10)
        }
    } else if s[i + 1] == 'r' || s[i + 1] == 'R' {
        strip_codes_from(s, i + 2)
    } else if s[i + 1] == 'T' || s[i + 1] == 't' {
        proof { lemma_texture_close(s, i + 2); }
        match texture_close_from(s, i + 2) {
            Some(j) => strip_codes_from(s, j + 2),
            None => seq![],
        }
    } else if s[i + 1] == '|' {
        seq!['|'] + strip_codes_from(s, i + 2)
    } else {
        strip_codes_from(s, i + 1)
    }
}

/// Maximal runs of non-whitespace characters (`str::split_whitespace`).
pub open spec fn words(s: Seq<char>) -> Seq<Seq<char>>
    decreases s.len(),
{
    if s.len() == 0 {
        seq![]
    } else {
        let w = words(s.drop_last());
        let c = s.last();
        if is_ws(c) {
            w
        } else if s.len() >= 2 && !is_ws(s[s.len() - 2]) {
            w.update(w.len() - 1, w.last().push(c))
        } else {
            w.push(seq![c])
        }
    }
}

/// Pieces joined with `sep` between them (`[..].join(sep)`).
pub open spec fn join(ws: Seq<Seq<char>>, sep: Seq<char>) -> Seq<char>
    decreases ws.len(),
{
    if ws.len() == 0 {
        seq![]
    } else if ws.len() == 1 {
        ws[0]
    } else {
        join(ws.drop_last(), sep) + sep + ws.last()
    }
}

/// Whitespace runs collapsed to one space, none at the ends.
pub open spec fn collapse_ws(s: Seq<char>) -> Seq<char> {
    join(words(s), seq![' '])
}

pub open spec fn spec_clean_title(raw: Seq<char>) -> Seq<char> {
    collapse_ws(strip_codes_from(raw, 0))
}

proof fn lemma_words_nonempty(s: Seq<char>)
    requires
        s.len() > 0,
        !is_ws(s.last()),
    ensures
        words(s).len() > 0,
    decreases s.len(),
{
    if s.len() >= 2 && !is_ws(s[s.len() - 2]) {
        assert(s.drop_last().last() == s[s.len() - 2]);
        lemma_words_nonempty(s.drop_last());
    }
}

pub proof fn lemma_join_push(ws: Seq<Seq<char>>, x: Seq<char>, sep: Seq<char>)
    ensures
        join(ws.push(x), sep) == if ws.len() == 0 { x } else { join(ws, sep) + sep + x },
{
    assert(ws.push(x).drop_last() =~= ws);
}

proof fn lemma_join_extend_last(ws: Seq<Seq<char>>, c: char, sep: Seq<char>)
    requires
        ws.len() > 0,
    ensures
        join(ws.update(ws.len() - 1, ws.last().push(c)), sep) == join(ws, sep).push(c),
{
    let u = ws.update(ws.len() - 1, ws.last().push(c));
    if ws.len() == 1 {
    } else {
        assert(u.drop_last() =~= ws.drop_last());
        assert((join(ws.drop_last(), sep) + sep + ws.last()).push(c) =~= join(ws.drop_last(), sep) + sep + ws.last().push(c));
    }
}

fn collapse_ws_exec(s: &[char]) -> (r: Vec<char>)
    ensures
        r@ == collapse_ws(s@),
{
    let mut out: Vec<char> = Vec::new();
    let mut i: usize = 0;
    let mut prev_ws = false;
    assert(s@.take(0) =~= Seq::<char>::empty());
    while i < s.len()
        invariant
            i <= s.len(),
            out@ == join(words(s@.take(i as int)), seq![' ']),
            prev_ws == (i > 0 && is_ws(s@[i - 1])),
            (out@.len() == 0) == (words(s@.take(i as int)).len() == 0),
        decreases s.len() - i,
    {
        let c = s[i];
        let ghost pre = s@.take(i as int);
        let ghost nxt = s@.take(i + 1);
        assert(nxt.drop_last() =~= pre);
        assert(nxt.last() == c);
        if is_ws_exec(c) {
            prev_ws = true;
        } else {
            let ghost w = words(pre);
            if i > 0 && !prev_ws {
                assert(nxt[nxt.len() - 2] == s@[i - 1]);
                proof {
                    lemma_words_nonempty(pre);
                    lemma_join_extend_last(w, c, seq![' ']);
                }
                out.push(c);
            } else {
                proof { lemma_join_push(w, seq![c], seq![' ']); }
                if out.len() > 0 {
                    out.push(' ');
                }
                out.push(c);
                assert(out@ =~= join(w.push(seq![c]), seq![' ']));
            }
            prev_ws = false;
        }
        i = i + 1;
    }
    assert(s@.take(s@.len() as int) =~= s@);
    out
}

/// A text whose only whitespace is single spaces between other characters.
pub open spec fn single_spaced(r: Seq<char>) -> bool {
    forall|i: int| 0 <= i < r.len() && is_ws(#[trigger] r[i]) ==> r[i] == ' ' && 0 < i && i + 1 < r.len()
        && !is_ws(r[i - 1]) && !is_ws(r[i + 1])
}

pub open spec fn solid_words(ws: Seq<Seq<char>>) -> bool {
    forall|k: int| 0 <= k < ws.len() ==> (#[trigger] ws[k]).len() > 0 && forall|j: int| 0 <= j < ws[k].len() ==> !is_ws(#[trigger] ws[k][j])
}

proof fn lemma_words_solid(s: Seq<char>)
    ensures
        solid_words(words(s)),
    decreases s.len(),
{
    if s.len() > 0 {
        lemma_words_solid(s.drop_last());
        let w = words(s.drop_last());
        let c = s.last();
        if !is_ws(c) {
            if s.len() >= 2 && !is_ws(s[s.len() - 2]) {
                assert(s.drop_last().last() == s[s.len() - 2]);
                lemma_words_nonempty(s.drop_last());
                let u = w.update(w.len() - 1, w.last().push(c));
                assert forall|k: int| 0 <= k < u.len() implies (#[trigger] u[k]).len() > 0 && forall|j: int| 0 <= j < u[k].len() ==> !is_ws(#[trigger] u[k][j]) by {
                    if k == w.len() - 1 {
                        assert forall|j: int| 0 <= j < u[k].len() implies !is_ws(#[trigger] u[k][j]) by {
                            if j < w.last().len() {
                                assert(u[k][j] == w[k][j]);
                            }
                        }
                    } else {
                        assert(u[k] == w[k]);
                    }
                }
            } else {
                let u = w.push(seq![c]);
                assert forall|k: int| 0 <= k < u.len() implies (#[trigger] u[k]).len() > 0 && forall|j: int| 0 <= j < u[k].len() ==> !is_ws(#[trigger] u[k][j]) by {
                    if k < w.len() {
                        assert(u[k] == w[k]);
                    }
                }
            }
        }
    }
}

proof fn lemma_join_single_spaced(ws: Seq<Seq<char>>)
    requires
        solid_words(ws),
    ensures
        single_spaced(join(ws, seq![' '])),
        ws.len() > 0 ==> join(ws, seq![' ']).len() > 0,
    decreases ws.len(),
{
    if ws.len() == 1 {
        let r = join(ws, seq![' ']);
        assert(r == ws[0]);
    } else if ws.len() > 1 {
        let d = ws.drop_last();
        assert forall|k: int| 0 <= k < d.len() implies (#[trigger] d[k]).len() > 0 && forall|j: int| 0 <= j < d[k].len() ==> !is_ws(#[trigger] d[k][j]) by {
            assert(d[k] == ws[k]);
        }
        lemma_join_single_spaced(d);
        let x = join(d, seq![' ']);
        let w = ws.last();
        let r = join(ws, seq![' ']);
        assert(r == x + seq![' '] + w);
        assert(ws[ws.len() - 1] == w);
        assert(!is_ws(x[0]));
        assert(!is_ws(x[x.len() - 1]));
        assert forall|i: int| 0 <= i < r.len() && is_ws(#[trigger] r[i]) implies r[i] == ' ' && 0 < i && i + 1 < r.len()
            && !is_ws(r[i - 1]) && !is_ws(r[i + 1]) by {
            if i < x.len() {
                assert(r[i] == x[i]);
                assert(r[i - 1] == x[i - 1]);
                assert(r[i + 1] == x[i + 1]);
            } else if i == x.len() {
                assert(r[i - 1] == x[x.len() - 1]);
                assert(r[i + 1] == w[0]);
            } else {
                assert(r[i] == w[i - x.len() - 1]);
            }
        }
    }
}

/// A cleaned title has no whitespace at its ends and no runs of it: every
/// whitespace character is a single space between two other characters.
pub proof fn law_clean_title_single_spaced(raw: Seq<char>)
    ensures
        single_spaced(spec_clean_title(raw)),
{
    lemma_words_solid(strip_codes_from(raw, 0));
    lemma_join_single_spaced(words(strip_codes_from(raw, 0)));
}

/// Strip WoW colour / texture escape codes from a TOC title.
pub fn clean_title(raw: &str) -> (r: String)
    ensures
        r@ == spec_clean_title(raw@),
{
    let s = chars_of(raw);
    let mut out: Vec<char> = Vec::new();
    let mut i: usize = 0;
    while i < s.len()
        invariant
            out@ + strip_codes_from(s@, i as int) == strip_codes_from(s@, 0),
        decreases s.len() + 1 - i,
    {
        let c = s[i];
        if c != '|' {
            out.push(c);
            i = i + 1;
        } else if i + 1 >= s.len() {
            i = s.len();
        } else {
            let n = s[i + 1];
            if n == 'c' || n == 'C' {
                i = if s.len() - i < 10 { s.len() } else { i + 10 };
            } else if n == 'r' || n == 'R' {
                i = i + 2;
            } else if n == 'T' || n == 't' {
                proof { lemma_texture_close(s@, i + 2); }
                let mut j = i + 2;
                while j < s.len() && j + 1 < s.len() && !(s[j] == '|' && (s[j + 1] == 't' || s[j + 1] == 'T'))
                    invariant
                        i + 2 <= j <= s.len(),
                        texture_close_from(s@, i + 2) == texture_close_from(s@, j as int),
                    decreases s.len() - j,
                {
                    j = j + 1;
                }
                if j < s.len() && j + 1 < s.len() {
                    i = j + 2;
                } else {
                    i = s.len();
                }
            } else if n == '|' {
                out.push('|');
                i = i + 2;
            } else {
                i = i + 1;
            }
        }
    }
    let t = collapse_ws_exec(&out);
    string_of(&t)
}


// ------------------------------------------------------------------ addon folders

/// One folder in `Interface\AddOns` and what its TOC files say.
#[derive(Clone, Debug)]
pub struct AddonFolder {
    pub folder: String,
    pub title: String,
    pub version: Option<String>,
    pub author: Option<String>,
    pub notes: Option<String>,
    pub interfaces: Vec<u32>,
    pub wago: Option<String>,
    pub curse: Option<u64>,
    pub wowi: Option<u64>,
    pub website: Option<String>,
    /// True when a `_Forever` / `_Camelot` TOC exists.
    pub forever_toc: bool,
    /// True when any Interface number is in the Forever range.
    pub forever_interface: bool,
    pub dependencies: Vec<String>,
    /// Folder of the addon this one is a module of, when declared.
    pub part_of: Option<String>,
}

/// The mathematical value of an [`AddonFolder`].
pub struct AddonSpec {
    pub folder: Seq<char>,
    pub title: Seq<char>,
    pub version: Option<Seq<char>>,
    pub author: Option<Seq<char>>,
    pub notes: Option<Seq<char>>,
    pub interfaces: Seq<u32>,
    pub wago: Option<Seq<char>>,
    pub curse: Option<u64>,
    pub wowi: Option<u64>,
    pub website: Option<Seq<char>>,
    pub forever_toc: bool,
    pub forever_interface: bool,
    pub dependencies: Seq<Seq<char>>,
    pub part_of: Option<Seq<char>>,
}

pub open spec fn ostr(o: Option<String>) -> Option<Seq<char>> {
    match o {
        Some(s) => Some(s@),
        None => None,
    }
}

pub open spec fn strs(v: Seq<String>) -> Seq<Seq<char>> {
    v.map_values(|x: String| x@)
}

impl View for AddonFolder {
    type V = AddonSpec;

    open spec fn view(&self) -> AddonSpec {
        AddonSpec {
            folder: self.folder@,
            title: self.title@,
            version: ostr(self.version),
            author: ostr(self.author),
            notes: ostr(self.notes),
            interfaces: self.interfaces@,
            wago: ostr(self.wago),
            curse: self.curse,
            wowi: self.wowi,
            website: ostr(self.website),
            forever_toc: self.forever_toc,
            forever_interface: self.forever_interface,
            dependencies: strs(self.dependencies@),
            part_of: ostr(self.part_of),
        }
    }
}

fn clone_ostr(o: &Option<String>) -> (r: Option<String>)
    ensures
        ostr(r) == ostr(*o),
{
    match o {
        Some(s) => Some(s.clone()),
        None => None,
    }
}

fn clone_strs(v: &Vec<String>) -> (r: Vec<String>)
    ensures
        strs(r@) == strs(v@),
{
    let mut out: Vec<String> = Vec::new();
    let mut i: usize = 0;
    while i < v.len()
        invariant
            i <= v.len(),
            strs(out@) == strs(v@.take(i as int)),
        decreases v.len() - i,
    {
        let ghost prev = strs(out@);
        let x = v[i].clone();
        out.push(x);
        assert(strs(out@) =~= prev.push(x@));
        assert(strs(v@.take(i + 1)) =~= strs(v@.take(i as int)).push(v@[i as int]@));
        i = i + 1;
    }
    assert(v@.take(v.len() as int) =~= v@);
    out
}

fn clone_u32s(v: &Vec<u32>) -> (r: Vec<u32>)
    ensures
        r@ == v@,
{
    let mut out: Vec<u32> = Vec::new();
    let mut i: usize = 0;
    while i < v.len()
        invariant
            i <= v.len(),
            out@ == v@.take(i as int),
        decreases v.len() - i,
    {
        out.push(v[i]);
        i = i + 1;
        assert(out@ =~= v@.take(i as int));
    }
    assert(v@.take(v.len() as int) =~= v@);
    out
}

impl AddonFolder {
    /// A folder named `folder` about which nothing else is known yet.
    pub fn new(folder: String) -> (r: Self)
        ensures
            r@ == empty_addon(folder@),
    {
        let deps: Vec<String> = Vec::new();
        assert(strs(deps@) =~= Seq::<Seq<char>>::empty());
        AddonFolder {
            folder,
            title: String::new(),
            version: None,
            author: None,
            notes: None,
            interfaces: Vec::new(),
            wago: None,
            curse: None,
            wowi: None,
            website: None,
            forever_toc: false,
            forever_interface: false,
            dependencies: deps,
            part_of: None,
        }
    }

    /// A field-for-field copy.
    pub fn duplicate(&self) -> (r: Self)
        ensures
            r@ == self@,
    {
        let deps = clone_strs(&self.dependencies);
        let r = AddonFolder {
            folder: self.folder.clone(),
            title: self.title.clone(),
            version: clone_ostr(&self.version),
            author: clone_ostr(&self.author),
            notes: clone_ostr(&self.notes),
            interfaces: clone_u32s(&self.interfaces),
            wago: clone_ostr(&self.wago),
            curse: self.curse,
            wowi: self.wowi,
            website: clone_ostr(&self.website),
            forever_toc: self.forever_toc,
            forever_interface: self.forever_interface,
            dependencies: deps,
            part_of: clone_ostr(&self.part_of),
        };
        r
    }

    /// Does any TOC say this addon runs on WoW: Forever?
    pub fn supports_forever(&self) -> (r: bool)
        ensures
            r == (self.forever_toc || self.forever_interface),
    {
        self.forever_toc || self.forever_interface
    }
}

impl Default for AddonFolder {
    fn default() -> (r: Self)
        ensures
            r@ == empty_addon(seq![]),
    {
        AddonFolder::new(String::new())
    }
}

pub open spec fn empty_addon(folder: Seq<char>) -> AddonSpec {
    AddonSpec {
        folder,
        title: seq![],
        version: None,
        author: None,
        notes: None,
        interfaces: seq![],
        wago: None,
        curse: None,
        wowi: None,
        website: None,
        forever_toc: false,
        forever_interface: false,
        dependencies: seq![],
        part_of: None,
    }
}

// ------------------------------------------------------------------ TOC files

/// Interface numbers added from the comma-separated pieces of an `## Interface` value
/// (unparsable pieces and numbers already present are skipped).
pub open spec fn add_interfaces(xs: Seq<u32>, pieces: Seq<Seq<char>>) -> Seq<u32>
    decreases pieces.len(),
{
    if pieces.len() == 0 {
        xs
    } else {
        let ys = add_interfaces(xs, pieces.drop_last());
        match parse_u32(trim(pieces.last())) {
            Some(n) => if ys.contains(n) { ys } else { ys.push(n) },
            None => ys,
        }
    }
}

/// Dependencies added from the comma-separated pieces of a dependency value
/// (trimmed, empty pieces skipped).
pub open spec fn add_deps(ds: Seq<Seq<char>>, pieces: Seq<Seq<char>>) -> Seq<Seq<char>>
    decreases pieces.len(),
{
    if pieces.len() == 0 {
        ds
    } else {
        let es = add_deps(ds, pieces.drop_last());
        let d = trim(pieces.last());
        if d.len() > 0 { es.push(d) } else { es }
    }
}

/// The effect of one `## Key: value` TOC entry (key lower-cased, value non-empty).
pub open spec fn toc_entry(a: AddonSpec, key: Seq<char>, val: Seq<char>) -> AddonSpec {
    if key == "title"@ {
        if a.title.len() == 0 { AddonSpec { title: spec_clean_title(val), ..a } } else { a }
    } else if key == "version"@ {
        if a.version is None { AddonSpec { version: Some(val), ..a } } else { a }
    } else if key == "author"@ {
        if a.author is None { AddonSpec { author: Some(spec_clean_title(val)), ..a } } else { a }
    } else if key == "notes"@ {
        if a.notes is None { AddonSpec { notes: Some(spec_clean_title(val)), ..a } } else { a }
    } else if key == "interface"@ {
        AddonSpec { interfaces: add_interfaces(a.interfaces, split_char(val, ',')), ..a }
    } else if key == "x-wago-id"@ {
        if a.wago is None { AddonSpec { wago: Some(val), ..a } } else { a }
    } else if key == "x-curse-project-id"@ {
        if a.curse is None { AddonSpec { curse: parse_u64(val), ..a } } else { a }
    } else if key == "x-wowi-id"@ {
        if a.wowi is None { AddonSpec { wowi: parse_u64(val), ..a } } else { a }
    } else if key == "x-website"@ || key == "x-project"@ || key == "x-github"@ {
        if a.website is None { AddonSpec { website: Some(val), ..a } } else { a }
    } else if key == "dependencies"@ || key == "requireddeps"@ {
        AddonSpec { dependencies: add_deps(a.dependencies, split_char(val, ',')), ..a }
    } else if key == "x-part-of"@ {
        if a.part_of is None { AddonSpec { part_of: Some(val), ..a } } else { a }
    } else {
        a
    }
}

/// The effect of one TOC line: only `## Key: value` lines with a non-empty value count.
pub open spec fn toc_line(a: AddonSpec, line: Seq<char>) -> AddonSpec {
    let l = trim(line);
    if !starts_with(l, "##"@) {
        a
    } else {
        let rest = l.skip(2);
        match first_in_from(rest, seq![':'], 0) {
            None => a,
            Some(i) => {
                let key = lower(trim(rest.take(i)));
                let val = trim(rest.skip(i + 1));
                if val.len() == 0 { a } else { toc_entry(a, key, val) }
            },
        }
    }
}

pub open spec fn toc_lines(a: AddonSpec, ls: Seq<Seq<char>>) -> AddonSpec
    decreases ls.len(),
{
    if ls.len() == 0 {
        a
    } else {
        toc_line(toc_lines(a, ls.drop_last()), ls.last())
    }
}

/// The effect of a whole TOC file's text (a leading byte-order mark is ignored).
pub open spec fn toc_text(a: AddonSpec, text: Seq<char>) -> AddonSpec {
    toc_lines(a, lines(skip_in(text, seq!['\u{feff}'])))
}

fn contains_u32(v: &Vec<u32>, n: u32) -> (r: bool)
    ensures
        r == v@.contains(n),
{
    let mut i: usize = 0;
    while i < v.len()
        invariant
            i <= v.len(),
            forall|k: int| 0 <= k < i ==> v@[k] != n,
        decreases v.len() - i,
    {
        if v[i] == n {
            assert(v@[i as int] == n);
            return true;
        }
        i = i + 1;
    }
    false
}

fn apply_interfaces(into: &mut AddonFolder, val: &[char])
    ensures
        final(into)@ == (AddonSpec { interfaces: add_interfaces(old(into)@.interfaces, split_char(val@, ',')), ..old(into)@ }),
{
    let pieces = split_char_exec(val, ',');
    let mut i: usize = 0;
    assert(views(pieces@).take(0) =~= Seq::<Seq<char>>::empty());
    while i < pieces.len()
        invariant
            i <= pieces.len(),
            views(pieces@) == split_char(val@, ','),
            into@ == (AddonSpec { interfaces: add_interfaces(old(into)@.interfaces, views(pieces@).take(i as int)), ..old(into)@ }),
        decreases pieces.len() - i,
    {
        let ghost before = views(pieces@).take(i as int);
        let ghost after = views(pieces@).take(i + 1);
        assert(after.drop_last() =~= before);
        assert(after.last() == pieces@[i as int]@);
        let t = trim_exec(&pieces[i]);
        match parse_unsigned(&t, 4294967295u64) {
            Some(n) => {
                let m = n as u32;
                if !contains_u32(&into.interfaces, m) {
                    into.interfaces.push(m);
                }
            },
            None => {},
        }
        i = i + 1;
    }
    assert(views(pieces@).take(pieces.len() as int) =~= views(pieces@));
}

fn apply_deps(into: &mut AddonFolder, val: &[char])
    ensures
        final(into)@ == (AddonSpec { dependencies: add_deps(old(into)@.dependencies, split_char(val@, ',')), ..old(into)@ }),
{
    let pieces = split_char_exec(val, ',');
    let mut i: usize = 0;
    assert(views(pieces@).take(0) =~= Seq::<Seq<char>>::empty());
    while i < pieces.len()
        invariant
            i <= pieces.len(),
            views(pieces@) == split_char(val@, ','),
            into@ == (AddonSpec { dependencies: add_deps(old(into)@.dependencies, views(pieces@).take(i as int)), ..old(into)@ }),
        decreases pieces.len() - i,
    {
        let ghost before = views(pieces@).take(i as int);
        let ghost after = views(pieces@).take(i + 1);
        assert(after.drop_last() =~= before);
        assert(after.last() == pieces@[i as int]@);
        let t = trim_exec(&pieces[i]);
        if t.len() > 0 {
            let ghost old_deps = strs(into.dependencies@);
            into.dependencies.push(string_of(&t));
            assert(strs(into.dependencies@) =~= old_deps.push(t@));
        }
        i = i + 1;
    }
    assert(views(pieces@).take(pieces.len() as int) =~= views(pieces@));
}

fn apply_entry(into: &mut AddonFolder, key: &[char], val: &[char])
    ensures
        final(into)@ == toc_entry(old(into)@, key@, val@),
{
    if eq_lit(key, "title") {
        if into.title.as_str().is_empty() {
            let v = string_of(val);
            into.title = clean_title(v.as_str());
        }
    } else if eq_lit(key, "version") {
        if into.version.is_none() {
            into.version = Some(string_of(val));
        }
    } else if eq_lit(key, "author") {
        if into.author.is_none() {
            let v = string_of(val);
            into.author = Some(clean_title(v.as_str()));
        }
    } else if eq_lit(key, "notes") {
        if into.notes.is_none() {
            let v = string_of(val);
            into.notes = Some(clean_title(v.as_str()));
        }
    } else if eq_lit(key, "interface") {
        apply_interfaces(into, val);
    } else if eq_lit(key, "x-wago-id") {
        if into.wago.is_none() {
            into.wago = Some(string_of(val));
        }
    } else if eq_lit(key, "x-curse-project-id") {
        if into.curse.is_none() {
            into.curse = parse_unsigned(val, u64::MAX);
        }
    } else if eq_lit(key, "x-wowi-id") {
        if into.wowi.is_none() {
            into.wowi = parse_unsigned(val, u64::MAX);
        }
    } else if eq_lit(key, "x-website") || eq_lit(key, "x-project") || eq_lit(key, "x-github") {
        if into.website.is_none() {
            into.website = Some(string_of(val));
        }
    } else if eq_lit(key, "dependencies") || eq_lit(key, "requireddeps") {
        apply_deps(into, val);
    } else if eq_lit(key, "x-part-of") {
        if into.part_of.is_none() {
            into.part_of = Some(string_of(val));
        }
    }
}

fn apply_line(into: &mut AddonFolder, line: &[char])
    ensures
        final(into)@ == toc_line(old(into)@, line@),
{
    let l = trim_exec(line);
    let hh = chars_of("##");
    if !starts_with_exec(&l, &hh) {
        return;
    }
    proof { reveal_strlit("##"); }
    let rest = sub_chars(&l, 2, l.len());
    assert(rest@ =~= l@.skip(2));
    let colon = vec![':'];
    assert(colon@ =~= seq![':']);
    proof { lemma_first_in_from(rest@, colon@, 0); }
    match first_in_from_exec(&rest, &colon, 0) {
        None => {},
        Some(i) => {
            let k0 = sub_chars(&rest, 0, i);
            assert(k0@ =~= rest@.take(i as int));
            let k1 = trim_exec(&k0);
            let key = lower_exec(&k1);
            let v0 = sub_chars(&rest, i + 1, rest.len());
            assert(v0@ =~= rest@.skip(i + 1));
            let val = trim_exec(&v0);
            if val.len() > 0 {
                apply_entry(into, &key, &val);
            }
        },
    }
}

/// Apply a TOC file to `into`. `text` is the file's contents, `None` when it
/// could not be read; returns whether it was read.
pub fn parse_toc(text: Option<&str>, into: &mut AddonFolder) -> (r: bool)
    ensures
        r == (text is Some),
        match text {
            Some(t) => final(into)@ == toc_text(old(into)@, t@),
            None => final(into)@ == old(into)@,
        },
{
    let t = match text {
        Some(t) => t,
        None => return false,
    };
    let c = chars_of(t);
    let bom = vec!['\u{feff}'];
    assert(bom@ =~= seq!['\u{feff}']);
    let body = skip_in_exec(&c, &bom);
    let ls = lines_exec(&body);
    let mut i: usize = 0;
    assert(views(ls@).take(0) =~= Seq::<Seq<char>>::empty());
    while i < ls.len()
        invariant
            i <= ls.len(),
            views(ls@) == lines(skip_in(t@, seq!['\u{feff}'])),
            into@ == toc_lines(old(into)@, views(ls@).take(i as int)),
        decreases ls.len() - i,
    {
        let ghost before = views(ls@).take(i as int);
        let ghost after = views(ls@).take(i + 1);
        assert(after.drop_last() =~= before);
        assert(after.last() == ls@[i as int]@);
        apply_line(into, &ls[i]);
        i = i + 1;
    }
    assert(views(ls@).take(ls.len() as int) =~= views(ls@));
    true
}


// ------------------------------------------------------------------ laws of TOC reading

/// A text with no whitespace at either end is its own `trim`.
proof fn lemma_trim_solid(t: Seq<char>)
    requires
        t.len() > 0,
        !is_ws(t[0]),
        !is_ws(t.last()),
    ensures
        trim(t) == t,
{
    assert(trim_start(t) == t);
}

/// A TOC text of the single line `## <k>: <v>` has the effect of the entry
/// with key `k` lower-cased and value `v` (for a key without `:` and
/// values and keys without line breaks or whitespace at their ends).
proof fn lemma_toc_single_entry(a: AddonSpec, k: Seq<char>, v: Seq<char>)
    requires
        k.len() > 0,
        v.len() > 0,
        !is_ws(k[0]) && !is_ws(k.last()),
        !is_ws(v[0]) && !is_ws(v.last()),
        forall|i: int| 0 <= i < k.len() ==> k[i] != ':' && k[i] != '\n',
        forall|i: int| 0 <= i < v.len() ==> v[i] != '\n',
        v[0] != '\u{feff}',
    ensures
        toc_text(a, "## "@ + k + ": "@ + v) == toc_entry(a, lower(k), v),
{
    reveal_strlit("## ");
    reveal_strlit(": ");
    reveal_strlit("##");
    let text = "## "@ + k + ": "@ + v;
    let n = text.len();
    assert(n == 3 + k.len() + 2 + v.len());
    assert(text[0] == '#');
    assert(!seq!['\u{feff}'].contains(text[0]));
    assert(skip_in(text, seq!['\u{feff}']) == text);
    assert forall|i: int| 0 <= i < n implies text[i] != '\n' by {
        if i < 3 {
        } else if i < 3 + k.len() {
            assert(text[i] == k[i - 3]);
        } else if i < 5 + k.len() {
        } else {
            assert(text[i] == v[i - 5 - k.len()]);
        }
    }
    lemma_first_in_from(text, seq!['\n'], 0);
    if first_in_from(text, seq!['\n'], 0) is Some {
        let j = first_in_from(text, seq!['\n'], 0)->0;
        assert(seq!['\n'].contains(text[j]));
        assert(text[j] == seq!['\n'][0]);
    }
    assert(text.subrange(0, n as int) =~= text);
    assert(lines(text) == seq![text]);
    assert(seq![text].drop_last() =~= Seq::<Seq<char>>::empty());
    assert(toc_lines(a, Seq::<Seq<char>>::empty()) == a);
    assert(seq![text].last() == text);
    assert(toc_lines(a, seq![text]) == toc_line(a, text));
    assert(text.last() == v.last());
    lemma_trim_solid(text);
    assert(text[1] == '#');
    assert(text.take(2) =~= "##"@);
    assert(starts_with(text, "##"@));
    let rest = text.skip(2);
    let colon: int = 1 + k.len() as int;
    assert(rest[colon] == ':');
    lemma_first_in_from(rest, seq![':'], 0);
    assert(seq![':'][0] == rest[colon]);
    assert(seq![':'].contains(rest[colon]));
    let j = first_in_from(rest, seq![':'], 0)->0;
    assert(first_in_from(rest, seq![':'], 0) is Some);
    if j < colon {
        if j == 0 {
            assert(rest[0] == ' ');
        } else {
            assert(rest[j] == k[j - 1]);
        }
        assert(seq![':'].contains(rest[j]));
        assert(rest[j] == seq![':'][0]);
    }
    assert(j == colon);
    let kt = rest.take(j);
    assert(kt =~= seq![' '] + k);
    assert(is_ws(' '));
    assert((seq![' '] + k).drop_first() =~= k);
    assert(trim_start(k) == k);
    assert(trim_start(kt) == k);
    lemma_trim_solid(k);
    let vt = rest.skip(j + 1);
    assert(vt =~= seq![' '] + v);
    assert((seq![' '] + v).drop_first() =~= v);
    assert(trim_start(v) == v);
    assert(trim_start(vt) == v);
    lemma_trim_solid(v);
}

/// An `## X-WoWI-ID: <n>` line (the key in any case) gives a folder that
/// has no WoWInterface id yet the id `n`.
pub proof fn law_toc_reads_wowi_id(a: AddonSpec, k: Seq<char>, n: u64)
    requires
        a.wowi is None,
        lower(k) == "x-wowi-id"@,
    ensures
        toc_text(a, "## "@ + k + ": "@ + decimal(n as nat)).wowi == Some(n),
{
    reveal_strlit("x-wowi-id");
    let d = decimal(n as nat);
    lemma_decimal_digits(n as nat);
    lemma_parse_decimal(n);
    assert(lower(k).len() == k.len());
    assert(k.len() == 9);
    assert forall|i: int| 0 <= i < k.len() implies k[i] != ':' && k[i] != '\n' by {
        assert(lower(k)[i] == lower_char(k[i]));
    }
    assert(lower(k)[0] == lower_char(k[0]));
    assert(lower(k)[8] == lower_char(k[8]));
    assert(crate::num::all_digits(d));
    assert(is_digit(d[0]));
    assert(is_digit(d.last()) && d.last() == d[d.len() - 1]);
    assert forall|i: int| 0 <= i < d.len() implies d[i] != '\n' by {
        assert(is_digit(d[i]));
    }
    lemma_toc_single_entry(a, k, d);
    reveal_strlit("title");
    reveal_strlit("version");
    reveal_strlit("author");
    reveal_strlit("notes");
    reveal_strlit("interface");
    reveal_strlit("x-wago-id");
    reveal_strlit("x-curse-project-id");
    assert("x-wowi-id"@ != "interface"@) by { assert("x-wowi-id"@[0] != "interface"@[0]); }
    assert("x-wowi-id"@ != "x-wago-id"@) by { assert("x-wowi-id"@[3] != "x-wago-id"@[3]); }
}

/// The TOC keys, character by character (so that they are told apart).
proof fn lemma_toc_key_lits()
    ensures
        "title"@.len() == 5,
        "title"@[0] == 't',
        "title"@[1] == 'i',
        "title"@[2] == 't',
        "title"@[3] == 'l',
        "title"@[4] == 'e',
        "version"@.len() == 7,
        "version"@[0] == 'v',
        "version"@[1] == 'e',
        "version"@[2] == 'r',
        "version"@[3] == 's',
        "version"@[4] == 'i',
        "version"@[5] == 'o',
        "version"@[6] == 'n',
        "author"@.len() == 6,
        "author"@[0] == 'a',
        "author"@[1] == 'u',
        "author"@[2] == 't',
        "author"@[3] == 'h',
        "author"@[4] == 'o',
        "author"@[5] == 'r',
        "notes"@.len() == 5,
        "notes"@[0] == 'n',
        "notes"@[1] == 'o',
        "notes"@[2] == 't',
        "notes"@[3] == 'e',
        "notes"@[4] == 's',
        "interface"@.len() == 9,
        "interface"@[0] == 'i',
        "interface"@[1] == 'n',
        "interface"@[2] == 't',
        "interface"@[3] == 'e',
        "interface"@[4] == 'r',
        "interface"@[5] == 'f',
        "interface"@[6] == 'a',
        "interface"@[7] == 'c',
        "interface"@[8] == 'e',
        "x-wago-id"@.len() == 9,
        "x-wago-id"@[0] == 'x',
        "x-wago-id"@[1] == '-',
        "x-wago-id"@[2] == 'w',
        "x-wago-id"@[3] == 'a',
        "x-wago-id"@[4] == 'g',
        "x-wago-id"@[5] == 'o',
        "x-wago-id"@[6] == '-',
        "x-wago-id"@[7] == 'i',
        "x-wago-id"@[8] == 'd',
        "x-curse-project-id"@.len() == 18,
        "x-curse-project-id"@[0] == 'x',
        "x-curse-project-id"@[1] == '-',
        "x-curse-project-id"@[2] == 'c',
        "x-curse-project-id"@[3] == 'u',
        "x-curse-project-id"@[4] == 'r',
        "x-curse-project-id"@[5] == 's',
        "x-curse-project-id"@[6] == 'e',
        "x-curse-project-id"@[7] == '-',
        "x-curse-project-id"@[8] == 'p',
        "x-curse-project-id"@[9] == 'r',
        "x-curse-project-id"@[10] == 'o',
        "x-curse-project-id"@[11] == 'j',
        "x-curse-project-id"@[12] == 'e',
        "x-curse-project-id"@[13] == 'c',
        "x-curse-project-id"@[14] == 't',
        "x-curse-project-id"@[15] == '-',
        "x-curse-project-id"@[16] == 'i',
        "x-curse-project-id"@[17] == 'd',
        "x-wowi-id"@.len() == 9,
        "x-wowi-id"@[0] == 'x',
        "x-wowi-id"@[1] == '-',
        "x-wowi-id"@[2] == 'w',
        "x-wowi-id"@[3] == 'o',
        "x-wowi-id"@[4] == 'w',
        "x-wowi-id"@[5] == 'i',
        "x-wowi-id"@[6] == '-',
        "x-wowi-id"@[7] == 'i',
        "x-wowi-id"@[8] == 'd',
        "x-website"@.len() == 9,
        "x-website"@[0] == 'x',
        "x-website"@[1] == '-',
        "x-website"@[2] == 'w',
        "x-website"@[3] == 'e',
        "x-website"@[4] == 'b',
        "x-website"@[5] == 's',
        "x-website"@[6] == 'i',
        "x-website"@[7] == 't',
        "x-website"@[8] == 'e',
        "x-project"@.len() == 9,
        "x-project"@[0] == 'x',
        "x-project"@[1] == '-',
        "x-project"@[2] == 'p',
        "x-project"@[3] == 'r',
        "x-project"@[4] == 'o',
        "x-project"@[5] == 'j',
        "x-project"@[6] == 'e',
        "x-project"@[7] == 'c',
        "x-project"@[8] == 't',
        "x-github"@.len() == 8,
        "x-github"@[0] == 'x',
        "x-github"@[1] == '-',
        "x-github"@[2] == 'g',
        "x-github"@[3] == 'i',
        "x-github"@[4] == 't',
        "x-github"@[5] == 'h',
        "x-github"@[6] == 'u',
        "x-github"@[7] == 'b',
        "dependencies"@.len() == 12,
        "dependencies"@[0] == 'd',
        "dependencies"@[1] == 'e',
        "dependencies"@[2] == 'p',
        "dependencies"@[3] == 'e',
        "dependencies"@[4] == 'n',
        "dependencies"@[5] == 'd',
        "dependencies"@[6] == 'e',
        "dependencies"@[7] == 'n',
        "dependencies"@[8] == 'c',
        "dependencies"@[9] == 'i',
        "dependencies"@[10] == 'e',
        "dependencies"@[11] == 's',
        "requireddeps"@.len() == 12,
        "requireddeps"@[0] == 'r',
        "requireddeps"@[1] == 'e',
        "requireddeps"@[2] == 'q',
        "requireddeps"@[3] == 'u',
        "requireddeps"@[4] == 'i',
        "requireddeps"@[5] == 'r',
        "requireddeps"@[6] == 'e',
        "requireddeps"@[7] == 'd',
        "requireddeps"@[8] == 'd',
        "requireddeps"@[9] == 'e',
        "requireddeps"@[10] == 'p',
        "requireddeps"@[11] == 's',
        "x-part-of"@.len() == 9,
        "x-part-of"@[0] == 'x',
        "x-part-of"@[1] == '-',
        "x-part-of"@[2] == 'p',
        "x-part-of"@[3] == 'a',
        "x-part-of"@[4] == 'r',
        "x-part-of"@[5] == 't',
        "x-part-of"@[6] == '-',
        "x-part-of"@[7] == 'o',
        "x-part-of"@[8] == 'f',
{
    reveal_strlit("title");
    reveal_strlit("version");
    reveal_strlit("author");
    reveal_strlit("notes");
    reveal_strlit("interface");
    reveal_strlit("x-wago-id");
    reveal_strlit("x-curse-project-id");
    reveal_strlit("x-wowi-id");
    reveal_strlit("x-website");
    reveal_strlit("x-project");
    reveal_strlit("x-github");
    reveal_strlit("dependencies");
    reveal_strlit("requireddeps");
    reveal_strlit("x-part-of");
}

/// A value fit for a one-line TOC entry: not empty, no line break, and no
/// whitespace (or byte-order mark) at its ends.
pub open spec fn solid_value(v: Seq<char>) -> bool {
    &&& v.len() > 0
    &&& !is_ws(v[0]) && !is_ws(v.last()) && v[0] != '\u{feff}'
    &&& forall|i: int| 0 <= i < v.len() ==> v[i] != '\n'
}

proof fn lemma_key_chars(k: Seq<char>, lit: Seq<char>)
    requires
        lower(k) == lit,
        lit.len() > 0,
        forall|i: int| 0 <= i < lit.len() ==> lit[i] != ':' && lit[i] != '\n' && !is_ws(lit[i]),
    ensures
        k.len() > 0,
        !is_ws(k[0]) && !is_ws(k.last()),
        forall|i: int| 0 <= i < k.len() ==> k[i] != ':' && k[i] != '\n',
{
    assert(lower(k).len() == k.len());
    assert forall|i: int| 0 <= i < k.len() implies k[i] != ':' && k[i] != '\n' && !is_ws(k[i]) by {
        assert(lower(k)[i] == lower_char(k[i]));
        assert(lit[i] == lower_char(k[i]));
    }
    assert(k.last() == k[k.len() - 1]);
}

/// `## X-Wago-ID: <id>` (key in any case) gives a folder without a Wago id
/// that id.
pub proof fn law_toc_reads_wago_id(a: AddonSpec, k: Seq<char>, v: Seq<char>)
    requires
        a.wago is None,
        lower(k) == "x-wago-id"@,
        solid_value(v),
    ensures
        toc_text(a, "## "@ + k + ": "@ + v).wago == Some(v),
{
    reveal_strlit("x-wago-id");
    lemma_key_chars(k, "x-wago-id"@);
    lemma_toc_key_lits();
    lemma_toc_single_entry(a, k, v);
}

/// `## X-Curse-Project-ID: <n>` (key in any case) gives a folder without a
/// CurseForge id the id `n`.
pub proof fn law_toc_reads_curse_id(a: AddonSpec, k: Seq<char>, n: u64)
    requires
        a.curse is None,
        lower(k) == "x-curse-project-id"@,
    ensures
        toc_text(a, "## "@ + k + ": "@ + decimal(n as nat)).curse == Some(n),
{
    reveal_strlit("x-curse-project-id");
    let d = decimal(n as nat);
    lemma_decimal_digits(n as nat);
    lemma_parse_decimal(n);
    lemma_key_chars(k, "x-curse-project-id"@);
    assert(is_digit(d[0]));
    assert(is_digit(d.last()) && d.last() == d[d.len() - 1]);
    assert forall|i: int| 0 <= i < d.len() implies d[i] != '\n' by {
        assert(is_digit(d[i]));
    }
    lemma_toc_key_lits();
    lemma_toc_single_entry(a, k, d);
}

/// `## Version: <v>` (key in any case) gives a folder without a version
/// that version.
pub proof fn law_toc_reads_version(a: AddonSpec, k: Seq<char>, v: Seq<char>)
    requires
        a.version is None,
        lower(k) == "version"@,
        solid_value(v),
    ensures
        toc_text(a, "## "@ + k + ": "@ + v).version == Some(v),
{
    reveal_strlit("version");
    lemma_key_chars(k, "version"@);
    lemma_toc_key_lits();
    lemma_toc_single_entry(a, k, v);
}

/// `## X-Part-Of: <name>` (key in any case) makes a folder not yet part of
/// another addon a module of `<name>`.
pub proof fn law_toc_reads_part_of(a: AddonSpec, k: Seq<char>, v: Seq<char>)
    requires
        a.part_of is None,
        lower(k) == "x-part-of"@,
        solid_value(v),
    ensures
        toc_text(a, "## "@ + k + ": "@ + v).part_of == Some(v),
{
    reveal_strlit("x-part-of");
    lemma_key_chars(k, "x-part-of"@);
    lemma_toc_key_lits();
    lemma_toc_single_entry(a, k, v);
}

/// A text without `c` splits at `c` into itself alone.
proof fn lemma_split_none(t: Seq<char>, c: char)
    requires
        forall|i: int| 0 <= i < t.len() ==> t[i] != c,
    ensures
        split_char(t, c) == seq![t],
{
    lemma_first_in_from(t, seq![c], 0);
    if let Some(j) = first_in_from(t, seq![c], 0) {
        assert(seq![c].contains(t[j]));
        assert(t[j] == c) by {
            let q = choose|q: int| 0 <= q < 1 && seq![c][q] == t[j];
        }
    }
    assert(t.subrange(0, t.len() as int) =~= t);
    assert(split_from(t, c, 0) == seq![t]);
}

/// `## Interface: <n>` (key in any case) gives a folder with no interface
/// numbers yet the number `n`.
pub proof fn law_toc_reads_interface(a: AddonSpec, k: Seq<char>, n: u32)
    requires
        a.interfaces.len() == 0,
        lower(k) == "interface"@,
    ensures
        toc_text(a, "## "@ + k + ": "@ + decimal(n as nat)).interfaces == seq![n],
{
    reveal_strlit("interface");
    let d = decimal(n as nat);
    lemma_decimal_digits(n as nat);
    lemma_key_chars(k, "interface"@);
    assert(is_digit(d[0]));
    assert(is_digit(d.last()) && d.last() == d[d.len() - 1]);
    assert forall|i: int| 0 <= i < d.len() implies d[i] != '\n' && d[i] != ',' by {
        assert(is_digit(d[i]));
    }
    lemma_toc_key_lits();
    lemma_toc_single_entry(a, k, d);
    lemma_split_none(d, ',');
    assert(trim_start(d) == d);
    assert(trim_end(d) == d);
    assert(crate::num::unsigned_body(d) == d);
    assert(parse_u32(d) == Some(n));
    let p = seq![d];
    assert(p.drop_last() =~= Seq::<Seq<char>>::empty());
    assert(p.last() == d);
    assert(add_interfaces(a.interfaces, Seq::<Seq<char>>::empty()) == a.interfaces);
    assert(a.interfaces =~= Seq::<u32>::empty());
    assert(!a.interfaces.contains(n));
    assert(a.interfaces.push(n) =~= seq![n]);
}

/// `## Dependencies: <name>` (key in any case) adds `<name>` to a folder's
/// dependencies.
pub proof fn law_toc_reads_dependency(a: AddonSpec, k: Seq<char>, v: Seq<char>)
    requires
        lower(k) == "dependencies"@,
        solid_value(v),
        forall|i: int| 0 <= i < v.len() ==> v[i] != ',',
    ensures
        toc_text(a, "## "@ + k + ": "@ + v).dependencies == a.dependencies.push(v),
{
    reveal_strlit("dependencies");
    lemma_key_chars(k, "dependencies"@);
    lemma_toc_key_lits();
    lemma_toc_single_entry(a, k, v);
    lemma_split_none(v, ',');
    lemma_trim_solid(v);
    let p = seq![v];
    assert(p.drop_last() =~= Seq::<Seq<char>>::empty());
    assert(p.last() == v);
    assert(add_deps(a.dependencies, Seq::<Seq<char>>::empty()) == a.dependencies);
}

// ------------------------------------------------------------------ scanning AddOns

/// Folders that are never addons: hidden ones and Blizzard's own.
pub open spec fn spec_is_addon_dir_name(name: Seq<char>) -> bool {
    !starts_with(name, "."@) && !starts_with(name, "Blizzard_"@)
}

pub fn is_addon_dir_name(name: &str) -> (r: bool)
    ensures
        r == spec_is_addon_dir_name(name@),
{
    let n = chars_of(name);
    let dot = chars_of(".");
    let bz = chars_of("Blizzard_");
    !starts_with_exec(&n, &dot) && !starts_with_exec(&n, &bz)
}

/// TOC suffixes the game (and Wago's data endpoint) recognise for Forever.
pub open spec fn spec_forever_toc_suffixes() -> Seq<Seq<char>> {
    seq!["_Forever"@, "-Forever"@, "_Camelot"@, "-Camelot"@]
}

pub fn forever_toc_suffixes() -> (r: Vec<Vec<char>>)
    ensures
        views(r@) == spec_forever_toc_suffixes(),
        r@.len() == 4,
{
    let mut r: Vec<Vec<char>> = Vec::new();
    r.push(chars_of("_Forever"));
    r.push(chars_of("-Forever"));
    r.push(chars_of("_Camelot"));
    r.push(chars_of("-Camelot"));
    assert(views(r@) =~= spec_forever_toc_suffixes());
    r
}

/// The Forever-specific TOC file names of folder `name`, in the order they are read.
pub fn forever_toc_file_names(name: &str) -> (r: Vec<String>)
    ensures
        r@.len() == 4,
        forall|k: int| 0 <= k < 4 ==> #[trigger] r@[k]@ == name@ + spec_forever_toc_suffixes()[k] + ".toc"@,
{
    let n = chars_of(name);
    let sufs = forever_toc_suffixes();
    let toc = chars_of(".toc");
    let mut out: Vec<String> = Vec::new();
    let mut k: usize = 0;
    while k < sufs.len()
        invariant
            k <= sufs.len() == 4,
            views(sufs@) == spec_forever_toc_suffixes(),
            n@ == name@,
            toc@ == ".toc"@,
            out@.len() == k,
            forall|j: int| 0 <= j < k ==> #[trigger] out@[j]@ == name@ + spec_forever_toc_suffixes()[j] + ".toc"@,
        decreases sufs.len() - k,
    {
        let mut v = copy_vec(&n);
        push_all(&mut v, &sufs[k]);
        push_all(&mut v, &toc);
        assert(views(sufs@)[k as int] == sufs@[k as int]@);
        out.push(string_of(&v));
        k = k + 1;
    }
    out
}

fn copy_vec(v: &Vec<char>) -> (r: Vec<char>)
    ensures
        r@ == v@,
{
    sub_chars(v, 0, v.len())
}

/// The generic TOC file name of folder `name`.
pub fn generic_toc_file_name(name: &str) -> (r: String)
    ensures
        r@ == name@ + ".toc"@,
{
    let mut v = chars_of(name);
    let toc = chars_of(".toc");
    push_all(&mut v, &toc);
    string_of(&v)
}

pub open spec fn spec_is_toc_file_name(fname: Seq<char>) -> bool {
    ends_with(lower(fname), ".toc"@)
}

/// A file name ending in `.toc`, in any case.
pub fn is_toc_file_name(fname: &str) -> (r: bool)
    ensures
        r == spec_is_toc_file_name(fname@),
{
    let f = chars_of(fname);
    let l = lower_exec(&f);
    let toc = chars_of(".toc");
    ends_with_exec(&l, &toc)
}

pub open spec fn spec_toc_stem_is_forever(fname: Seq<char>) -> bool {
    let stem = strip_suffix_all(strip_suffix_all(fname, ".toc"@), ".TOC"@);
    exists|k: int| 0 <= k < 4 && ends_with(stem, #[trigger] spec_forever_toc_suffixes()[k])
}

/// Does a TOC file name mark a Forever build (e.g. `Foo_Forever.toc`)?
pub fn toc_stem_is_forever(fname: &str) -> (r: bool)
    ensures
        r == spec_toc_stem_is_forever(fname@),
{
    let f = chars_of(fname);
    let a = chars_of(".toc");
    let b = chars_of(".TOC");
    let s1 = strip_suffix_all_exec(&f, &a);
    let stem = strip_suffix_all_exec(&s1, &b);
    let sufs = forever_toc_suffixes();
    let mut k: usize = 0;
    while k < sufs.len()
        invariant
            k <= sufs.len() == 4,
            views(sufs@) == spec_forever_toc_suffixes(),
            stem@ == strip_suffix_all(strip_suffix_all(fname@, ".toc"@), ".TOC"@),
            forall|j: int| 0 <= j < k ==> !ends_with(stem@, #[trigger] spec_forever_toc_suffixes()[j]),
        decreases sufs.len() - k,
    {
        assert(views(sufs@)[k as int] == sufs@[k as int]@);
        if ends_with_exec(&stem, &sufs[k]) {
            return true;
        }
        k = k + 1;
    }
    false
}

pub open spec fn any_forever_interface(xs: Seq<u32>) -> bool {
    exists|i: int| 0 <= i < xs.len() && spec_is_forever_interface(#[trigger] xs[i])
}

/// Last touches once a folder's TOCs are read: the title falls back to the
/// folder name and the interface numbers decide `forever_interface`.
pub fn finish_addon(af: &mut AddonFolder)
    ensures
        final(af)@ == (AddonSpec {
            title: if old(af)@.title.len() == 0 { old(af)@.folder } else { old(af)@.title },
            forever_interface: any_forever_interface(old(af)@.interfaces),
            ..old(af)@
        }),
{
    if af.title.as_str().is_empty() {
        af.title = af.folder.clone();
    }
    let mut found = false;
    let mut i: usize = 0;
    while i < af.interfaces.len()
        invariant
            i <= af.interfaces.len(),
            af.interfaces@ == old(af)@.interfaces,
            found == exists|j: int| 0 <= j < i && spec_is_forever_interface(#[trigger] af.interfaces@[j]),
        decreases af.interfaces.len() - i,
    {
        if is_forever_interface(af.interfaces[i]) {
            found = true;
        }
        i = i + 1;
    }
    af.forever_interface = found;
}

/// The folder once its TOCs are read: see [`finish_addon`].
pub open spec fn finished(a: AddonSpec) -> AddonSpec {
    AddonSpec {
        title: if a.title.len() == 0 { a.folder } else { a.title },
        forever_interface: any_forever_interface(a.interfaces),
        ..a
    }
}

/// A TOC file as the scan finds it: `None` when absent, `Some(None)` when
/// present but unreadable, `Some(Some(text))` when read.
pub open spec fn toc_file_view(o: Option<Option<String>>) -> Option<Option<Seq<char>>> {
    match o {
        Some(Some(t)) => Some(Some(t@)),
        Some(None) => Some(None),
        None => None,
    }
}

/// The effect of a TOC text that may be unreadable, and whether it was read.
pub open spec fn read_toc(a: AddonSpec, t: Option<Seq<char>>) -> (AddonSpec, bool) {
    match t {
        Some(x) => (toc_text(a, x), true),
        None => (a, false),
    }
}

/// The Forever TOC files, in order: each one present marks the folder as
/// having a Forever TOC, and is read.
pub open spec fn fold_forever(a: AddonSpec, fs: Seq<Option<Option<Seq<char>>>>) -> AddonSpec
    decreases fs.len(),
{
    if fs.len() == 0 {
        a
    } else {
        let b = fold_forever(a, fs.drop_last());
        match fs.last() {
            None => b,
            Some(t) => read_toc(AddonSpec { forever_toc: true, ..b }, t).0,
        }
    }
}

/// The fallback over every file of the folder (name and text, `None` when
/// unreadable): each `.toc` file is read, and one whose stem ends in a
/// Forever suffix marks the folder; the boolean says whether any was read.
pub open spec fn fold_others(a: AddonSpec, os: Seq<(Seq<char>, Option<Seq<char>>)>) -> (AddonSpec, bool)
    decreases os.len(),
{
    if os.len() == 0 {
        (a, false)
    } else {
        let (b, any) = fold_others(a, os.drop_last());
        let (nm, t) = os.last();
        if spec_is_toc_file_name(nm) {
            let (c, read) = read_toc(b, t);
            (if spec_toc_stem_is_forever(nm) { AddonSpec { forever_toc: true, ..c } } else { c }, any || read)
        } else {
            (b, any)
        }
    }
}

/// The addon a folder of `AddOns` holds, from its TOC files: the Forever
/// TOCs first (so their Interface and Version win), then `<name>.toc`; when
/// neither gave anything, every `.toc` file of the folder. `None` when the
/// folder is hidden or Blizzard's, or no TOC was read.
pub open spec fn spec_addon_from_tocs(
    name: Seq<char>,
    forever: Seq<Option<Option<Seq<char>>>>,
    generic: Option<Option<Seq<char>>>,
    others: Seq<(Seq<char>, Option<Seq<char>>)>,
) -> Option<AddonSpec> {
    if !spec_is_addon_dir_name(name) {
        None
    } else {
        let a1 = fold_forever(empty_addon(name), forever);
        let (a2, any2) = match generic {
            Some(t) => {
                let (b, read) = read_toc(a1, t);
                (b, a1.forever_toc || read)
            },
            None => (a1, a1.forever_toc),
        };
        let (a3, any3) = if any2 { (a2, true) } else { fold_others(a2, others) };
        if any3 { Some(finished(a3)) } else { None }
    }
}

/// Every folder whose own TOC (`<name>.toc`) or a Forever TOC can be read
/// is listed, unless it is hidden or Blizzard's.
pub proof fn law_readable_toc_lists_the_folder(
    name: Seq<char>,
    forever: Seq<Option<Option<Seq<char>>>>,
    generic: Option<Option<Seq<char>>>,
    others: Seq<(Seq<char>, Option<Seq<char>>)>,
)
    requires
        spec_is_addon_dir_name(name),
        (generic matches Some(Some(_))) || exists|i: int| 0 <= i < forever.len() && (#[trigger] forever[i]) is Some,
    ensures
        spec_addon_from_tocs(name, forever, generic, others) is Some,
{
    if exists|i: int| 0 <= i < forever.len() && (#[trigger] forever[i]) is Some {
        let i = choose|i: int| 0 <= i < forever.len() && (#[trigger] forever[i]) is Some;
        lemma_fold_forever_marks(empty_addon(name), forever, i);
    }
}

proof fn lemma_fold_forever_marks(a: AddonSpec, fs: Seq<Option<Option<Seq<char>>>>, i: int)
    requires
        0 <= i < fs.len(),
        fs[i] is Some,
    ensures
        fold_forever(a, fs).forever_toc,
    decreases fs.len(),
{
    let b = fold_forever(a, fs.drop_last());
    if i < fs.len() - 1 {
        assert(fs.drop_last()[i] == fs[i]);
        lemma_fold_forever_marks(a, fs.drop_last(), i);
        lemma_toc_text_keeps_forever(b, fs.last());
    } else {
        lemma_toc_text_keeps_forever(AddonSpec { forever_toc: true, ..b }, fs.last());
    }
}

/// Reading a TOC never clears the Forever-TOC mark.
proof fn lemma_toc_text_keeps_forever(a: AddonSpec, f: Option<Option<Seq<char>>>)
    ensures
        match f {
            Some(t) => read_toc(AddonSpec { forever_toc: true, ..a }, t).0.forever_toc,
            None => true,
        },
{
    if let Some(Some(x)) = f {
        lemma_toc_lines_keep_forever(AddonSpec { forever_toc: true, ..a }, lines(skip_in(x, seq!['\u{feff}'])));
    }
}

proof fn lemma_toc_lines_keep_forever(a: AddonSpec, ls: Seq<Seq<char>>)
    ensures
        toc_lines(a, ls).forever_toc == a.forever_toc,
    decreases ls.len(),
{
    if ls.len() > 0 {
        lemma_toc_lines_keep_forever(a, ls.drop_last());
    }
}

pub open spec fn other_view(p: (String, Option<String>)) -> (Seq<char>, Option<Seq<char>>) {
    (p.0@, match p.1 { Some(t) => Some(t@), None => None })
}

fn read_opt(t: &Option<String>, into: &mut AddonFolder) -> (r: bool)
    ensures
        (final(into)@, r) == read_toc(old(into)@, match t { Some(x) => Some(x@), None => None }),
{
    match t {
        Some(x) => parse_toc(Some(x.as_str()), into),
        None => parse_toc(None, into),
    }
}

/// The addon in folder `name`, from the TOC files found in it: `forever`
/// for the files named by [`forever_toc_file_names`], in that order,
/// `generic` for `<name>.toc`, and `others` for every file of the folder
/// (name and text), read only when the first two gave nothing.
pub fn addon_from_tocs(
    name: &str,
    forever: &Vec<Option<Option<String>>>,
    generic: &Option<Option<String>>,
    others: &Vec<(String, Option<String>)>,
) -> (r: Option<AddonFolder>)
    ensures
        match r {
            Some(a) => spec_addon_from_tocs(name@, forever@.map_values(|o: Option<Option<String>>| toc_file_view(o)), toc_file_view(*generic), others@.map_values(|p: (String, Option<String>)| other_view(p))) == Some(a@),
            None => spec_addon_from_tocs(name@, forever@.map_values(|o: Option<Option<String>>| toc_file_view(o)), toc_file_view(*generic), others@.map_values(|p: (String, Option<String>)| other_view(p))) is None,
        },
{
    let ghost fv = forever@.map_values(|o: Option<Option<String>>| toc_file_view(o));
    let ghost ov = others@.map_values(|p: (String, Option<String>)| other_view(p));
    if !is_addon_dir_name(name) {
        return None;
    }
    let mut af = AddonFolder::new(String::from_str(name));
    let ghost a0 = af@;
    let mut i: usize = 0;
    while i < forever.len()
        invariant
            i <= forever.len(),
            fv == forever@.map_values(|o: Option<Option<String>>| toc_file_view(o)),
            af@ == fold_forever(a0, fv.take(i as int)),
        decreases forever.len() - i,
    {
        assert(fv.take(i + 1).drop_last() =~= fv.take(i as int));
        assert(fv.take(i + 1).last() == toc_file_view(forever@[i as int]));
        match &forever[i] {
            Some(t) => {
                af.forever_toc = true;
                read_opt(t, &mut af);
            },
            None => {},
        }
        i = i + 1;
    }
    assert(fv.take(forever.len() as int) =~= fv);
    let ghost a1 = af@;
    let mut any = af.forever_toc;
    match generic {
        Some(t) => {
            let read = read_opt(t, &mut af);
            any = any || read;
        },
        None => {},
    }
    if !any {
        let ghost a2 = af@;
        let mut j: usize = 0;
        while j < others.len()
            invariant
                j <= others.len(),
                ov == others@.map_values(|p: (String, Option<String>)| other_view(p)),
                (af@, any) == fold_others(a2, ov.take(j as int)),
            decreases others.len() - j,
        {
            assert(ov.take(j + 1).drop_last() =~= ov.take(j as int));
            assert(ov.take(j + 1).last() == other_view(others@[j as int]));
            let (fname, t) = &others[j];
            if is_toc_file_name(fname.as_str()) {
                let read = read_opt(t, &mut af);
                if toc_stem_is_forever(fname.as_str()) {
                    af.forever_toc = true;
                }
                any = any || read;
            }
            j = j + 1;
        }
        assert(ov.take(others.len() as int) =~= ov);
    }
    if !any {
        return None;
    }
    finish_addon(&mut af);
    Some(af)
}

/// `v` reordered by `idx`: element `k` of the result is `v[idx[k]]`.
pub open spec fn reordered(v: Seq<AddonSpec>, idx: Seq<usize>) -> Seq<AddonSpec> {
    idx.map_values(|i: usize| v[i as int])
}

pub open spec fn addon_views(v: Seq<AddonFolder>) -> Seq<AddonSpec> {
    v.map_values(|a: AddonFolder| a@)
}

pub open spec fn folder_keys(v: Seq<AddonSpec>) -> Seq<Seq<char>> {
    v.map_values(|a: AddonSpec| lower(a.folder))
}

/// Folders sorted by lower-cased name (a stable sort).
pub fn sort_addons(v: Vec<AddonFolder>) -> (r: Vec<AddonFolder>)
    ensures
        exists|idx: Seq<usize>| #![trigger is_perm(idx, v@.len())]
            is_perm(idx, v@.len()) && stably_sorted(folder_keys(addon_views(v@)), idx)
            && addon_views(r@) == reordered(addon_views(v@), idx),
{
    let mut keys: Vec<Vec<char>> = Vec::new();
    let mut i: usize = 0;
    while i < v.len()
        invariant
            i <= v.len(),
            keys@.len() == i,
            forall|j: int| 0 <= j < i ==> #[trigger] keys@[j]@ == lower(v@[j].folder@),
        decreases v.len() - i,
    {
        let f = chars_of(v[i].folder.as_str());
        keys.push(lower_exec(&f));
        i = i + 1;
    }
    assert(keys@.map_values(|k: Vec<char>| k@) =~= folder_keys(addon_views(v@)));
    let idx = stable_order(&keys);
    let mut out: Vec<AddonFolder> = Vec::new();
    let mut k: usize = 0;
    while k < idx.len()
        invariant
            k <= idx.len(),
            is_perm(idx@, v@.len()),
            out@.len() == k,
            forall|j: int| 0 <= j < k ==> #[trigger] out@[j]@ == v@[idx@[j] as int]@,
        decreases idx.len() - k,
    {
        out.push(v[idx[k]].duplicate());
        k = k + 1;
    }
    assert(addon_views(out@) =~= reordered(addon_views(v@), idx@));
    out
}

/// Installs ordered Forever first, then by path; a later install whose path
/// equals (ignoring ASCII case) the one kept before it is dropped.
pub open spec fn install_key(w: (Seq<char>, Seq<char>, Seq<char>, Seq<char>)) -> Seq<char> {
    seq![if w.2 == "forever"@ { '0' } else { '1' }] + w.0
}

pub open spec fn dedup_paths(s: Seq<(Seq<char>, Seq<char>, Seq<char>, Seq<char>)>) -> Seq<(Seq<char>, Seq<char>, Seq<char>, Seq<char>)>
    decreases s.len(),
{
    if s.len() == 0 {
        s
    } else {
        let d = dedup_paths(s.drop_last());
        if d.len() > 0 && lower(d.last().0) == lower(s.last().0) { d } else { d.push(s.last()) }
    }
}

pub open spec fn install_views(v: Seq<WowInstall>) -> Seq<(Seq<char>, Seq<char>, Seq<char>, Seq<char>)> {
    v.map_values(|w: WowInstall| install_view(w))
}

fn dup_install(w: &WowInstall) -> (r: WowInstall)
    ensures
        install_view(r) == install_view(*w),
{
    WowInstall { path: w.path.clone(), product: w.product.clone(), flavor: w.flavor.clone(), label: w.label.clone() }
}

/// Forever first, then the rest, stable by path; duplicates (ignoring case) dropped.
pub fn order_installs(v: Vec<WowInstall>) -> (r: Vec<WowInstall>)
    ensures
        exists|idx: Seq<usize>| #![trigger is_perm(idx, v@.len())]
            is_perm(idx, v@.len())
            && stably_sorted(install_views(v@).map_values(|w: (Seq<char>, Seq<char>, Seq<char>, Seq<char>)| install_key(w)), idx)
            && install_views(r@) == dedup_paths(idx.map_values(|i: usize| install_views(v@)[i as int])),
{
    let ghost iv = install_views(v@);
    let mut keys: Vec<Vec<char>> = Vec::new();
    let mut i: usize = 0;
    while i < v.len()
        invariant
            i <= v.len(),
            iv == install_views(v@),
            keys@.len() == i,
            forall|j: int| 0 <= j < i ==> #[trigger] keys@[j]@ == install_key(iv[j]),
        decreases v.len() - i,
    {
        let fl = chars_of(v[i].flavor.as_str());
        let mut key: Vec<char> = Vec::new();
        if eq_lit(&fl, "forever") {
            key.push('0');
        } else {
            key.push('1');
        }
        let p = chars_of(v[i].path.as_str());
        push_all(&mut key, &p);
        assert(iv[i as int] == install_view(v@[i as int]));
        assert(key@ =~= install_key(iv[i as int]));
        keys.push(key);
        i = i + 1;
    }
    assert(keys@.map_values(|k: Vec<char>| k@) =~= iv.map_values(|w: (Seq<char>, Seq<char>, Seq<char>, Seq<char>)| install_key(w)));
    let idx = stable_order(&keys);
    let ghost sorted = idx@.map_values(|i: usize| iv[i as int]);
    let mut out: Vec<WowInstall> = Vec::new();
    let mut k: usize = 0;
    assert(sorted.take(0) =~= Seq::<(Seq<char>, Seq<char>, Seq<char>, Seq<char>)>::empty());
    while k < idx.len()
        invariant
            k <= idx.len(),
            is_perm(idx@, v@.len()),
            iv == install_views(v@),
            sorted == idx@.map_values(|i: usize| iv[i as int]),
            install_views(out@) == dedup_paths(sorted.take(k as int)),
        decreases idx.len() - k,
    {
        let w = &v[idx[k]];
        assert(install_view(*w) == sorted[k as int]);
        let ghost pre = sorted.take(k as int);
        let ghost nxt = sorted.take(k + 1);
        assert(nxt.drop_last() =~= pre);
        let keep = if out.len() > 0 {
            let a = chars_of(out[out.len() - 1].path.as_str());
            let b = chars_of(w.path.as_str());
            let la = lower_exec(&a);
            let lb = lower_exec(&b);
            assert(install_views(out@).last() == install_view(out@.last()));
            !chars_eq(&la, &lb)
        } else {
            true
        };
        if keep {
            let ghost before = install_views(out@);
            out.push(dup_install(w));
            assert(install_views(out@) =~= before.push(install_view(*w)));
        }
        k = k + 1;
    }
    assert(sorted.take(idx@.len() as int) =~= sorted);
    out
}

} // verus!
