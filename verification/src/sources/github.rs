//! GitHub releases: choosing the zip from a packager `release.json` or from
//! the release's asset list.
use vstd::prelude::*;
use crate::sources::{remote_result, Remote, RemoteSpec};
use crate::text::{
    chars_eq, chars_of, contains, contains_exec, drop_in_end, drop_in_end_exec, ends_with,
    ends_with_exec, lower, lower_exec, push_all, skip_in, skip_in_exec, string_of, strip_suffix_all,
    strip_suffix_all_exec, trim, trim_exec,
};
use crate::wow::{is_forever_interface, spec_is_forever_interface};

verus! {

/// One build flavour a `release.json` file lists for a zip.
#[derive(Clone, Debug)]
pub struct Meta {
    pub flavor: String,
    pub interface: u32,
}

/// One zip in a packager `release.json`.
#[derive(Clone, Debug)]
pub struct ReleaseEntry {
    pub version: String,
    pub filename: String,
    pub nolib: bool,
    pub metadata: Vec<Meta>,
}

/// A packager `release.json`.
#[derive(Clone, Debug)]
pub struct ReleaseJson {
    pub releases: Vec<ReleaseEntry>,
}

/// A file attached to a GitHub release.
#[derive(Clone, Debug)]
pub struct ApiAsset {
    pub name: String,
    pub browser_download_url: String,
}

/// A GitHub release as the REST API describes it.
#[derive(Clone, Debug)]
pub struct ApiRelease {
    pub tag_name: String,
    pub prerelease: bool,
    pub draft: bool,
    pub assets: Vec<ApiAsset>,
}

pub open spec fn spec_is_forever(m: Meta) -> bool {
    lower(m.flavor@) == "forever"@ || lower(m.flavor@) == "camelot"@ || spec_is_forever_interface(m.interface)
}

/// Does a `release.json` flavour entry describe a Forever build?
pub fn is_forever(m: &Meta) -> (r: bool)
    ensures
        r == spec_is_forever(*m),
{
    let f = chars_of(m.flavor.as_str());
    let l = lower_exec(&f);
    let a = chars_of("forever");
    let b = chars_of("camelot");
    chars_eq(&l, &a) || chars_eq(&l, &b) || is_forever_interface(m.interface)
}

pub open spec fn entry_is_forever(e: ReleaseEntry) -> bool {
    exists|j: int| 0 <= j < e.metadata@.len() && spec_is_forever(#[trigger] e.metadata@[j])
}

/// First release (from `i`) that is not a no-lib build and lists a Forever flavour.
pub open spec fn first_forever_from(rs: Seq<ReleaseEntry>, i: int) -> Option<int>
    decreases rs.len() - i,
{
    if i < 0 || i >= rs.len() {
        None
    } else if !rs[i].nolib && entry_is_forever(rs[i]) {
        Some(i)
    } else {
        first_forever_from(rs, i + 1)
    }
}

/// First release (from `i`) that is not a no-lib build.
pub open spec fn first_lib_from(rs: Seq<ReleaseEntry>, i: int) -> Option<int>
    decreases rs.len() - i,
{
    if i < 0 || i >= rs.len() {
        None
    } else if !rs[i].nolib {
        Some(i)
    } else {
        first_lib_from(rs, i + 1)
    }
}

proof fn lemma_first_from(rs: Seq<ReleaseEntry>, i: int)
    requires
        0 <= i,
    ensures
        first_forever_from(rs, i) matches Some(j) ==> i <= j < rs.len(),
        first_lib_from(rs, i) matches Some(j) ==> i <= j < rs.len(),
    decreases rs.len() - i,
{
    if i < rs.len() {
        lemma_first_from(rs, i + 1);
    }
}

/// How a release's file names map to download URLs.
pub enum UrlFor {
    /// `base` followed by the file name.
    Base(String),
    /// The matching asset of a release (empty when none matches).
    Assets(Vec<ApiAsset>),
}

pub open spec fn first_asset_named(assets: Seq<ApiAsset>, name: Seq<char>, i: int) -> Option<int>
    decreases assets.len() - i,
{
    if i < 0 || i >= assets.len() {
        None
    } else if assets[i].name@ == name {
        Some(i)
    } else {
        first_asset_named(assets, name, i + 1)
    }
}

pub open spec fn spec_url_for(u: UrlFor, name: Seq<char>) -> Seq<char> {
    match u {
        UrlFor::Base(b) => b@ + name,
        UrlFor::Assets(a) => match first_asset_named(a@, name, 0) {
            Some(i) => a@[i].browser_download_url@,
            None => seq![],
        },
    }
}

fn find_asset_named(assets: &Vec<ApiAsset>, name: &[char]) -> (r: Option<usize>)
    ensures
        match r {
            Some(i) => first_asset_named(assets@, name@, 0) == Some(i as int) && i < assets@.len(),
            None => first_asset_named(assets@, name@, 0) is None,
        },
{
    let mut i: usize = 0;
    while i < assets.len()
        invariant
            i <= assets.len(),
            first_asset_named(assets@, name@, 0) == first_asset_named(assets@, name@, i as int),
        decreases assets.len() - i,
    {
        let n = chars_of(assets[i].name.as_str());
        if chars_eq(&n, name) {
            return Some(i);
        }
        i = i + 1;
    }
    None
}

pub fn url_for(u: &UrlFor, name: &[char]) -> (r: String)
    ensures
        r@ == spec_url_for(*u, name@),
{
    match u {
        UrlFor::Base(b) => {
            let mut v = chars_of(b.as_str());
            push_all(&mut v, name);
            string_of(&v)
        },
        UrlFor::Assets(a) => match find_asset_named(a, name) {
            Some(i) => a[i].browser_download_url.clone(),
            None => String::new(),
        },
    }
}

pub open spec fn spec_pick_from_release_json(rj: ReleaseJson, u: UrlFor, prerelease: bool) -> Result<RemoteSpec, Seq<char>> {
    let rs = rj.releases@;
    let pick: Option<(int, bool)> = match first_forever_from(rs, 0) {
        Some(i) => Some((i, true)),
        None => match first_lib_from(rs, 0) {
            Some(i) => Some((i, false)),
            None => if rs.len() > 0 { Some((0, false)) } else { None },
        },
    };
    match pick {
        None => Err("release.json lists no files"@),
        Some((i, fv)) => {
            let e = rs[i];
            Ok(RemoteSpec {
                version: if trim(e.version@).len() == 0 { strip_suffix_all(e.filename@, ".zip"@) } else { e.version@ },
                download_url: spec_url_for(u, e.filename@),
                filename: e.filename@,
                forever: Some(fv),
                prerelease,
            })
        },
    }
}

proof fn lemma_first_forever_facts(rs: Seq<ReleaseEntry>, i: int)
    requires
        0 <= i,
    ensures
        first_forever_from(rs, i) matches Some(j) ==> i <= j < rs.len() && !rs[j].nolib && entry_is_forever(rs[j])
            && forall|k: int| i <= k < j ==> !(!(#[trigger] rs[k]).nolib && entry_is_forever(rs[k])),
        first_forever_from(rs, i) is None ==> forall|k: int| i <= k < rs.len() ==> !(!(#[trigger] rs[k]).nolib && entry_is_forever(rs[k])),
        first_lib_from(rs, i) matches Some(j) ==> i <= j < rs.len() && !rs[j].nolib
            && forall|k: int| i <= k < j ==> (#[trigger] rs[k]).nolib,
        first_lib_from(rs, i) is None ==> forall|k: int| i <= k < rs.len() ==> (#[trigger] rs[k]).nolib,
    decreases rs.len() - i,
{
    if i < rs.len() {
        lemma_first_forever_facts(rs, i + 1);
    }
}

/// Which entry of a packager `release.json` is installed, and what is
/// reported of it: the first entry that is not a no-lib build and lists a
/// Forever flavour; without one, the first that is not a no-lib build;
/// without one, the first entry; an empty list is an error. The version
/// reported is the entry's own version, and only a blank one falls back to
/// the file name without `.zip`; the file and its address are the entry's.
pub proof fn law_release_json_pick(rj: ReleaseJson, u: UrlFor, prerelease: bool)
    ensures
        ({
            let rs = rj.releases@;
            let any_forever = exists|j: int| 0 <= j < rs.len() && !(#[trigger] rs[j]).nolib && entry_is_forever(rs[j]);
            let any_lib = exists|j: int| 0 <= j < rs.len() && !(#[trigger] rs[j]).nolib;
            &&& (spec_pick_from_release_json(rj, u, prerelease) is Err <==> rs.len() == 0)
            &&& spec_pick_from_release_json(rj, u, prerelease) matches Ok(r) ==> exists|i: int| 0 <= i < rs.len() && {
                let e = #[trigger] rs[i];
                &&& r.filename == e.filename@
                &&& r.download_url == spec_url_for(u, e.filename@)
                &&& (trim(e.version@).len() > 0 ==> r.version == e.version@)
                &&& (trim(e.version@).len() == 0 ==> r.version == strip_suffix_all(e.filename@, ".zip"@))
                &&& r.prerelease == prerelease
                &&& (any_forever ==> !e.nolib && entry_is_forever(e) && r.forever == Some(true)
                    && forall|k: int| 0 <= k < i ==> !(!(#[trigger] rs[k]).nolib && entry_is_forever(rs[k])))
                &&& (!any_forever && any_lib ==> !e.nolib && r.forever == Some(false)
                    && forall|k: int| 0 <= k < i ==> (#[trigger] rs[k]).nolib)
                &&& (!any_forever && !any_lib ==> i == 0 && r.forever == Some(false))
            }
        }),
{
    let rs = rj.releases@;
    lemma_first_forever_facts(rs, 0);
    match spec_pick_from_release_json(rj, u, prerelease) {
        Ok(r) => {
            let i = match first_forever_from(rs, 0) {
                Some(i) => i,
                None => match first_lib_from(rs, 0) {
                    Some(i) => i,
                    None => 0,
                },
            };
            if first_forever_from(rs, 0) is Some {
                assert(!rs[i].nolib && entry_is_forever(rs[i]));
            } else if first_lib_from(rs, 0) is Some {
                assert(!rs[i].nolib);
                assert(!(exists|j: int| 0 <= j < rs.len() && !(#[trigger] rs[j]).nolib && entry_is_forever(rs[j])));
            } else {
                assert(!(exists|j: int| 0 <= j < rs.len() && !(#[trigger] rs[j]).nolib && entry_is_forever(rs[j])));
                assert(!(exists|j: int| 0 <= j < rs.len() && !(#[trigger] rs[j]).nolib));
            }
            assert(0 <= i < rs.len());
            let _ = rs[i];
        },
        Err(_) => {},
    }
}

fn entry_is_forever_exec(e: &ReleaseEntry) -> (r: bool)
    ensures
        r == entry_is_forever(*e),
{
    let mut j: usize = 0;
    while j < e.metadata.len()
        invariant
            j <= e.metadata.len(),
            forall|k: int| 0 <= k < j ==> !spec_is_forever(#[trigger] e.metadata@[k]),
        decreases e.metadata.len() - j,
    {
        if is_forever(&e.metadata[j]) {
            return true;
        }
        j = j + 1;
    }
    false
}

/// Pick the zip to install from a packager `release.json`: the first non-no-lib
/// build listing a Forever flavour, else the first non-no-lib build, else the first.
pub fn pick_from_release_json(rj: ReleaseJson, u: &UrlFor, prerelease: bool) -> (r: Result<Remote, String>)
    ensures
        remote_result(r) == spec_pick_from_release_json(rj, *u, prerelease),
{
    let ghost rs = rj.releases@;
    proof { lemma_first_from(rs, 0); }
    let mut fi: Option<usize> = None;
    let mut li: Option<usize> = None;
    let mut i: usize = 0;
    while i < rj.releases.len()
        invariant
            i <= rj.releases.len(),
            rs == rj.releases@,
            first_forever_from(rs, 0) == (if fi is Some { Some(fi->0 as int) } else { first_forever_from(rs, i as int) }),
            first_lib_from(rs, 0) == (if li is Some { Some(li->0 as int) } else { first_lib_from(rs, i as int) }),
        decreases rj.releases.len() - i,
    {
        let e = &rj.releases[i];
        if !e.nolib {
            if li.is_none() {
                li = Some(i);
            }
            if fi.is_none() && entry_is_forever_exec(e) {
                fi = Some(i);
            }
        }
        i = i + 1;
    }
    let (idx, fv) = match fi {
        Some(i) => (i, true),
        None => match li {
            Some(i) => (i, false),
            None => if rj.releases.len() > 0 {
                (0, false)
            } else {
                return Err(String::from_str("release.json lists no files"));
            },
        },
    };
    let e = &rj.releases[idx];
    let vc = chars_of(e.version.as_str());
    let vt = trim_exec(&vc);
    let fc = chars_of(e.filename.as_str());
    let version = if vt.len() == 0 {
        let z = chars_of(".zip");
        let s = strip_suffix_all_exec(&fc, &z);
        string_of(&s)
    } else {
        e.version.clone()
    };
    let download_url = url_for(u, &fc);
    Ok(Remote { version, download_url, filename: e.filename.clone(), forever: Some(fv), prerelease })
}

/// Keywords of other game flavours in a zip's name.
pub open spec fn other_flavor_words() -> Seq<Seq<char>> {
    seq!["classic"@, "vanilla"@, "bcc"@, "tbc"@, "wrath"@, "wotlk"@, "cata"@, "mists"@, "mop"@, "nolib"@]
}

pub open spec fn names_other_flavor(n: Seq<char>) -> bool {
    exists|k: int| 0 <= k < 10 && contains(n, #[trigger] other_flavor_words()[k])
}

/// First position (from `i`) whose asset satisfies `kind`:
/// 0 = name contains the hint, 1 = names Forever/Camelot, 2 = names no other flavour.
pub open spec fn asset_matches(a: ApiAsset, kind: int, hint: Seq<char>) -> bool {
    let n = lower(a.name@);
    if kind == 0 {
        contains(n, lower(hint))
    } else if kind == 1 {
        contains(n, "forever"@) || contains(n, "camelot"@)
    } else {
        !names_other_flavor(n)
    }
}

pub open spec fn first_matching(zips: Seq<ApiAsset>, kind: int, hint: Seq<char>, i: int) -> Option<int>
    decreases zips.len() - i,
{
    if i < 0 || i >= zips.len() {
        None
    } else if asset_matches(zips[i], kind, hint) {
        Some(i)
    } else {
        first_matching(zips, kind, hint, i + 1)
    }
}

/// Which zip of a release to take: one whose name contains the catalogue's
/// hint, else one naming Forever/Camelot, else one naming no other game
/// flavour, else the first.
pub open spec fn spec_pick_asset(zips: Seq<ApiAsset>, hint: Option<Seq<char>>) -> int {
    let by_hint = match hint {
        Some(h) => first_matching(zips, 0, h, 0),
        None => None,
    };
    match by_hint {
        Some(i) => i,
        None => match first_matching(zips, 1, seq![], 0) {
            Some(i) => i,
            None => match first_matching(zips, 2, seq![], 0) {
                Some(i) => i,
                None => 0,
            },
        },
    }
}

fn names_other_flavor_exec(n: &[char]) -> (r: bool)
    ensures
        r == names_other_flavor(n@),
{
    let mut words: Vec<Vec<char>> = Vec::new();
    words.push(chars_of("classic"));
    words.push(chars_of("vanilla"));
    words.push(chars_of("bcc"));
    words.push(chars_of("tbc"));
    words.push(chars_of("wrath"));
    words.push(chars_of("wotlk"));
    words.push(chars_of("cata"));
    words.push(chars_of("mists"));
    words.push(chars_of("mop"));
    words.push(chars_of("nolib"));
    assert(words@.map_values(|w: Vec<char>| w@) =~= other_flavor_words());
    let mut k: usize = 0;
    while k < words.len()
        invariant
            k <= words.len() == 10,
            words@.map_values(|w: Vec<char>| w@) == other_flavor_words(),
            forall|j: int| 0 <= j < k ==> !contains(n@, #[trigger] other_flavor_words()[j]),
        decreases words.len() - k,
    {
        assert(other_flavor_words()[k as int] == words@[k as int]@);
        if contains_exec(n, &words[k]) {
            return true;
        }
        k = k + 1;
    }
    false
}

fn first_matching_exec(zips: &Vec<ApiAsset>, kind: u8, hint: &[char]) -> (r: Option<usize>)
    requires
        kind <= 2,
    ensures
        match r {
            Some(i) => first_matching(zips@, kind as int, hint@, 0) == Some(i as int) && i < zips@.len(),
            None => first_matching(zips@, kind as int, hint@, 0) is None,
        },
{
    let lh = lower_exec(hint);
    let fo = chars_of("forever");
    let ca = chars_of("camelot");
    let mut i: usize = 0;
    while i < zips.len()
        invariant
            i <= zips.len(),
            kind <= 2,
            lh@ == lower(hint@),
            fo@ == "forever"@,
            ca@ == "camelot"@,
            first_matching(zips@, kind as int, hint@, 0) == first_matching(zips@, kind as int, hint@, i as int),
        decreases zips.len() - i,
    {
        let nc = chars_of(zips[i].name.as_str());
        let n = lower_exec(&nc);
        let m = if kind == 0 {
            contains_exec(&n, &lh)
        } else if kind == 1 {
            contains_exec(&n, &fo) || contains_exec(&n, &ca)
        } else {
            !names_other_flavor_exec(&n)
        };
        if m {
            return Some(i);
        }
        i = i + 1;
    }
    None
}

/// Choose among a release's zips (see [`spec_pick_asset`]).
pub fn pick_asset<'a>(zips: &'a Vec<ApiAsset>, asset_hint: Option<&str>) -> (r: &'a ApiAsset)
    requires
        zips@.len() > 0,
    ensures
        *r == zips@[spec_pick_asset(zips@, match asset_hint { Some(h) => Some(h@), None => None })],
{
    let empty: Vec<char> = Vec::new();
    assert(empty@ =~= Seq::<char>::empty());
    let by_hint = match asset_hint {
        Some(h) => {
            let hc = chars_of(h);
            first_matching_exec(zips, 0, &hc)
        },
        None => None,
    };
    let i = match by_hint {
        Some(i) => i,
        None => match first_matching_exec(zips, 1, &empty) {
            Some(i) => i,
            None => match first_matching_exec(zips, 2, &empty) {
                Some(i) => i,
                None => 0,
            },
        },
    };
    &zips[i]
}

pub open spec fn spec_zip_assets(assets: Seq<ApiAsset>) -> Seq<ApiAsset> {
    assets.filter(|a: ApiAsset| ends_with(lower(a.name@), ".zip"@))
}

/// The assets whose name ends in `.zip` (any case), in order.
pub fn zip_assets(assets: &Vec<ApiAsset>) -> (r: Vec<ApiAsset>)
    ensures
        r@ == spec_zip_assets(assets@),
{
    let z = chars_of(".zip");
    let mut out: Vec<ApiAsset> = Vec::new();
    let mut i: usize = 0;
    while i < assets.len()
        invariant
            i <= assets.len(),
            z@ == ".zip"@,
            out@ == spec_zip_assets(assets@.take(i as int)),
        decreases assets.len() - i,
    {
        reveal_with_fuel(Seq::filter, 1);
        assert(assets@.take(i + 1).drop_last() =~= assets@.take(i as int));
        let nc = chars_of(assets[i].name.as_str());
        let n = lower_exec(&nc);
        if ends_with_exec(&n, &z) {
            out.push(ApiAsset {
                name: assets[i].name.clone(),
                browser_download_url: assets[i].browser_download_url.clone(),
            });
        }
        i = i + 1;
    }
    assert(assets@.take(assets@.len() as int) =~= assets@);
    out
}

pub open spec fn spec_remote_from_assets(rel: ApiRelease, hint: Option<Seq<char>>) -> Result<RemoteSpec, Seq<char>> {
    let zips = spec_zip_assets(rel.assets@);
    if zips.len() == 0 {
        Err("release "@ + rel.tag_name@ + " has no zip asset"@)
    } else {
        let a = zips[spec_pick_asset(zips, hint)];
        Ok(RemoteSpec {
            version: rel.tag_name@,
            download_url: a.browser_download_url@,
            filename: a.name@,
            forever: None,
            prerelease: rel.prerelease,
        })
    }
}

/// The remote release when picking from the release's own zip assets.
pub fn remote_from_assets(rel: &ApiRelease, asset_hint: Option<&str>) -> (r: Result<Remote, String>)
    ensures
        remote_result(r) == spec_remote_from_assets(*rel, match asset_hint { Some(h) => Some(h@), None => None }),
{
    let zips = zip_assets(&rel.assets);
    if zips.len() == 0 {
        let mut m = chars_of("release ");
        let t = chars_of(rel.tag_name.as_str());
        push_all(&mut m, &t);
        let s = chars_of(" has no zip asset");
        push_all(&mut m, &s);
        return Err(string_of(&m));
    }
    let a = pick_asset(&zips, asset_hint);
    Ok(Remote {
        version: rel.tag_name.clone(),
        download_url: a.browser_download_url.clone(),
        filename: a.name.clone(),
        forever: None,
        prerelease: rel.prerelease,
    })
}

/// The URL of the release's `release.json` asset, if it has one.
pub fn release_json_asset(rel: &ApiRelease) -> (r: Option<String>)
    ensures
        match r {
            Some(u) => first_asset_named(rel.assets@, "release.json"@, 0) matches Some(i) && u@ == rel.assets@[i].browser_download_url@,
            None => first_asset_named(rel.assets@, "release.json"@, 0) is None,
        },
{
    let n = chars_of("release.json");
    match find_asset_named(&rel.assets, &n) {
        Some(i) => Some(rel.assets[i].browser_download_url.clone()),
        None => None,
    }
}

/// The pick from a release's `release.json`, kept only when the picked file is
/// one of the release's assets (`Ok(None)` means: fall back to the asset list).
pub fn pick_from_api_release_json(rj: ReleaseJson, rel: &ApiRelease) -> (r: Result<Option<Remote>, String>)
    ensures
        match spec_pick_from_release_json(rj, UrlFor::Assets(rel.assets), rel.prerelease) {
            Ok(x) => if x.download_url.len() > 0 { r matches Ok(Some(y)) && y@ == x } else { r matches Ok(None) },
            Err(e) => r matches Err(m) && m@ == e,
        },
{
    let mut assets: Vec<ApiAsset> = Vec::new();
    let mut i: usize = 0;
    while i < rel.assets.len()
        invariant
            i <= rel.assets.len(),
            assets@ == rel.assets@.take(i as int),
        decreases rel.assets.len() - i,
    {
        let a = ApiAsset { name: rel.assets[i].name.clone(), browser_download_url: rel.assets[i].browser_download_url.clone() };
        assert(a == rel.assets@[i as int]);
        assets.push(a);
        i = i + 1;
        assert(assets@ =~= rel.assets@.take(i as int));
    }
    assert(rel.assets@.take(rel.assets@.len() as int) =~= rel.assets@);
    let u = UrlFor::Assets(assets);
    let r = pick_from_release_json(rj, &u, rel.prerelease)?;
    if r.download_url.as_str().is_empty() {
        Ok(None)
    } else {
        Ok(Some(r))
    }
}

/// The error a GitHub API status means, if any.
pub fn api_error(status: u16, repo: &str) -> (r: Option<String>)
    ensures
        match r {
            Some(m) => (status == 404 && m@ == "no GitHub release found for "@ + repo@)
                || ((status == 403 || status == 429) && m@ == "GitHub API rate limit hit; try again in an hour"@),
            None => status != 404 && status != 403 && status != 429,
        },
{
    if status == 404 {
        let mut m = chars_of("no GitHub release found for ");
        let rc = chars_of(repo);
        push_all(&mut m, &rc);
        Some(string_of(&m))
    } else if status == 403 || status == 429 {
        Some(String::from_str("GitHub API rate limit hit; try again in an hour"))
    } else {
        None
    }
}

/// The newest usable release of a list: the first that is not a draft and has files.
pub fn first_usable_release(list: Vec<ApiRelease>) -> (r: Option<ApiRelease>)
    ensures
        match r {
            Some(x) => exists|i: int| 0 <= i < list@.len() && x == list@[i] && !list@[i].draft && list@[i].assets@.len() > 0
                && forall|j: int| 0 <= j < i ==> (#[trigger] list@[j]).draft || list@[j].assets@.len() == 0,
            None => forall|j: int| 0 <= j < list@.len() ==> (#[trigger] list@[j]).draft || list@[j].assets@.len() == 0,
        },
{
    let mut k: usize = 0;
    while k < list.len()
        invariant
            k <= list.len(),
            forall|j: int| 0 <= j < k ==> (#[trigger] list@[j]).draft || list@[j].assets@.len() == 0,
        decreases list.len() - k,
    {
        if !list[k].draft && list[k].assets.len() > 0 {
            let ghost all = list@;
            let mut list = list;
            let x = list.swap_remove(k);
            assert(x == all[k as int]);
            return Some(x);
        }
        k = k + 1;
    }
    None
}

/// `repo` with whitespace and slashes trimmed from both ends.
pub open spec fn spec_repo_slug(repo: Seq<char>) -> Seq<char> {
    drop_in_end(skip_in(trim(repo), seq!['/']), seq!['/'])
}

pub fn repo_slug(repo: &str) -> (r: Vec<char>)
    ensures
        r@ == spec_repo_slug(repo@),
{
    let c = chars_of(repo);
    let t = trim_exec(&c);
    let s = vec!['/'];
    assert(s@ =~= seq!['/']);
    let a = skip_in_exec(&t, &s);
    drop_in_end_exec(&a, &s)
}

fn wrap(a: &str, mid: &[char], b: &str) -> (r: String)
    ensures
        r@ == a@ + mid@ + b@,
{
    let mut v = chars_of(a);
    push_all(&mut v, mid);
    let bc = chars_of(b);
    push_all(&mut v, &bc);
    string_of(&v)
}

/// API URL listing the newest releases, pre-releases included.
pub fn releases_api_url(repo: &str) -> (r: String)
    ensures
        r@ == "https://api.github.com/repos/"@ + spec_repo_slug(repo@) + "/releases?per_page=5"@,
{
    let s = repo_slug(repo);
    wrap("https://api.github.com/repos/", &s, "/releases?per_page=5")
}

/// Download base of the latest release's files.
pub fn latest_download_base(repo: &str) -> (r: String)
    ensures
        r@ == "https://github.com/"@ + spec_repo_slug(repo@) + "/releases/latest/download/"@,
{
    let s = repo_slug(repo);
    wrap("https://github.com/", &s, "/releases/latest/download/")
}

/// API URL of the latest release.
pub fn latest_api_url(repo: &str) -> (r: String)
    ensures
        r@ == "https://api.github.com/repos/"@ + spec_repo_slug(repo@) + "/releases/latest"@,
{
    let s = repo_slug(repo);
    wrap("https://api.github.com/repos/", &s, "/releases/latest")
}

/// The next address to ask GitHub for while resolving a repository.
pub enum GithubFetch {
    /// The newest releases, pre-releases included (REST API).
    ReleaseList(String),
    /// The packager's `release.json` of the latest release.
    ReleaseJson(String),
    /// The latest release (REST API).
    LatestRelease(String),
}

pub enum GithubFetchSpec {
    ReleaseList(Seq<char>),
    ReleaseJson(Seq<char>),
    LatestRelease(Seq<char>),
}

impl View for GithubFetch {
    type V = GithubFetchSpec;

    open spec fn view(&self) -> GithubFetchSpec {
        match self {
            GithubFetch::ReleaseList(u) => GithubFetchSpec::ReleaseList(u@),
            GithubFetch::ReleaseJson(u) => GithubFetchSpec::ReleaseJson(u@),
            GithubFetch::LatestRelease(u) => GithubFetchSpec::LatestRelease(u@),
        }
    }
}

/// Which address comes next: with pre-releases wanted, the release list;
/// otherwise the latest release's `release.json` first, and the latest
/// release from the API once `release.json` turned out missing.
pub open spec fn spec_github_next_fetch(repo: Seq<char>, prerelease: bool, release_json_missing: bool) -> GithubFetchSpec {
    let slug = spec_repo_slug(repo);
    if prerelease {
        GithubFetchSpec::ReleaseList("https://api.github.com/repos/"@ + slug + "/releases?per_page=5"@)
    } else if !release_json_missing {
        GithubFetchSpec::ReleaseJson("https://github.com/"@ + slug + "/releases/latest/download/"@ + "release.json"@)
    } else {
        GithubFetchSpec::LatestRelease("https://api.github.com/repos/"@ + slug + "/releases/latest"@)
    }
}

/// The next address to fetch while resolving `repo` (see
/// [`spec_github_next_fetch`]); `release_json_missing` says that the
/// `release.json` request did not succeed.
pub fn github_next_fetch(repo: &str, prerelease: bool, release_json_missing: bool) -> (r: GithubFetch)
    ensures
        r@ == spec_github_next_fetch(repo@, prerelease, release_json_missing),
{
    if prerelease {
        GithubFetch::ReleaseList(releases_api_url(repo))
    } else if !release_json_missing {
        let base = latest_download_base(repo);
        let mut v = chars_of(base.as_str());
        let name = chars_of("release.json");
        push_all(&mut v, &name);
        let u = string_of(&v);
        assert(u@ == "https://github.com/"@ + spec_repo_slug(repo@) + "/releases/latest/download/"@ + "release.json"@);
        GithubFetch::ReleaseJson(u)
    } else {
        GithubFetch::LatestRelease(latest_api_url(repo))
    }
}

/// Without pre-releases, the packager's `release.json` is always asked for
/// first, and the API only when it is missing.
pub proof fn law_release_json_first(repo: Seq<char>)
    ensures
        spec_github_next_fetch(repo, false, false) is ReleaseJson,
        spec_github_next_fetch(repo, false, true) is LatestRelease,
{
}

} // verus!
