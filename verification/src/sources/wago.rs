//! Wago Addons (addons.wago.io). Its API needs the user's own free key.
use vstd::prelude::*;
use crate::sources::{remote_result, Remote, RemoteSpec};
use crate::text::{
    chars_of, is_ascii_alnum, is_ascii_alnum_exec, push_all, starts_with, starts_with_exec,
    string_of, trim, trim_exec,
};

verus! {

/// Where users get a Wago API key.
pub const KEY_URL: &'static str = "https://addons.wago.io/account/apikeys";

/// The key to send: the stored key trimmed, when not empty.
pub fn api_key(key: Option<&str>) -> (r: Result<String, String>)
    ensures
        match key {
            Some(k) => if trim(k@).len() > 0 {
                r matches Ok(x) && x@ == trim(k@)
            } else {
                r matches Err(e) && e@ == "Wago needs your API key (Settings)"@
            },
            None => r matches Err(e) && e@ == "Wago needs your API key (Settings)"@,
        },
{
    if let Some(k) = key {
        let c = chars_of(k);
        let t = trim_exec(&c);
        if t.len() > 0 {
            return Ok(string_of(&t));
        }
    }
    Err(String::from_str("Wago needs your API key (Settings)"))
}

/// The API address of an addon's Forever release.
pub fn api_url(id: &str) -> (r: String)
    ensures
        r@ == "https://addons.wago.io/api/external/addons/"@ + id@ + "?game_version=forever"@,
{
    let mut v = chars_of("https://addons.wago.io/api/external/addons/");
    let i = chars_of(id);
    push_all(&mut v, &i);
    let s = chars_of("?game_version=forever");
    push_all(&mut v, &s);
    string_of(&v)
}

/// The error an HTTP status from Wago means, if any.
pub fn status_error(status: u16) -> (r: Option<String>)
    ensures
        match r {
            Some(m) => ((status == 401 || status == 403) && m@ == "Wago rejected the API key"@)
                || (status == 404 && m@ == "Wago has no Forever release for this addon"@),
            None => status != 401 && status != 403 && status != 404,
        },
{
    if status == 401 || status == 403 {
        Some(String::from_str("Wago rejected the API key"))
    } else if status == 404 {
        Some(String::from_str("Wago has no Forever release for this addon"))
    } else {
        None
    }
}

/// One release channel's entry (fields that are JSON strings).
#[derive(Clone, Debug)]
pub struct WagoRelease {
    pub label: Option<String>,
    pub version: Option<String>,
    pub download_link: Option<String>,
    pub link: Option<String>,
    pub patch: Option<String>,
}

/// The `recent_release` object: the channels that are present.
#[derive(Clone, Debug)]
pub struct WagoRecent {
    pub stable: Option<WagoRelease>,
    pub beta: Option<WagoRelease>,
    pub alpha: Option<WagoRelease>,
}

pub open spec fn os(o: Option<String>) -> Option<Seq<char>> {
    match o { Some(s) => Some(s@), None => None }
}

/// The character kept in a file name built from a version.
pub open spec fn safe_char(c: char) -> bool {
    is_ascii_alnum(c) || c == '.' || c == '-'
}

pub open spec fn spec_remote(id: Seq<char>, recent: WagoRecent, prerelease: bool) -> Result<RemoteSpec, Seq<char>> {
    // stable first unless betas are allowed; alpha only as a last resort
    let picked: Option<(WagoRelease, Seq<char>)> = if prerelease {
        if recent.beta is Some { Some((recent.beta->0, "beta"@)) }
        else if recent.stable is Some { Some((recent.stable->0, "stable"@)) }
        else if recent.alpha is Some { Some((recent.alpha->0, "alpha"@)) } else { None }
    } else {
        if recent.stable is Some { Some((recent.stable->0, "stable"@)) }
        else if recent.beta is Some { Some((recent.beta->0, "beta"@)) }
        else if recent.alpha is Some { Some((recent.alpha->0, "alpha"@)) } else { None }
    };
    match picked {
        None => Err("Wago lists no release for Forever"@),
        Some((rel, channel)) => {
            let version = match os(rel.label) { Some(l) => l, None => match os(rel.version) { Some(v) => v, None => seq![] } };
            let url = match os(rel.download_link) { Some(d) => Some(d), None => os(rel.link) };
            let patch = match os(rel.patch) { Some(p) => p, None => seq![] };
            match url {
                None => Err("Wago release has no download link"@),
                Some(u) => Ok(RemoteSpec {
                    version,
                    download_url: u,
                    filename: "wago-"@ + id + "-"@ + version.filter(|c: char| safe_char(c)) + ".zip"@,
                    forever: if patch.len() == 0 { None } else { Some(starts_with(patch, "1.60"@)) },
                    prerelease: channel != "stable"@,
                }),
            }
        },
    }
}

/// The latest Forever release from the API's answer.
pub fn remote_from(id: &str, recent: &WagoRecent, prerelease: bool) -> (r: Result<Remote, String>)
    ensures
        remote_result(r) == spec_remote(id@, *recent, prerelease),
{
    proof {
        reveal_strlit("stable");
        reveal_strlit("beta");
        reveal_strlit("alpha");
        assert("beta"@.len() == 4 && "alpha"@.len() == 5 && "stable"@.len() == 6);
    }
    let (rel, stable): (&WagoRelease, bool) = if prerelease {
        if let Some(b) = &recent.beta { (b, false) }
        else if let Some(s) = &recent.stable { (s, true) }
        else if let Some(a) = &recent.alpha { (a, false) }
        else { return Err(String::from_str("Wago lists no release for Forever")); }
    } else {
        if let Some(s) = &recent.stable { (s, true) }
        else if let Some(b) = &recent.beta { (b, false) }
        else if let Some(a) = &recent.alpha { (a, false) }
        else { return Err(String::from_str("Wago lists no release for Forever")); }
    };
    let version: String = match &rel.label {
        Some(l) => l.clone(),
        None => match &rel.version { Some(v) => v.clone(), None => String::new() },
    };
    let url = match &rel.download_link {
        Some(d) => d.clone(),
        None => match &rel.link {
            Some(l) => l.clone(),
            None => return Err(String::from_str("Wago release has no download link")),
        },
    };
    let patch: Vec<char> = match &rel.patch { Some(p) => chars_of(p.as_str()), None => Vec::new() };
    let vc = chars_of(version.as_str());
    let mut safe: Vec<char> = Vec::new();
    let mut i: usize = 0;
    while i < vc.len()
        invariant
            i <= vc.len(),
            safe@ == vc@.take(i as int).filter(|c: char| safe_char(c)),
        decreases vc.len() - i,
    {
        reveal_with_fuel(Seq::filter, 1);
        assert(vc@.take(i + 1).drop_last() =~= vc@.take(i as int));
        let c = vc[i];
        if is_ascii_alnum_exec(c) || c == '.' || c == '-' {
            safe.push(c);
        }
        i = i + 1;
    }
    assert(vc@.take(vc@.len() as int) =~= vc@);
    let mut f = chars_of("wago-");
    let ic = chars_of(id);
    push_all(&mut f, &ic);
    let d = chars_of("-");
    push_all(&mut f, &d);
    push_all(&mut f, &safe);
    let z = chars_of(".zip");
    push_all(&mut f, &z);
    let p160 = chars_of("1.60");
    let forever = if patch.len() == 0 { None } else { Some(starts_with_exec(&patch, &p160)) };
    Ok(Remote { version, download_url: url, filename: string_of(&f), forever, prerelease: !stable })
}

} // verus!
