//! TukUI (ElvUI / Tukui) public API.
use vstd::prelude::*;
use crate::sources::{remote_result, Remote, RemoteSpec};
use crate::text::{chars_of, push_all, starts_with, starts_with_exec, string_of};

verus! {

/// What the TukUI API says about an addon.
#[derive(Clone, Debug)]
pub struct TukAddon {
    pub version: String,
    pub url: String,
    /// Game patches the build is for, e.g. "1.60.0".
    pub patch: Vec<String>,
}

/// The API address of an addon.
pub fn api_url(slug: &str) -> (r: String)
    ensures
        r@ == "https://api.tukui.org/v1/addon/"@ + slug@,
{
    let mut v = chars_of("https://api.tukui.org/v1/addon/");
    let s = chars_of(slug);
    push_all(&mut v, &s);
    string_of(&v)
}

/// The error for an addon TukUI does not know.
pub fn not_found(slug: &str) -> (r: String)
    ensures
        r@ == "TukUI has no addon '"@ + slug@ + "'"@,
{
    let mut v = chars_of("TukUI has no addon '");
    let s = chars_of(slug);
    push_all(&mut v, &s);
    v.push('\'');
    proof { reveal_strlit("'"); }
    assert(v@ =~= "TukUI has no addon '"@ + slug@ + "'"@);
    string_of(&v)
}

pub open spec fn any_forever_patch(patch: Seq<String>) -> bool {
    exists|i: int| 0 <= i < patch.len() && starts_with((#[trigger] patch[i])@, "1.60"@)
}

pub open spec fn spec_remote(slug: Seq<char>, a: TukAddon) -> Result<RemoteSpec, Seq<char>> {
    if a.url@.len() == 0 {
        Err("TukUI entry has no download url"@)
    } else {
        Ok(RemoteSpec {
            version: a.version@,
            download_url: a.url@,
            filename: slug + "-"@ + a.version@ + ".zip"@,
            forever: Some(any_forever_patch(a.patch@)),
            prerelease: false,
        })
    }
}

/// The latest release from the API's answer.
pub fn remote_from(slug: &str, a: TukAddon) -> (r: Result<Remote, String>)
    ensures
        remote_result(r) == spec_remote(slug@, a),
{
    if a.url.as_str().is_empty() {
        return Err(String::from_str("TukUI entry has no download url"));
    }
    let p = chars_of("1.60");
    let mut forever = false;
    let mut i: usize = 0;
    while i < a.patch.len()
        invariant
            i <= a.patch.len(),
            p@ == "1.60"@,
            forever == exists|j: int| 0 <= j < i && starts_with((#[trigger] a.patch@[j])@, "1.60"@),
        decreases a.patch.len() - i,
    {
        let c = chars_of(a.patch[i].as_str());
        if starts_with_exec(&c, &p) {
            forever = true;
        }
        i = i + 1;
    }
    let mut f = chars_of(slug);
    let d = chars_of("-");
    push_all(&mut f, &d);
    let v = chars_of(a.version.as_str());
    push_all(&mut f, &v);
    let z = chars_of(".zip");
    push_all(&mut f, &z);
    Ok(Remote { version: a.version, download_url: a.url, filename: string_of(&f), forever: Some(forever), prerelease: false })
}

} // verus!
