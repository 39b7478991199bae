//! WoWInterface (wowinterface.com) public JSON API.
use vstd::prelude::*;
use crate::num::{decimal, u64_to_chars};
use crate::sources::{remote_result, Remote, RemoteSpec};
use crate::text::{chars_of, push_all, starts_with, starts_with_exec, string_of};

verus! {

/// A game version a file is marked compatible with.
#[derive(Clone, Debug)]
pub struct Compat {
    pub version: String,
}

/// What the WoWInterface API says about a file.
#[derive(Clone, Debug)]
pub struct FileDetails {
    pub version: String,
    pub download: String,
    pub file_name: String,
    pub compat: Option<Vec<Compat>>,
}

fn lit_num(a: &str, n: u64, b: &str) -> (r: String)
    ensures
        r@ == a@ + decimal(n as nat) + b@,
{
    let mut v = chars_of(a);
    let d = u64_to_chars(n);
    push_all(&mut v, &d);
    let bc = chars_of(b);
    push_all(&mut v, &bc);
    string_of(&v)
}

/// The API address of a file.
pub fn api_url(id: u64) -> (r: String)
    ensures
        r@ == "https://api.mmoui.com/v3/game/WOW/filedetails/"@ + decimal(id as nat) + ".json"@,
{
    lit_num("https://api.mmoui.com/v3/game/WOW/filedetails/", id, ".json")
}

/// The error for an id WoWInterface does not know.
pub fn not_found(id: u64) -> (r: String)
    ensures
        r@ == "WoWInterface has no addon with id "@ + decimal(id as nat) + ""@,
{
    lit_num("WoWInterface has no addon with id ", id, "")
}

pub open spec fn any_forever_compat(c: Seq<Compat>) -> bool {
    exists|i: int| 0 <= i < c.len() && starts_with((#[trigger] c[i]).version@, "1.60"@)
}

pub open spec fn spec_remote(id: u64, list: Seq<FileDetails>) -> Result<RemoteSpec, Seq<char>> {
    if list.len() == 0 {
        Err("WoWInterface returned nothing for "@ + decimal(id as nat))
    } else if list[0].download@.len() == 0 {
        Err("WoWInterface entry has no download link"@)
    } else {
        let d = list[0];
        Ok(RemoteSpec {
            version: d.version@,
            download_url: d.download@,
            filename: if d.file_name@.len() == 0 { "wowi-"@ + decimal(id as nat) + ".zip"@ } else { d.file_name@ },
            forever: match d.compat { Some(c) => Some(any_forever_compat(c@)), None => None },
            prerelease: false,
        })
    }
}

/// The latest release from the API's answer (the first file listed).
pub fn remote_from(id: u64, list: Vec<FileDetails>) -> (r: Result<Remote, String>)
    ensures
        remote_result(r) == spec_remote(id, list@),
{
    if list.len() == 0 {
        let m = lit_num("WoWInterface returned nothing for ", id, "");
        assert(m@ =~= "WoWInterface returned nothing for "@ + decimal(id as nat)) by { reveal_strlit(""); }
        return Err(m);
    }
    let mut list = list;
    let ghost first = list@[0];
    let d = list.swap_remove(0);
    assert(d == first);
    if d.download.as_str().is_empty() {
        return Err(String::from_str("WoWInterface entry has no download link"));
    }
    let forever = match &d.compat {
        Some(c) => {
            let p = chars_of("1.60");
            let mut any = false;
            let mut i: usize = 0;
            while i < c.len()
                invariant
                    i <= c.len(),
                    p@ == "1.60"@,
                    any == exists|j: int| 0 <= j < i && starts_with((#[trigger] c@[j]).version@, "1.60"@),
                decreases c.len() - i,
            {
                let v = chars_of(c[i].version.as_str());
                if starts_with_exec(&v, &p) {
                    any = true;
                }
                i = i + 1;
            }
            Some(any)
        },
        None => None,
    };
    let filename = if d.file_name.as_str().is_empty() {
        lit_num("wowi-", id, ".zip")
    } else {
        d.file_name.clone()
    };
    Ok(Remote { version: d.version, download_url: d.download, filename, forever, prerelease: false })
}

} // verus!
