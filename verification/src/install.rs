//! Decisions behind installing a release zip into `Interface\AddOns`:
//! the name a download is saved under, the download size cap, which
//! extracted folders are addons, and which folder names are refused.
use vstd::prelude::*;
use crate::order::{is_perm, stable_order, stably_sorted};
use crate::text::{
    chars_of, contains, contains_exec, ends_with, ends_with_exec, is_ascii_alnum,
    is_ascii_alnum_exec, lower, lower_exec, push_all, starts_with, starts_with_exec, string_of,
};

verus! {

/// Work directory inside `AddOns`, so the final move is a same-volume rename.
pub const TMP_DIR: &'static str = ".addonforge-tmp";

/// Largest download accepted, in bytes (512 MiB).
pub const MAX_DOWNLOAD_BYTES: u64 = 536870912;

// ------------------------------------------------------------------ file names

/// A character kept in a saved file name; anything else becomes `_`.
pub open spec fn safe_char(c: char) -> char {
    if is_ascii_alnum(c) || c == '.' || c == '-' || c == '_' { c } else { '_' }
}

/// The name a download is saved under: unsafe characters replaced by `_`,
/// and `.zip` appended unless it already ends so (in any case).
pub open spec fn spec_safe_zip_name(name: Seq<char>) -> Seq<char> {
    let s = name.map_values(|c: char| safe_char(c));
    if ends_with(lower(s), ".zip"@) { s } else { s + ".zip"@ }
}

pub fn safe_zip_name(filename: &str) -> (r: String)
    ensures
        r@ == spec_safe_zip_name(filename@),
{
    let v = chars_of(filename);
    let mut s: Vec<char> = Vec::new();
    let mut i: usize = 0;
    while i < v.len()
        invariant
            i <= v.len(),
            v@ == filename@,
            s@ == v@.take(i as int).map_values(|c: char| safe_char(c)),
        decreases v.len() - i,
    {
        let c = v[i];
        let k = if is_ascii_alnum_exec(c) || c == '.' || c == '-' || c == '_' { c } else { '_' };
        s.push(k);
        i = i + 1;
        assert(s@ =~= v@.take(i as int).map_values(|c: char| safe_char(c)));
    }
    assert(v@.take(v.len() as int) =~= v@);
    let l = lower_exec(&s);
    let ext = chars_of(".zip");
    if !ends_with_exec(&l, &ext) {
        push_all(&mut s, &ext);
    }
    string_of(&s)
}

// ------------------------------------------------------------------ download size

pub open spec fn download_too_large_message() -> Seq<char> {
    "download exceeded 512 MB; refusing"@
}

/// Adds a received chunk to the running total, refusing once the total
/// passes the cap.
pub fn accept_chunk(total: u64, chunk_len: u64) -> (r: Result<u64, String>)
    ensures
        total + chunk_len <= MAX_DOWNLOAD_BYTES ==> r == Ok::<u64, String>((total + chunk_len) as u64),
        total + chunk_len > MAX_DOWNLOAD_BYTES ==> (r matches Err(e) && e@ == download_too_large_message()),
{
    match total.checked_add(chunk_len) {
        Some(t) => {
            if t > MAX_DOWNLOAD_BYTES {
                Err(String::from_str("download exceeded 512 MB; refusing"))
            } else {
                Ok(t)
            }
        },
        None => Err(String::from_str("download exceeded 512 MB; refusing")),
    }
}

// ------------------------------------------------------------------ executables

/// File extensions of programs and scripts that Windows (or a Unix shell)
/// runs when the file is opened: native programs and libraries, installers,
/// shortcuts, registry files, and the script types of the shells and of
/// Windows Script Host.
pub open spec fn executable_exts() -> Seq<Seq<char>> {
    seq![".exe"@, ".dll"@, ".sys"@, ".drv"@, ".ocx"@, ".cpl"@, ".scr"@, ".com"@, ".pif"@, ".msi"@, ".msp"@, ".msc"@, ".bat"@, ".cmd"@, ".ps1"@, ".psm1"@, ".psd1"@, ".vbs"@, ".vbe"@, ".js"@, ".jse"@, ".wsf"@, ".wsh"@, ".hta"@, ".jar"@, ".lnk"@, ".reg"@, ".inf"@, ".application"@, ".gadget"@, ".sh"@, ".so"@, ".dylib"@]
}

/// A zip entry named as a program: its name ends, in any case, with one of
/// the executable extensions.
pub open spec fn is_executable_name(name: Seq<char>) -> bool {
    exists|k: int| 0 <= k < executable_exts().len() && ends_with(lower(name), #[trigger] executable_exts()[k])
}

fn executable_exts_exec() -> (r: Vec<Vec<char>>)
    ensures
        r@.len() == executable_exts().len(),
        forall|k: int| 0 <= k < r@.len() ==> (#[trigger] r@[k])@ == executable_exts()[k],
{
    let mut r: Vec<Vec<char>> = Vec::new();
    r.push(chars_of(".exe"));
    r.push(chars_of(".dll"));
    r.push(chars_of(".sys"));
    r.push(chars_of(".drv"));
    r.push(chars_of(".ocx"));
    r.push(chars_of(".cpl"));
    r.push(chars_of(".scr"));
    r.push(chars_of(".com"));
    r.push(chars_of(".pif"));
    r.push(chars_of(".msi"));
    r.push(chars_of(".msp"));
    r.push(chars_of(".msc"));
    r.push(chars_of(".bat"));
    r.push(chars_of(".cmd"));
    r.push(chars_of(".ps1"));
    r.push(chars_of(".psm1"));
    r.push(chars_of(".psd1"));
    r.push(chars_of(".vbs"));
    r.push(chars_of(".vbe"));
    r.push(chars_of(".js"));
    r.push(chars_of(".jse"));
    r.push(chars_of(".wsf"));
    r.push(chars_of(".wsh"));
    r.push(chars_of(".hta"));
    r.push(chars_of(".jar"));
    r.push(chars_of(".lnk"));
    r.push(chars_of(".reg"));
    r.push(chars_of(".inf"));
    r.push(chars_of(".application"));
    r.push(chars_of(".gadget"));
    r.push(chars_of(".sh"));
    r.push(chars_of(".so"));
    r.push(chars_of(".dylib"));
    r
}

pub fn is_executable_name_exec(name: &str) -> (r: bool)
    ensures
        r == is_executable_name(name@),
{
    let exts = executable_exts_exec();
    let v = chars_of(name);
    let l = lower_exec(&v);
    let mut k: usize = 0;
    while k < exts.len()
        invariant
            k <= exts.len(),
            exts@.len() == executable_exts().len(),
            forall|j: int| 0 <= j < exts@.len() ==> (#[trigger] exts@[j])@ == executable_exts()[j],
            l@ == lower(name@),
            forall|j: int| 0 <= j < k ==> !ends_with(lower(name@), #[trigger] executable_exts()[j]),
        decreases exts.len() - k,
    {
        if ends_with_exec(&l, &exts[k]) {
            assert(ends_with(lower(name@), executable_exts()[k as int]));
            return true;
        }
        k = k + 1;
    }
    false
}

pub open spec fn executable_message(name: Seq<char>) -> Seq<char> {
    "zip contains an executable ("@ + name + "); refusing"@
}

pub open spec fn link_message(name: Seq<char>) -> Seq<char> {
    "zip contains a link ("@ + name + "); refusing"@
}

/// A file of a release archive as the executable check reads it: its name,
/// its first bytes (up to four), and whether the archive marks it as a
/// symbolic link.
pub struct ArchiveEntry {
    pub name: String,
    pub head: Vec<u8>,
    pub is_symlink: bool,
}

/// First bytes of a program the system loads directly: `MZ` (Windows),
/// `\x7FELF` (Linux), or `#!` (a script naming its interpreter).
pub open spec fn is_program_head(h: Seq<u8>) -> bool {
    (h.len() >= 2 && h[0] == 0x4Du8 && h[1] == 0x5Au8)
        || (h.len() >= 4 && h[0] == 0x7Fu8 && h[1] == 0x45u8 && h[2] == 0x4Cu8 && h[3] == 0x46u8)
        || (h.len() >= 2 && h[0] == 0x23u8 && h[1] == 0x21u8)
}

/// What the check counts as an executable in an addon zip: a symbolic link
/// (it can point anywhere once extracted), a file named as a program or
/// script, or a file whose content starts as a program does.
pub open spec fn is_refused_entry(e: ArchiveEntry) -> bool {
    e.is_symlink || is_executable_name(e.name@) || is_program_head(e.head@)
}

/// The error for a refused entry.
pub open spec fn refusal_message(e: ArchiveEntry) -> Seq<char> {
    if e.is_symlink { link_message(e.name@) } else { executable_message(e.name@) }
}

fn is_program_head_exec(h: &Vec<u8>) -> (r: bool)
    ensures
        r == is_program_head(h@),
{
    (h.len() >= 2 && h[0] == 0x4Du8 && h[1] == 0x5Au8)
        || (h.len() >= 4 && h[0] == 0x7Fu8 && h[1] == 0x45u8 && h[2] == 0x4Cu8 && h[3] == 0x46u8)
        || (h.len() >= 2 && h[0] == 0x23u8 && h[1] == 0x21u8)
}

/// Refuses an archive that holds an executable (see [`is_refused_entry`]):
/// the error names the first one.
pub fn check_no_executables(entries: &Vec<ArchiveEntry>) -> (r: Result<(), String>)
    ensures
        r is Ok <==> forall|i: int| 0 <= i < entries@.len() ==> !is_refused_entry(#[trigger] entries@[i]),
        r matches Err(e) ==> exists|i: int|
            0 <= i < entries@.len() && is_refused_entry(#[trigger] entries@[i])
                && (forall|j: int| 0 <= j < i ==> !is_refused_entry(#[trigger] entries@[j]))
                && e@ == refusal_message(entries@[i]),
{
    let mut i: usize = 0;
    while i < entries.len()
        invariant
            i <= entries.len(),
            forall|j: int| 0 <= j < i ==> !is_refused_entry(#[trigger] entries@[j]),
        decreases entries.len() - i,
    {
        let ent = &entries[i];
        if ent.is_symlink || is_executable_name_exec(ent.name.as_str()) || is_program_head_exec(&ent.head) {
            let mut m = if ent.is_symlink { chars_of("zip contains a link (") } else { chars_of("zip contains an executable (") };
            let n = chars_of(ent.name.as_str());
            push_all(&mut m, &n);
            let t = chars_of("); refusing");
            push_all(&mut m, &t);
            let e = string_of(&m);
            assert(e@ == refusal_message(entries@[i as int]));
            return Err(e);
        }
        i = i + 1;
    }
    Ok(())
}

// ------------------------------------------------------------------ extracted folders

/// A directory found in an extracted archive: its name and whether it
/// holds a `.toc` file.
pub struct DirInfo {
    pub name: String,
    pub has_toc: bool,
}

impl View for DirInfo {
    type V = (Seq<char>, bool);

    open spec fn view(&self) -> (Seq<char>, bool) {
        (self.name@, self.has_toc)
    }
}

pub open spec fn dir_views(ds: Seq<DirInfo>) -> Seq<(Seq<char>, bool)> {
    ds.map_values(|d: DirInfo| d@)
}

/// Names of the directories that hold a `.toc`, in order.
pub open spec fn toc_names(ds: Seq<(Seq<char>, bool)>) -> Seq<Seq<char>>
    decreases ds.len(),
{
    if ds.len() == 0 {
        Seq::empty()
    } else {
        let r = toc_names(ds.drop_last());
        if ds.last().1 { r.push(ds.last().0) } else { r }
    }
}

/// The directories reordered by the permutation `idx`.
pub open spec fn permuted(ds: Seq<(Seq<char>, bool)>, idx: Seq<usize>) -> Seq<(Seq<char>, bool)> {
    idx.map_values(|k: usize| ds[k as int])
}

pub open spec fn no_addon_folder_message() -> Seq<char> {
    "zip contains no addon folder"@
}

pub open spec fn no_toc_message() -> Seq<char> {
    "zip has folders but none contains a .toc file"@
}

/// Which extracted directories to install, given the top-level ones in
/// name order (`sorted`) and, when there is exactly one, the directories
/// inside it (`inner`). A single top-level directory without a `.toc` is
/// a wrapper: its inner addon folders are taken when it has any. The
/// boolean says whether the names are inside the wrapper.
pub open spec fn spec_select_addon_dirs(
    sorted: Seq<(Seq<char>, bool)>,
    inner: Seq<(Seq<char>, bool)>,
) -> Result<(bool, Seq<Seq<char>>), Seq<char>> {
    if sorted.len() == 0 {
        Err(no_addon_folder_message())
    } else if sorted.len() == 1 && !sorted[0].1 && toc_names(inner).len() > 0 {
        Ok((true, toc_names(inner)))
    } else if toc_names(sorted).len() == 0 {
        Err(no_toc_message())
    } else {
        Ok((false, toc_names(sorted)))
    }
}

pub open spec fn select_view(r: Result<(bool, Vec<String>), String>) -> Result<(bool, Seq<Seq<char>>), Seq<char>> {
    match r {
        Ok((w, v)) => Ok((w, v@.map_values(|s: String| s@))),
        Err(e) => Err(e@),
    }
}

fn toc_names_exec(ds: &Vec<DirInfo>, idx: &Vec<usize>) -> (r: Vec<String>)
    requires
        forall|i: int| 0 <= i < idx@.len() ==> idx@[i] < ds@.len(),
    ensures
        r@.map_values(|s: String| s@) == toc_names(permuted(dir_views(ds@), idx@)),
{
    let ghost d = dir_views(ds@);
    let mut out: Vec<String> = Vec::new();
    let mut i: usize = 0;
    while i < idx.len()
        invariant
            i <= idx.len(),
            d == dir_views(ds@),
            forall|j: int| 0 <= j < idx@.len() ==> idx@[j] < ds@.len(),
            out@.map_values(|s: String| s@) == toc_names(permuted(d, idx@).take(i as int)),
        decreases idx.len() - i,
    {
        let k = idx[i];
        let ghost before = out@.map_values(|s: String| s@);
        proof {
            assert(permuted(d, idx@).take(i + 1).drop_last() =~= permuted(d, idx@).take(i as int));
            assert(permuted(d, idx@).take(i + 1).last() == d[k as int]);
        }
        if ds[k].has_toc {
            out.push(ds[k].name.clone());
            assert(out@.map_values(|s: String| s@) =~= before.push(ds@[k as int].name@));
        }
        i = i + 1;
    }
    assert(permuted(d, idx@).take(idx@.len() as int) =~= permuted(d, idx@));
    out
}

/// Chooses the addon folders of an extracted archive. `top` lists the
/// top-level directories in any order; `inner` lists the directories
/// inside the first of them (only read when there is just one).
pub fn select_addon_dirs(top: &Vec<DirInfo>, inner: &Vec<DirInfo>) -> (r: Result<(bool, Vec<String>), String>)
    ensures
        exists|idx: Seq<usize>|
            is_perm(idx, top@.len()) && stably_sorted(dir_views(top@).map_values(|d: (Seq<char>, bool)| d.0), idx)
                && select_view(r) == spec_select_addon_dirs(permuted(dir_views(top@), idx), dir_views(inner@)),
{
    let mut keys: Vec<Vec<char>> = Vec::new();
    let mut i: usize = 0;
    while i < top.len()
        invariant
            i <= top.len(),
            keys@.len() == i,
            forall|j: int| 0 <= j < i ==> (#[trigger] keys@[j])@ == top@[j].name@,
        decreases top.len() - i,
    {
        keys.push(chars_of(top[i].name.as_str()));
        i = i + 1;
    }
    let idx = stable_order(&keys);
    let ghost names = dir_views(top@).map_values(|d: (Seq<char>, bool)| d.0);
    assert(keys@.map_values(|k: Vec<char>| k@) =~= names);
    let ghost sorted = permuted(dir_views(top@), idx@);
    let ghost innerv = dir_views(inner@);
    if top.len() == 0 {
        let r: Result<(bool, Vec<String>), String> = Err(String::from_str("zip contains no addon folder"));
        assert(select_view(r) == spec_select_addon_dirs(sorted, innerv));
        return r;
    }
    if top.len() == 1 && !top[0].has_toc {
        let mut all: Vec<usize> = Vec::new();
        let mut j: usize = 0;
        while j < inner.len()
            invariant
                j <= inner.len(),
                all@.len() == j,
                forall|q: int| 0 <= q < j ==> all@[q] == q,
            decreases inner.len() - j,
        {
            all.push(j);
            j = j + 1;
        }
        let ins = toc_names_exec(inner, &all);
        assert(permuted(innerv, all@) =~= innerv);
        if ins.len() > 0 {
            assert(sorted[0] == dir_views(top@)[0]);
            let r: Result<(bool, Vec<String>), String> = Ok((true, ins));
            assert(select_view(r) == spec_select_addon_dirs(sorted, innerv));
            return r;
        }
    }
    let with_toc = toc_names_exec(top, &idx);
    if with_toc.len() == 0 {
        let r: Result<(bool, Vec<String>), String> = Err(String::from_str("zip has folders but none contains a .toc file"));
        assert(select_view(r) == spec_select_addon_dirs(sorted, innerv));
        return r;
    }
    let r: Result<(bool, Vec<String>), String> = Ok((false, with_toc));
    assert(select_view(r) == spec_select_addon_dirs(sorted, innerv));
    r
}

// ------------------------------------------------------------------ folder names

/// A folder name refused when installing: hidden, or holding `..`.
pub open spec fn bad_install_name(n: Seq<char>) -> bool {
    starts_with(n, "."@) || contains(n, ".."@)
}

/// A folder name refused when removing: empty, hidden, holding `..`, or
/// holding a path separator.
pub open spec fn bad_removal_name(n: Seq<char>) -> bool {
    n.len() == 0 || bad_install_name(n) || n.contains('/') || n.contains('\\')
}

pub open spec fn bad_name(n: Seq<char>, removing: bool) -> bool {
    if removing { bad_removal_name(n) } else { bad_install_name(n) }
}

pub open spec fn refused_name_message(n: Seq<char>, removing: bool) -> Seq<char> {
    if removing {
        "refusing to remove suspicious folder name "@ + n
    } else {
        "refusing suspicious folder name "@ + n
    }
}

fn has_char(v: &[char], c: char) -> (r: bool)
    ensures
        r == v@.contains(c),
{
    crate::text::contains_char(v, c)
}

fn bad_name_exec(n: &str, removing: bool) -> (r: bool)
    ensures
        r == bad_name(n@, removing),
{
    let v = chars_of(n);
    let dot = chars_of(".");
    let dots = chars_of("..");
    let bad = starts_with_exec(&v, &dot) || contains_exec(&v, &dots);
    if removing {
        v.len() == 0 || bad || has_char(&v, '/') || has_char(&v, '\\')
    } else {
        bad
    }
}

/// Folders are handled in order and the first refused name stops the work:
/// `Ok` when none is refused, else the position of the first refused name
/// and the error to report. `removing` selects the stricter rule used by
/// "Remove".
pub fn first_refused_name(names: &Vec<String>, removing: bool) -> (r: Result<(), (usize, String)>)
    ensures
        r is Ok <==> forall|i: int| 0 <= i < names@.len() ==> !bad_name(#[trigger] names@[i]@, removing),
        r matches Err((k, e)) ==> k < names@.len() && bad_name(names@[k as int]@, removing)
            && (forall|j: int| 0 <= j < k ==> !bad_name(#[trigger] names@[j]@, removing))
            && e@ == refused_name_message(names@[k as int]@, removing),
{
    let mut i: usize = 0;
    while i < names.len()
        invariant
            i <= names.len(),
            forall|j: int| 0 <= j < i ==> !bad_name(#[trigger] names@[j]@, removing),
        decreases names.len() - i,
    {
        if bad_name_exec(names[i].as_str(), removing) {
            let mut m = if removing {
                chars_of("refusing to remove suspicious folder name ")
            } else {
                chars_of("refusing suspicious folder name ")
            };
            let n = chars_of(names[i].as_str());
            push_all(&mut m, &n);
            return Err((i, string_of(&m)));
        }
        i = i + 1;
    }
    Ok(())
}

// ------------------------------------------------------------------ laws

/// A saved download's name holds only letters, digits, `.`, `-` and `_`
/// (so no path separator) and ends with `.zip` in some case.
pub proof fn law_safe_zip_name(name: Seq<char>)
    ensures
        forall|i: int| 0 <= i < spec_safe_zip_name(name).len() ==> {
            let c = #[trigger] spec_safe_zip_name(name)[i];
            is_ascii_alnum(c) || c == '.' || c == '-' || c == '_'
        },
        !spec_safe_zip_name(name).contains('/'),
        !spec_safe_zip_name(name).contains('\\'),
        ends_with(lower(spec_safe_zip_name(name)), ".zip"@),
{
    reveal_strlit(".zip");
    let s = name.map_values(|c: char| safe_char(c));
    let r = spec_safe_zip_name(name);
    assert forall|i: int| 0 <= i < r.len() implies {
        let c = #[trigger] r[i];
        is_ascii_alnum(c) || c == '.' || c == '-' || c == '_'
    } by {
        if i < s.len() {
            assert(r[i] == s[i]);
        }
    }
    if !ends_with(lower(s), ".zip"@) {
        let z = s + ".zip"@;
        assert(lower(z).take(lower(z).len() - 4) =~= lower(s));
        assert(lower(z).skip(lower(z).len() - 4) =~= ".zip"@);
        assert(lower(z).subrange(lower(z).len() - 4, lower(z).len() as int) =~= ".zip"@);
    }
}

} // verus!
