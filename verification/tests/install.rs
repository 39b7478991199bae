use addonforge::install::{
    accept_chunk, check_no_executables, ArchiveEntry, first_refused_name, is_executable_name_exec, safe_zip_name,
    select_addon_dirs, DirInfo, MAX_DOWNLOAD_BYTES, TMP_DIR,
};

fn dir(name: &str, has_toc: bool) -> DirInfo {
    DirInfo { name: name.into(), has_toc }
}

#[test]
fn download_names_are_safe() {
    assert_eq!(safe_zip_name("BigWigs-v1.2.zip"), "BigWigs-v1.2.zip");
    assert_eq!(safe_zip_name("a b/c.ZIP"), "a_b_c.ZIP");
    assert_eq!(safe_zip_name("../../evil"), ".._.._evil.zip");
    assert_eq!(safe_zip_name(""), ".zip");
    assert_eq!(TMP_DIR, ".addonforge-tmp");
}

#[test]
fn download_cap() {
    assert_eq!(accept_chunk(0, 10), Ok(10));
    assert_eq!(accept_chunk(MAX_DOWNLOAD_BYTES - 1, 1), Ok(MAX_DOWNLOAD_BYTES));
    assert_eq!(accept_chunk(MAX_DOWNLOAD_BYTES, 1), Err("download exceeded 512 MB; refusing".to_string()));
    assert!(accept_chunk(u64::MAX, u64::MAX).is_err());
}

#[test]
fn executables_are_refused() {
    assert!(is_executable_name_exec("Foo/setup.EXE"));
    assert!(is_executable_name_exec("x.ps1"));
    assert!(!is_executable_name_exec("Foo/Foo.toc"));
    assert!(!is_executable_name_exec("Foo/exe.lua"));
    assert!(is_executable_name_exec("Foo/a.js"));
    assert!(is_executable_name_exec("Foo/run.SH"));
    assert!(!is_executable_name_exec("Foo/media/sound.ogg"));
    let ok = vec![entry("Foo/Foo.toc", b"## T", false), entry("Foo/core.lua", b"loca", false)];
    assert_eq!(check_no_executables(&ok), Ok(()));
    let bad = vec![entry("Foo/Foo.toc", b"## T", false), entry("Foo/run.bat", b"@ech", false), entry("Foo/x.dll", b"MZ\x90\x00", false)];
    assert_eq!(check_no_executables(&bad), Err("zip contains an executable (Foo/run.bat); refusing".to_string()));
    let renamed = vec![entry("Foo/readme.txt", b"MZ\x90\x00", false)];
    assert_eq!(check_no_executables(&renamed), Err("zip contains an executable (Foo/readme.txt); refusing".to_string()));
    let elf = vec![entry("Foo/tool", b"\x7fELF", false)];
    assert_eq!(check_no_executables(&elf), Err("zip contains an executable (Foo/tool); refusing".to_string()));
    let script = vec![entry("Foo/go", b"#!/b", false)];
    assert!(check_no_executables(&script).is_err());
    let link = vec![entry("Foo/link.lua", b"/etc", true)];
    assert_eq!(check_no_executables(&link), Err("zip contains a link (Foo/link.lua); refusing".to_string()));
}

#[test]
fn addon_dirs_are_sorted_and_filtered() {
    let top = vec![dir("Zed", true), dir("Alpha", true), dir("docs", false)];
    assert_eq!(select_addon_dirs(&top, &vec![]), Ok((false, vec!["Alpha".to_string(), "Zed".to_string()])));
    assert_eq!(select_addon_dirs(&vec![], &vec![]), Err("zip contains no addon folder".to_string()));
    let none = vec![dir("a", false), dir("b", false)];
    assert_eq!(select_addon_dirs(&none, &vec![]), Err("zip has folders but none contains a .toc file".to_string()));
}

#[test]
fn wrapper_directory_is_looked_into() {
    let top = vec![dir("MyAddon-1.2", false)];
    let inner = vec![dir("MyAddon", true), dir("Extras", false), dir("MyAddon_Options", true)];
    assert_eq!(
        select_addon_dirs(&top, &inner),
        Ok((true, vec!["MyAddon".to_string(), "MyAddon_Options".to_string()]))
    );
    assert_eq!(
        select_addon_dirs(&top, &vec![dir("x", false)]),
        Err("zip has folders but none contains a .toc file".to_string())
    );
    let single = vec![dir("Solo", true)];
    assert_eq!(select_addon_dirs(&single, &inner), Ok((false, vec!["Solo".to_string()])));
}

#[test]
fn suspicious_folder_names() {
    let names = vec!["Good".to_string(), ".hidden".to_string(), "x..y".to_string()];
    assert_eq!(first_refused_name(&names, false), Err((1, "refusing suspicious folder name .hidden".to_string())));
    let ok = vec!["A".to_string(), "B_c".to_string()];
    assert_eq!(first_refused_name(&ok, false), Ok(()));
    let rm = vec!["A".to_string(), "a/b".to_string()];
    assert_eq!(first_refused_name(&rm, false), Ok(()));
    assert_eq!(first_refused_name(&rm, true), Err((1, "refusing to remove suspicious folder name a/b".to_string())));
    assert_eq!(first_refused_name(&vec![String::new()], true), Err((0, "refusing to remove suspicious folder name ".to_string())));
}

fn entry(name: &str, head: &[u8], is_symlink: bool) -> ArchiveEntry {
    ArchiveEntry { name: name.to_string(), head: head.to_vec(), is_symlink }
}
