use nwc::archive::{
    check_declared, check_extracted, first_repeated_output, output_seen, paths_equal, sha256_hex, copy_percent, depth, entry_output, extract_percent, file_name,
    free_space_shortfall, hex, is_ignored_path, peek_entry_is_candidate, peek_verdict, safe_folder_name,
    sanitize_entry_name, strip_extension, zip_datetime, zip_entry_name, zip_percent, EntryInfo, Volume,
};

fn path(parts: &[&str]) -> Vec<String> {
    parts.iter().map(|p| p.to_string()).collect()
}

#[test]
fn safe_folder_names() {
    assert_eq!(safe_folder_name("My World"), "My World");
    assert_eq!(safe_folder_name("a<b>c:d\"e/f\\g|h?i*j"), "a_b_c_d_e_f_g_h_i_j");
    assert_eq!(safe_folder_name("  world. . "), "world");
    assert_eq!(safe_folder_name("..."), "ConvertedWorld");
    assert_eq!(safe_folder_name(""), "ConvertedWorld");
    assert_eq!(safe_folder_name("tab\tname"), "tab_name");
    assert_eq!(safe_folder_name("网易世界"), "网易世界");
}

#[test]
fn sanitizes_entry_names() {
    assert_eq!(sanitize_entry_name("world/db/000001.ldb").unwrap(), "world/db/000001.ldb");
    assert_eq!(sanitize_entry_name("world\\level.dat").unwrap(), "world/level.dat");
    assert_eq!(sanitize_entry_name("././world/a").unwrap(), "world/a");
    assert_eq!(sanitize_entry_name("a/./b").unwrap(), "a/./b");
    let absolute = sanitize_entry_name("/etc/passwd").unwrap_err();
    assert_eq!(absolute.code, "error");
    assert_eq!(absolute.message, "ZIP 包含绝对路径：/etc/passwd");
    let drive = sanitize_entry_name("C:\\Windows\\x").unwrap_err();
    assert_eq!(drive.message, "ZIP 包含绝对路径：C:\\Windows\\x");
    let parent = sanitize_entry_name("world/../../evil").unwrap_err();
    assert_eq!(parent.message, "ZIP 包含父目录跳转：world/../../evil");
    let backslash_parent = sanitize_entry_name("..\\evil").unwrap_err();
    assert_eq!(backslash_parent.message, "ZIP 包含父目录跳转：..\\evil");
    assert!(sanitize_entry_name("a..b/c").is_ok());
}

#[test]
fn entry_output_stays_inside_destination() {
    let dest = path(&["/", "tmp", "x"]);
    assert_eq!(entry_output(&dest, "world/./db//a.ldb"), path(&["/", "tmp", "x", "world", "db", "a.ldb"]));
    assert_eq!(entry_output(&dest, "world/"), path(&["/", "tmp", "x", "world"]));
    assert_eq!(entry_output(&dest, ""), dest);
}

#[test]
fn names_and_paths() {
    assert_eq!(file_name(&path(&["/", "a", "world.zip"])), "world.zip");
    assert_eq!(file_name(&path(&["/"])), "");
    assert_eq!(file_name(&path(&["a", ".."])), "");
    assert_eq!(strip_extension("world.zip"), "world");
    assert_eq!(strip_extension("a.b.mcworld"), "a.b");
    assert_eq!(strip_extension(".hidden"), ".hidden");
    assert_eq!(strip_extension("plain"), "plain");
    assert_eq!(hex(&[0x00, 0x1f, 0xab, 0xff]), "001FABFF");
    assert_eq!(hex(&[]), "");
    let root = path(&["/", "x"]);
    assert!(!is_ignored_path(&path(&["/", "x", "world", "db"]), &root));
    assert!(is_ignored_path(&path(&["/", "x", "__MACOSX", "db"]), &root));
    assert!(is_ignored_path(&path(&["/", "x", "w", ".git"]), &root));
    assert!(is_ignored_path(&path(&["/", "y", "w"]), &root));
    assert_eq!(depth(&root, &path(&["/", "x", "a", "b"])), 2);
    assert_eq!(depth(&root, &path(&["/", "z"])), 0);
}

#[test]
fn declared_sizes_are_limited() {
    let ok = vec![
        EntryInfo { is_dir: true, size: 0 },
        EntryInfo { is_dir: false, size: 10 },
        EntryInfo { is_dir: false, size: 0 },
    ];
    assert_eq!(check_declared(&ok).unwrap(), (2, 10));
    let too_big = vec![EntryInfo { is_dir: false, size: 274877906945 }];
    assert_eq!(
        check_declared(&too_big).unwrap_err().message,
        "ZIP 规模超过安全限制（最多 100 万文件、256 GiB 解压数据）"
    );
    let overflow = vec![EntryInfo { is_dir: false, size: u64::MAX }, EntryInfo { is_dir: false, size: 1 }];
    // the first entry already passes the limit
    assert_eq!(
        check_declared(&overflow).unwrap_err().message,
        "ZIP 规模超过安全限制（最多 100 万文件、256 GiB 解压数据）"
    );
    let wraps = vec![EntryInfo { is_dir: false, size: 1 }, EntryInfo { is_dir: false, size: u64::MAX }];
    assert_eq!(check_declared(&wraps).unwrap_err().message, "ZIP 声明的数据大小溢出");
    assert!(check_extracted(274877906944).is_ok());
    assert_eq!(check_extracted(274877906945).unwrap_err().message, "ZIP 实际解压数据超过 256 GiB 安全限制");
}

#[test]
fn progress_formulas() {
    assert_eq!(extract_percent(50, 100, 0, 0), 6);
    assert_eq!(extract_percent(200, 100, 0, 0), 10);
    assert_eq!(extract_percent(0, 0, 1, 4), 4);
    assert_eq!(extract_percent(0, 0, 0, 0), 2);
    assert_eq!(zip_percent(50, 100, 0, 1), 97);
    assert_eq!(zip_percent(0, 0, 1, 4), 97);
    assert_eq!(copy_percent(32, 84, 0, 2), 58);
    assert_eq!(copy_percent(32, 84, 1, 2), 84);
}

#[test]
fn zip_entry_names() {
    assert_eq!(zip_entry_name("My World", &path(&["region", "r.0.0.mca"])), "My World/region/r.0.0.mca");
    assert_eq!(zip_entry_name("w", &path(&["a\\b"])), "w/a/b");
}

#[test]
fn peeks_for_legacy_encryption() {
    assert!(peek_entry_is_candidate("world/db/000001.ldb", false, 64));
    assert!(peek_entry_is_candidate("db/CURRENT", false, 4));
    assert!(!peek_entry_is_candidate("world/db/000001.ldb", false, 3));
    assert!(!peek_entry_is_candidate("world/db/", true, 64));
    assert!(!peek_entry_is_candidate("hello.txt", false, 64));
    assert!(!peek_entry_is_candidate("db/sub/000001.ldb", false, 64));
    let legacy = vec![0x90u8, 0x1D, 0x30, 0x01];
    let modern = vec![0x80u8, 0x1D, 0x30, 0x01];
    assert!(peek_verdict(&vec![legacy.clone()]));
    assert!(!peek_verdict(&vec![legacy, modern]));
    assert!(!peek_verdict(&vec![]));
}

#[test]
fn free_space_uses_the_longest_mount() {
    let volumes = vec![
        Volume { mount: path(&["/"]), mount_len: 1, available: 1000 },
        Volume { mount: path(&["/", "data"]), mount_len: 5, available: 10 },
    ];
    assert_eq!(free_space_shortfall(&path(&["/", "data", "tmp"]), &volumes, 100), Some(10));
    assert_eq!(free_space_shortfall(&path(&["/", "home"]), &volumes, 100), None);
    assert_eq!(free_space_shortfall(&path(&["/", "data"]), &volumes, 5), None);
}

#[test]
fn zip_time_stamps() {
    assert!(zip_datetime(2024, 2, 29, 12, 30, 59).is_some());
    assert!(zip_datetime(2023, 2, 29, 12, 30, 59).is_none());
    assert!(zip_datetime(2100, 2, 29, 0, 0, 0).is_none());
    assert!(zip_datetime(2000, 2, 29, 0, 0, 0).is_some());
    assert!(zip_datetime(1970, 1, 1, 0, 0, 0).is_some());
    assert!(zip_datetime(2108, 1, 1, 0, 0, 0).is_none());
    assert!(zip_datetime(2024, 4, 31, 0, 0, 0).is_none());
}

#[test]
fn repeated_output_path_is_refused_at_first_repeat() {
    let outputs = vec![path(&["/", "d", "a"]), path(&["/", "d", "b"]), path(&["/", "d", "a"]), path(&["/", "d", "b"])];
    assert_eq!(first_repeated_output(&outputs), Some(2));
    let distinct = vec![path(&["/", "d", "a"]), path(&["/", "d", "a", "b"]), path(&["/", "d"])];
    assert_eq!(first_repeated_output(&distinct), None);
    assert_eq!(first_repeated_output(&Vec::new()), None);
    assert!(output_seen(&outputs, &path(&["/", "d", "b"])));
    assert!(!output_seen(&outputs, &path(&["/", "d", "c"])));
    assert!(paths_equal(&path(&["x", "y"]), &path(&["x", "y"])));
    assert!(!paths_equal(&path(&["x", "y"]), &path(&["x"])));
}

#[test]
fn sha256_of_known_inputs() {
    assert_eq!(sha256_hex(b""), "E3B0C44298FC1C149AFBF4C8996FB92427AE41E4649B934CA495991B7852B855");
    assert_eq!(sha256_hex(b"abc"), "BA7816BF8F01CFEA414140DE5DAE2223B00361A396177A9CB410FF61F20015AD");
}
