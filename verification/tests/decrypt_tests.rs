use nwc::decrypt::{
    check_legacy_files, check_normalized, check_preparable, level_dat_source, LevelSource, choose_manifest_name, db_file_action, is_db_artifact_name, manifest_number,
    metadata_action, prepare_percent, prepare_stage, recover_key, shortest_period, xor_slice, DbAction, DbFile, MetaAction,
    OutputFile,
};
use nwc::models::WorldType;
use nwc::detect::{netease_header_bytes, matches_db_directory};

#[test]
fn shortest_period_finds_key_from_current() {
    let key = [1u8, 2, 3, 4, 5, 6, 7, 8];
    let mut raw = Vec::new();
    for i in 0..17 {
        raw.push(key[i % 8]);
    }
    assert_eq!(shortest_period(&raw), key.to_vec());
}

#[test]
fn shortest_period_without_period_keeps_everything() {
    let raw: Vec<u8> = (0..40u8).collect();
    assert_eq!(shortest_period(&raw), raw);
    assert_eq!(shortest_period(&[]), Vec::<u8>::new());
    assert_eq!(shortest_period(&[9, 9, 9]), vec![9]);
}

#[test]
fn xor_slice_matches_naive_for_all_key_lengths() {
    fn naive(buffer: &mut [u8], key: &[u8], position: u64) {
        for (index, byte) in buffer.iter_mut().enumerate() {
            *byte ^= key[((position + index as u64) % key.len() as u64) as usize];
        }
    }
    let mut data = vec![0u8; 1000];
    let mut seed = 0x1234_5678u32;
    for byte in data.iter_mut() {
        seed = seed.wrapping_mul(1_664_525).wrapping_add(1_013_904_223);
        *byte = (seed >> 24) as u8;
    }
    let key_lengths = [1usize, 3, 5, 7, 8, 9, 16, 17, 32];
    let positions = [0u64, 1, 7, 8, 16, 17, 33, 123_456_789];
    for key_len in key_lengths {
        let key: Vec<u8> = (0..key_len).map(|i| (i * 7 + 3) as u8).collect();
        for position in positions {
            let mut fast = data.clone();
            xor_slice(&mut fast, &key, position);
            let mut expected = data.clone();
            naive(&mut expected, &key, position);
            assert_eq!(fast, expected, "key_len={key_len} position={position}");
        }
    }
}

#[test]
fn xor_slice_twice_restores_and_empty_key_is_identity() {
    let original: Vec<u8> = (0..77u8).collect();
    let key = [0x11u8, 0x22, 0x33, 0x44, 0x55, 0x66, 0x77, 0x88];
    let mut buffer = original.clone();
    xor_slice(&mut buffer, &key, 5);
    assert_ne!(buffer, original);
    xor_slice(&mut buffer, &key, 5);
    assert_eq!(buffer, original);
    let mut same = original.clone();
    xor_slice(&mut same, &[], 3);
    assert_eq!(same, original);
}

const FOOTER: [u8; 8] = [0x57, 0xFB, 0x80, 0x8B, 0x24, 0x75, 0x47, 0xDB];

fn xor_encrypt(plain: &[u8], key: &[u8]) -> Vec<u8> {
    let mut out = netease_header_bytes();
    for (index, byte) in plain.iter().enumerate() {
        out.push(byte ^ key[index % key.len()]);
    }
    out
}

fn facts(name: &str, bytes: &[u8], encrypted: bool) -> DbFile {
    let tail = if bytes.len() >= 8 { bytes[bytes.len() - 8..].to_vec() } else { bytes.to_vec() };
    DbFile { name: name.to_string(), encrypted, size: bytes.len() as u64, tail }
}

#[test]
fn recovers_key_from_ldb_footer_and_current() {
    let key = [0x11u8, 0x22, 0x33, 0x44, 0x55, 0x66, 0x77, 0x88];
    let mut ldb = vec![0x42u8; 1024];
    ldb[1016..].copy_from_slice(&FOOTER);
    let ldb_enc = xor_encrypt(&ldb, &key);
    let current_enc = xor_encrypt(b"MANIFEST-000001\n", &key);
    let files = vec![
        facts("000001.ldb", &ldb_enc, true),
        facts("CURRENT", &current_enc, true),
        facts("MANIFEST-000001", &xor_encrypt(b"MANIFEST-000001\n", &key), true),
    ];
    let found = recover_key(&files, "MANIFEST-000001", &Some(current_enc.clone())).unwrap();
    assert_eq!(found.key, key.to_vec());
    assert_eq!(found.encrypted_ldb, 1);
    assert_eq!(found.valid_footers, 1);
}

#[test]
fn recovers_key_at_unaligned_footer_offset() {
    let key = [9u8, 8, 7, 6, 5, 4, 3, 2];
    let mut ldb = vec![0x10u8; 1003];
    ldb[995..].copy_from_slice(&FOOTER);
    let enc = xor_encrypt(&ldb, &key);
    let files = vec![facts("000007.LDB", &enc, true)];
    let found = recover_key(&files, "MANIFEST-000002", &None).unwrap();
    assert_eq!(found.key, key.to_vec());
}

#[test]
fn key_recovery_errors() {
    let no_candidates = recover_key(&vec![], "MANIFEST-000001", &None).unwrap_err();
    assert_eq!(no_candidates.message, "无法从 CURRENT 或 .ldb footer 恢复网易 XOR 密钥");
    // a CURRENT-derived key that matches no table footer
    let key = [1u8, 2, 3, 4, 5, 6, 7, 8];
    let current_enc = xor_encrypt(b"MANIFEST-000001\n", &key);
    let garbage = {
        let mut v = netease_header_bytes();
        v.extend_from_slice(&[0u8; 20]);
        v
    };
    let files = vec![facts("CURRENT", &current_enc, true), facts("000001.ldb", &garbage, true)];
    // the garbage table's own footer key is a candidate that validates itself
    let found = recover_key(&files, "MANIFEST-000001", &Some(current_enc.clone())).unwrap();
    assert_eq!(found.valid_footers, 1);
    let short = facts("000002.ldb", &netease_header_bytes(), true);
    let files = vec![facts("CURRENT", &current_enc, true), short];
    let err = recover_key(&files, "MANIFEST-000001", &Some(current_enc)).unwrap_err();
    assert_eq!(err.message, "候选密钥无法通过任何 LevelDB footer 校验");
}

#[test]
fn db_directory_names() {
    assert!(matches_db_directory("db"));
    assert!(matches_db_directory("db1"));
    assert!(matches_db_directory("db_ -12"));
    assert!(!matches_db_directory("db_"));
    assert!(!matches_db_directory("dbx"));
    assert!(!matches_db_directory("d"));
    assert!(!matches_db_directory("db 1a"));
}

fn names(list: &[&str]) -> Vec<String> {
    list.iter().map(|n| n.to_string()).collect()
}

#[test]
fn choose_manifest_prefers_highest_number() {
    let files = names(&["MANIFEST-000003", "MANIFEST-10", "MANIFEST-2"]);
    assert_eq!(choose_manifest_name(&files, &None).unwrap(), "MANIFEST-10");
}

#[test]
fn manifest_choice_follows_plain_current() {
    let files = names(&["CURRENT", "MANIFEST-000001", "MANIFEST-000002"]);
    let current = Some(b"MANIFEST-000001\r\n".to_vec());
    assert_eq!(choose_manifest_name(&files, &current).unwrap(), "MANIFEST-000001");
    // CURRENT naming a file that is not there is ignored
    let stale = Some(b"MANIFEST-000009\n".to_vec());
    assert_eq!(choose_manifest_name(&files, &stale).unwrap(), "MANIFEST-000002");
    // an encrypted CURRENT is ignored
    let mut encrypted = netease_header_bytes();
    encrypted.extend_from_slice(b"MANIFEST-000001\n");
    assert_eq!(choose_manifest_name(&files, &Some(encrypted)).unwrap(), "MANIFEST-000002");
    // unnumbered manifests count as 0; the last of equals wins
    let odd = names(&["MANIFEST-a", "MANIFEST-b"]);
    assert_eq!(choose_manifest_name(&odd, &None).unwrap(), "MANIFEST-b");
    let none = choose_manifest_name(&names(&["CURRENT", "000001.ldb"]), &None).unwrap_err();
    assert_eq!(none.message, "LevelDB 缺少 MANIFEST-* 文件");
    assert_eq!(manifest_number("MANIFEST-000010"), Some(10));
    assert_eq!(manifest_number("MANIFEST-+7"), Some(7));
    assert_eq!(manifest_number("MANIFEST-x"), None);
    assert_eq!(manifest_number("manifest-1"), None);
}

#[test]
fn preparation_decisions() {
    assert_eq!(
        check_preparable(WorldType::Java).unwrap_err().message,
        "内部错误：尝试把 Java 世界作为 Bedrock 解密"
    );
    assert!(check_preparable(WorldType::NeteaseBedrockLegacyAes).unwrap_err().message.starts_with("检测到旧版 90 1D 30 01"));
    assert!(check_preparable(WorldType::NeteaseBedrock).is_ok());
    assert!(check_preparable(WorldType::Bedrock).is_ok());
    assert!(is_db_artifact_name("000001.ldb"));
    assert!(is_db_artifact_name("manifest-000001"));
    assert!(is_db_artifact_name("lock"));
    assert!(is_db_artifact_name("000003.LOG"));
    assert!(!is_db_artifact_name("level.dat"));
    assert_eq!(db_file_action("LEVEL.DAT", true, false).unwrap(), DbAction::Skip);
    assert_eq!(db_file_action(".DS_Store", false, false).unwrap(), DbAction::Skip);
    assert_eq!(db_file_action("000001.ldb", true, true).unwrap(), DbAction::Decrypt);
    assert_eq!(db_file_action("000001.ldb", false, false).unwrap(), DbAction::Copy);
    assert_eq!(
        db_file_action("000001.ldb", true, false).unwrap_err().message,
        "发现加密文件但未恢复出密钥：000001.ldb"
    );
    assert_eq!(prepare_percent(0, 0), 13);
    assert_eq!(prepare_percent(1, 2), 21);
    assert_eq!(prepare_percent(2, 2), 30);
    assert_eq!(prepare_stage(true), "解密网易 LevelDB");
    assert_eq!(prepare_stage(false), "规范化 Bedrock");
}

fn out(name: &str, size: u64, head: &[u8], tail: &[u8]) -> OutputFile {
    OutputFile { name: name.to_string(), is_file: true, size, head: head.to_vec(), tail: tail.to_vec() }
}

#[test]
fn normalized_database_checks() {
    let good = vec![out("000001.ldb", 1024, &[0, 0, 0, 0], &FOOTER), out("CURRENT", 16, b"MANI", b"")];
    assert_eq!(check_normalized(&good).unwrap(), 1);
    let bad = vec![out("000002.LDB", 1024, &[0, 0, 0, 0], &[0u8; 8])];
    assert_eq!(check_normalized(&bad).unwrap_err().message, "解密后的 LevelDB footer 校验失败：000002.LDB");
    let leftover = vec![out("000003.log", 10, &netease_header_bytes(), b"")];
    assert_eq!(check_normalized(&leftover).unwrap_err().message, "规范化后的数据库仍残留网易加密头");
}

#[test]
fn metadata_copy_rules() {
    let p = |parts: &[&str]| -> Vec<String> { parts.iter().map(|x| x.to_string()).collect() };
    let root = p(&["/", "w"]);
    let db = p(&["/", "w", "db"]);
    let output = p(&["/", "o"]);
    assert_eq!(metadata_action(&db, &root, &db, &output, true).unwrap(), MetaAction::Skip);
    assert_eq!(metadata_action(&p(&["/", "w", "behavior_packs"]), &root, &db, &output, true).unwrap(), MetaAction::Descend);
    assert_eq!(metadata_action(&p(&["/", "w", "level.dat"]), &root, &db, &output, false).unwrap(), MetaAction::Skip);
    assert_eq!(metadata_action(&p(&["/", "w", "CURRENT"]), &root, &db, &output, false).unwrap(), MetaAction::Skip);
    assert_eq!(metadata_action(&p(&["/", "w", "packs", "CURRENT"]), &root, &db, &output, false).unwrap(), MetaAction::Copy);
    assert_eq!(metadata_action(&p(&["/", "w", "icon.png"]), &root, &db, &output, false).unwrap(), MetaAction::Copy);
    assert_eq!(metadata_action(&p(&["/", "w", "__MACOSX", "x"]), &root, &db, &output, false).unwrap(), MetaAction::Skip);
    assert_eq!(metadata_action(&p(&["/", "elsewhere"]), &root, &db, &output, false).unwrap_err().message, "内部路径错误");
}

#[test]
fn legacy_database_file_is_refused() {
    let heads = vec![vec![0x80u8, 0x1D, 0x30, 0x01], vec![1u8, 2], vec![]];
    assert!(check_legacy_files(&heads).is_ok());
    let mixed = vec![vec![0x80u8, 0x1D, 0x30, 0x01], vec![0x90u8, 0x1D, 0x30, 0x01, 7]];
    let error = check_legacy_files(&mixed).unwrap_err();
    assert_eq!(error.code, "error");
    assert_eq!(error.message, "数据库中混有旧版 AES-CFB8 文件，不能安全解密");
    assert!(check_legacy_files(&vec![vec![0x90u8, 0x1D, 0x30]]).is_ok());
}

#[test]
fn level_dat_comes_from_root_then_database() {
    assert_eq!(level_dat_source(true, true).unwrap(), LevelSource::Root);
    assert_eq!(level_dat_source(true, false).unwrap(), LevelSource::Root);
    assert_eq!(level_dat_source(false, true).unwrap(), LevelSource::Database);
    let error = level_dat_source(false, false).unwrap_err();
    assert_eq!(error.message, "基岩世界缺少 level.dat（根目录和数据库目录均未找到）");
}

#[test]
fn xor_in_pieces_equals_one_pass() {
    let key = [7u8, 1, 200, 33, 9];
    let data: Vec<u8> = (0..100u32).map(|i| (i * 37 % 251) as u8).collect();
    let mut whole = data.clone();
    xor_slice(&mut whole, &key, 3);
    for k in [0usize, 1, 17, 64, 100] {
        let mut pieces = data.clone();
        let (head, tail) = pieces.split_at_mut(k);
        xor_slice(head, &key, 3);
        xor_slice(tail, &key, 3 + k as u64);
        assert_eq!(pieces, whole);
    }
}

