use nwc::detect::{bedrock_world, detect_world, find_candidates, java_world, Node};
use nwc::error::ConversionError;
use nwc::models::{LevelMetadata, WorldType};

fn dir(path: &[&str]) -> Node {
    Node { path: path.iter().map(|p| p.to_string()).collect(), is_dir: true, is_file: false, size: 0, head: vec![] }
}

fn file(path: &[&str], size: u64, head: &[u8]) -> Node {
    Node { path: path.iter().map(|p| p.to_string()).collect(), is_dir: false, is_file: true, size, head: head.to_vec() }
}

fn root() -> Vec<String> {
    vec!["/".to_string(), "tmp".to_string(), "extracted".to_string()]
}

fn java_tree() -> Vec<Node> {
    vec![
        dir(&[]),
        dir(&["MyWorld"]),
        file(&["MyWorld", "level.dat"], 100, &[0x1f, 0x8b, 8, 0]),
        dir(&["MyWorld", "region"]),
        file(&["MyWorld", "region", "r.0.0.mca"], 8192, &[0, 0, 2, 1]),
        dir(&["__MACOSX"]),
        file(&["__MACOSX", "junk"], 5, b"junk"),
    ]
}

#[test]
fn scores_java_candidates() {
    let nodes = java_tree();
    let cands = find_candidates(&nodes);
    assert_eq!(cands.len(), 1);
    assert_eq!(cands[0].root, vec!["MyWorld".to_string()]);
    assert!(!cands[0].bedrock);
    assert_eq!(cands[0].score, 20 + 50 + 15 - 1);
    let detection = detect_world(&nodes).unwrap();
    assert_eq!(detection.file_count, 2);
    assert_eq!(detection.byte_count, 8292);
}

#[test]
fn describes_a_java_world() {
    let nodes = java_tree();
    let detection = detect_world(&nodes).unwrap();
    let level = Ok(LevelMetadata { data_version: 4325, version_name: String::new(), world_name: String::new() });
    let info = java_world(&root(), &nodes, detection, level).unwrap();
    assert_eq!(info.world_type, WorldType::Java);
    assert_eq!(info.detected_version, "DataVersion 4325");
    assert_eq!(info.world_name, "MyWorld");
    assert_eq!(info.root, vec!["/", "tmp", "extracted", "MyWorld"]);
    assert_eq!(info.notes, vec!["Java 存档本身没有统一的网易专用签名，按标准 Anvil 格式处理".to_string()]);
    let failed = java_world(
        &root(),
        &nodes,
        detect_world(&nodes).unwrap(),
        Err(ConversionError::new("error", "NBT 数据被截断".to_string())),
    )
    .unwrap_err();
    assert_eq!(failed.message, "找到了 Java 目录，但 level.dat 无法解析；NBT 数据被截断");
}

#[test]
fn netease_marker_note() {
    let mut nodes = java_tree();
    nodes.push(file(&["MyWorld", "netease_flag.txt"], 1, b"x"));
    let detection = detect_world(&nodes).unwrap();
    let level = Ok(LevelMetadata { data_version: 1, version_name: "1.21.4".to_string(), world_name: "Named".to_string() });
    let info = java_world(&root(), &nodes, detection, level).unwrap();
    assert_eq!(info.detected_version, "1.21.4");
    assert_eq!(info.world_name, "Named");
    assert_eq!(info.notes, vec!["发现网易标记文件，按网易 Java/标准 Java Anvil 存档处理".to_string()]);
}

#[test]
fn encrypted_bedrock_wins() {
    let nodes = vec![
        dir(&[]),
        dir(&["java"]),
        file(&["java", "level.dat"], 10, b"\x1f\x8b"),
        dir(&["bedrock"]),
        dir(&["bedrock", "db"]),
        file(&["bedrock", "db", "000001.ldb"], 100, &[0x80, 0x1D, 0x30, 0x01]),
        file(&["bedrock", "db", "level.dat"], 10, b"lvl!"),
    ];
    let detection = detect_world(&nodes).unwrap();
    assert!(detection.candidate.bedrock);
    assert_eq!(detection.candidate.root, vec!["bedrock".to_string()]);
    assert_eq!(detection.candidate.score, 99);
    let info = bedrock_world(&root(), &nodes, detection);
    assert_eq!(info.world_type, WorldType::NeteaseBedrock);
    assert_eq!(info.detected_version, "基岩 LevelDB");
    assert_eq!(info.world_name, "bedrock");
    assert_eq!(info.database_directory, Some(vec!["/".to_string(), "tmp".to_string(), "extracted".to_string(), "bedrock".to_string(), "db".to_string()]));
    assert_eq!(
        info.notes,
        vec![
            "检测到 80 1D 30 01 网易异或加密头".to_string(),
            "level.dat 位于数据库目录内，转换时会自动移回世界根目录".to_string()
        ]
    );
}

#[test]
fn legacy_header_and_plain_bedrock() {
    let legacy = vec![
        dir(&[]),
        dir(&["w"]),
        file(&["w", "level.dat"], 10, b"lvl!"),
        dir(&["w", "db"]),
        file(&["w", "db", "MANIFEST-000001"], 50, &[0x90, 0x1D, 0x30, 0x01]),
    ];
    let detection = detect_world(&legacy).unwrap();
    let info = bedrock_world(&root(), &legacy, detection);
    assert_eq!(info.world_type, WorldType::NeteaseBedrockLegacyAes);
    assert_eq!(info.notes, vec!["检测到 90 1D 30 01 旧版 AES-CFB8 加密头；该格式无法离线恢复密钥".to_string()]);
    let plain = vec![dir(&[]), dir(&["db"]), file(&["db", "CURRENT"], 16, b"MANI")];
    let detection = detect_world(&plain).unwrap();
    assert_eq!(detection.candidate.root, Vec::<String>::new());
    let info = bedrock_world(&root(), &plain, detection);
    assert_eq!(info.world_type, WorldType::Bedrock);
    assert_eq!(info.world_name, "extracted");
    assert_eq!(info.notes, vec!["LevelDB 未加密，将直接规范化目录".to_string()]);
}

#[test]
fn nothing_recognisable() {
    let nodes = vec![dir(&[]), dir(&["stuff"]), file(&["stuff", "readme.txt"], 3, b"hi")];
    let err = detect_world(&nodes).unwrap_err();
    assert_eq!(err.message, "没有找到可识别的 Minecraft 世界根目录。需要 Java level.dat/region，或基岩版 db/*.ldb。");
}

#[test]
fn shallow_candidates_win_ties_by_walk_order() {
    // two Java worlds with equal scores: the later one in depth order wins
    let nodes = vec![
        dir(&[]),
        dir(&["a"]),
        file(&["a", "level.dat"], 1, b"x"),
        dir(&["b"]),
        file(&["b", "level.dat"], 1, b"x"),
    ];
    let detection = detect_world(&nodes).unwrap();
    assert_eq!(detection.candidate.root, vec!["b".to_string()]);
}
