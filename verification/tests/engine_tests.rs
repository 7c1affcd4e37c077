use nwc::engine::{
    analysis_reports_error, analysis_supported, cancel, cancel_check, check_input, check_save_destination, save_temp_path, conversion_report, conversion_route,
    count_detail, error_detail_line, error_report_name, export_conversion_error, extract_space_needed, is_downgrade,
    legacy_world, log_line, orphan_name, progress_payload, region_note, report_export_failure, resolve_chunker_format,
    result_zip_name, save_destination, session_id_of, stale_temp, stored_result, work_space_needed, Route, SessionRecord,
    SessionTable, StoredResult,
};
use nwc::error::ConversionError;
use nwc::models::{TargetVersion, ValidationResult, WorldInfo, WorldType};

fn p(parts: &[&str]) -> Vec<String> {
    parts.iter().map(|x| x.to_string()).collect()
}

fn world(world_type: WorldType, version: &str) -> WorldInfo {
    WorldInfo {
        root: p(&["/", "t", "w"]),
        database_directory: None,
        world_type,
        detected_version: version.to_string(),
        world_name: "w".to_string(),
        file_count: 1,
        byte_count: 2,
        notes: vec![],
    }
}

fn record(id: &str, world_type: WorldType) -> SessionRecord {
    SessionRecord {
        session_id: id.to_string(),
        input_zip: p(&["/", "in", "w.zip"]),
        world: world(world_type, "1.21.10"),
        targets: vec![],
        cancelled: false,
        converting: false,
        result: None,
    }
}

#[test]
fn sessions_are_found_and_replaced() {
    let mut table = SessionTable::new();
    table.insert(record("20240101000000000-0", WorldType::Java));
    table.insert(record("20240101000000000-1", WorldType::Bedrock));
    assert_eq!(table.len(), 2);
    assert_eq!(table.find("20240101000000000-1").unwrap().world.world_type, WorldType::Bedrock);
    let missing = table.find("nope").unwrap_err();
    assert_eq!(missing.message, "转换会话不存在：nope");
    table.insert(record("20240101000000000-1", WorldType::Java));
    assert_eq!(table.len(), 2);
    assert_eq!(table.find("20240101000000000-1").unwrap().world.world_type, WorldType::Java);
}

#[test]
fn reaping_drops_oldest_idle_sessions() {
    let mut table = SessionTable::new();
    for i in 0..5 {
        table.insert(record(&format!("2024010100000000{i}-{i}"), WorldType::Java));
    }
    table.begin_convert("20240101000000000-0").unwrap();
    let removed = table.reap();
    assert_eq!(removed, vec!["20240101000000001-1".to_string(), "20240101000000002-2".to_string()]);
    assert_eq!(table.len(), 3);
    assert!(table.find("20240101000000000-0").is_ok());
    assert!(table.find("20240101000000004-4").is_ok());
    // at the limit nothing goes
    assert!(table.reap().is_empty());
}

#[test]
fn conversions_are_exclusive() {
    let mut table = SessionTable::new();
    table.insert(record("a", WorldType::Java));
    table.insert(record("legacy", WorldType::NeteaseBedrockLegacyAes));
    assert!(table.begin_convert("a").is_ok());
    let busy = table.begin_convert("a").unwrap_err();
    assert_eq!(busy.message, "该会话正在转换中，请等待完成或取消");
    table.end_convert(
        "a",
        Some(StoredResult {
            result_zip: p(&["/", "t", "w-Java_1.20.6.zip"]),
            file_name: "w-Java_1.20.6.zip".to_string(),
            target_version: "Java 1.20.6".to_string(),
            region_files: 1,
            region_chunks: 2,
            region_note: "ok".to_string(),
        }),
    );
    assert!(table.begin_convert("a").is_ok());
    table.end_convert("a", None);
    assert_eq!(stored_result(&table, "a").unwrap().file_name, "w-Java_1.20.6.zip");
    let legacy = table.begin_convert("legacy").unwrap_err();
    assert_eq!(legacy.message, "该存档使用旧版 AES-CFB8 加密，密钥不在存档中，无法离线转换");
    assert_eq!(stored_result(&table, "legacy").unwrap_err().message, "当前没有可保存的转换结果");
    cancel(&mut table, "a").unwrap();
    let cancelled = table.begin_convert("a").unwrap_err();
    assert_eq!(cancelled.code, "cancelled");
    assert_eq!(cancelled.message, "操作已取消");
    assert_eq!(cancel(&mut table, "zzz").unwrap_err().message, "转换会话不存在：zzz");
}

#[test]
fn downgrade_questions_and_reports() {
    let mut table = SessionTable::new();
    table.insert(record("j", WorldType::Java));
    table.insert(record("b", WorldType::NeteaseBedrock));
    assert_eq!(is_downgrade(&table, "j", "Java 1.20.6").unwrap(), true);
    assert_eq!(is_downgrade(&table, "j", "Java 26.1").unwrap(), false);
    assert_eq!(is_downgrade(&table, "b", "1.21.4").unwrap(), true);
    assert_eq!(is_downgrade(&table, "b", "unknown").unwrap(), false);
    assert!(is_downgrade(&table, "x", "1.20").is_err());
    let request = export_conversion_error(&table, "j", "boom").unwrap();
    assert_eq!(request.input_zip, p(&["/", "in", "w.zip"]));
    assert_eq!(request.message, "boom");
    let latest = table.latest_for_input(&p(&["/", "in", "w.zip"])).unwrap();
    assert_eq!(latest.session_id, "j");
    assert!(table.latest_for_input(&p(&["/", "other.zip"])).is_none());
}

#[test]
fn analysis_decisions() {
    assert!(check_input("World.ZIP", true).is_ok());
    assert!(check_input("a.mcworld", true).is_ok());
    assert_eq!(check_input("a.rar", true).unwrap_err().message, "仅支持 .zip 或 .mcworld 存档文件");
    assert_eq!(check_input("a.zip", false).unwrap_err().message, "文件不存在");
    let legacy = legacy_world(p(&["/", "t", "extracted"]), "网易世界.mcworld");
    assert_eq!(legacy.world_name, "网易世界");
    assert_eq!(legacy.world_type, WorldType::NeteaseBedrockLegacyAes);
    assert_eq!(legacy.detected_version, "基岩 LevelDB（旧版 AES-CFB8 加密）");
    assert!(!analysis_supported(WorldType::NeteaseBedrockLegacyAes, false));
    assert!(!analysis_supported(WorldType::Java, true));
    assert!(analysis_supported(WorldType::Java, false));
    assert!(analysis_supported(WorldType::Bedrock, true));
    assert!(analysis_reports_error(WorldType::NeteaseBedrockLegacyAes, false));
    assert!(!analysis_reports_error(WorldType::Java, false));
    assert_eq!(extract_space_needed(1), 268435459);
    assert_eq!(work_space_needed(2), 1073741830);
}

#[test]
fn conversion_decisions() {
    let targets = vec![TargetVersion { display_name: "Java 1.20.6".to_string(), chunker_format: "JAVA_1_20_6".to_string() }];
    assert_eq!(resolve_chunker_format(&targets, "Java 1.20.6").unwrap(), "JAVA_1_20_6");
    assert_eq!(resolve_chunker_format(&targets, "1.21.10").unwrap(), "JAVA_1_21_10");
    assert_eq!(resolve_chunker_format(&targets, "latest").unwrap_err().message, "未知的目标版本：latest");
    assert_eq!(conversion_route(WorldType::Java, "1.21.10", "Java 1.21.10"), Route::JavaCopy);
    assert_eq!(conversion_route(WorldType::Java, "1.21.10", "Java 1.20.6"), Route::JavaChunker { downgrade: true });
    assert_eq!(conversion_route(WorldType::Java, "DataVersion 1", "Java 1.20.6"), Route::JavaChunker { downgrade: false });
    assert_eq!(conversion_route(WorldType::NeteaseBedrock, "基岩 LevelDB", "Java 1.21.10"), Route::BedrockDirect);
    assert_eq!(conversion_route(WorldType::Bedrock, "基岩 LevelDB", "Java 1.20.6"), Route::BedrockChunker { downgrade: true });
    assert_eq!(conversion_route(WorldType::Bedrock, "基岩 LevelDB", "Java 26.1"), Route::BedrockChunker { downgrade: false });
}

#[test]
fn notes_reports_and_names() {
    assert_eq!(region_note(&vec![], 3), "3 个区域文件全部通过结构验证");
    assert_eq!(region_note(&vec!["a".to_string(), "b".to_string()], 3), "a；b");
    let v = ValidationResult {
        region_files: 1,
        region_chunks: 2,
        files: 3,
        bytes: 4,
        level_version: "1.20.6".to_string(),
        data_version: 3839,
    };
    let report = conversion_report("2024-01-01T00:00:00+08:00", "/in/w.zip", &world(WorldType::Java, "1.21.10"), "1.20.6", &v, "ok");
    let lines: Vec<&str> = report.split('\n').collect();
    assert_eq!(lines.len(), 16);
    assert_eq!(lines[0], "Netease World Converter 转换报告");
    assert_eq!(lines[3], "识别类型: Java 版（含网易 Java）");
    assert_eq!(lines[5], "目标版本: Java 1.20.6");
    assert_eq!(lines[10], "输出 DataVersion: 3839");
    assert_eq!(lines[13], "");
    assert!(report.ends_with("原始 ZIP 从未被修改。\n"));
    assert_eq!(result_zip_name("My World.zip", "Java 1.20.6"), "My World-Java_1.20.6.zip");
    assert_eq!(result_zip_name("a:b.mcworld", "1.21"), "a_b-1.21.zip");
    assert_eq!(error_report_name("My World.zip", "20240101-120000"), "My World-error-20240101-120000.log");
    assert_eq!(report_export_failure(Some("denied".to_string())).message, "错误报告导出失败：denied");
    assert_eq!(report_export_failure(None).message, "错误报告导出失败：");
    assert_eq!(session_id_of("20240101120000123", 7), "20240101120000123-7");
}

#[test]
fn temp_and_save_paths() {
    assert!(stale_temp(".NeteaseWorldConverter-abc-orphan-123", None));
    assert!(stale_temp("NeteaseWorldConverter-abc", Some((7201, 0))));
    assert!(stale_temp("NeteaseWorldConverter-abc", Some((7200, 1))));
    assert!(!stale_temp("NeteaseWorldConverter-abc", Some((7200, 0))));
    assert!(!stale_temp("NeteaseWorldConverter-abc", Some((7199, 999_999_999))));
    assert!(!stale_temp("NeteaseWorldConverter-abc", None));
    assert!(!stale_temp("other", Some((99999, 0))));
    assert_eq!(orphan_name("NeteaseWorldConverter-x", 42), ".NeteaseWorldConverter-x-orphan-42");
    assert_eq!(save_destination(&p(&["/", "out", "result"])), p(&["/", "out", "result.zip"]));
    assert_eq!(save_destination(&p(&["/", "out", "result.zip"])), p(&["/", "out", "result.zip"]));
    assert_eq!(save_destination(&p(&["/", "out", ".hidden"])), p(&["/", "out", ".hidden.zip"]));
    assert_eq!(save_destination(&p(&["/"])), p(&["/"]));
}

#[test]
fn progress_and_log_lines() {
    let low = progress_payload("s", -5, "stage", "detail");
    assert_eq!(low.percent, 0);
    assert_eq!(progress_payload("s", 150, "a", "b").percent, 100);
    assert_eq!(progress_payload("s", 42, "a", "b").percent, 42);
    assert!(cancel_check(false).is_ok());
    let err = cancel_check(true).unwrap_err();
    assert_eq!(err.code, "cancelled");
    assert_eq!(count_detail(3, 10, "文件"), "3 / 10 个文件");
    assert_eq!(log_line("2024-01-01T00:00:00+08:00", "INFO", "hi"), "2024-01-01T00:00:00+08:00 [INFO] hi");
    let e = ConversionError::new("error", "bad".to_string());
    assert_eq!(error_detail_line(&e), "ConversionError: bad");
}

#[test]
fn errors_travel_as_json() {
    let e = ConversionError::new("error", "路径 \"C:\\x\"\n失败".to_string());
    assert_eq!(e.to_ipc(), "{\"code\":\"error\",\"message\":\"路径 \\\"C:\\\\x\\\"\\n失败\"}");
    assert_eq!(e.to_text(), "路径 \"C:\\x\"\n失败");
    let c = ConversionError::new("cancelled", "操作已取消".to_string());
    assert_eq!(c.to_ipc(), "{\"code\":\"cancelled\",\"message\":\"操作已取消\"}");
}

#[test]
fn backend_output_is_decoded_leniently() {
    let line = nwc::backends::java_version_line(b"", b"java \xff version\n").unwrap();
    assert_eq!(line, "java \u{FFFD} version");
}

#[test]
fn saving_over_the_input_is_refused() {
    let error = check_save_destination(&p(&["/", "w", "in.zip"]), &p(&["/", "w", "in.zip"])).unwrap_err();
    assert_eq!(error.message, "不能覆盖原始存档，请选择其他保存位置");
    assert!(check_save_destination(&p(&["/", "w", "out.zip"]), &p(&["/", "w", "in.zip"])).is_ok());
    assert_eq!(save_temp_path(&p(&["/", "w", "out.zip"])), p(&["/", "w", "out.zip.nwc-saving"]));
}

#[test]
fn reaping_keeps_every_converting_session() {
    let mut table = SessionTable::new();
    for i in 0..6 {
        table.insert(record(&format!("2024010100000000{i}-{i}"), WorldType::Java));
    }
    for i in [1, 3, 4, 5] {
        table.begin_convert(&format!("2024010100000000{i}-{i}")).unwrap();
    }
    // six sessions, four converting: only the two idle ones can go, and four remain
    let removed = table.reap();
    assert_eq!(removed, vec!["20240101000000000-0".to_string(), "20240101000000002-2".to_string()]);
    assert_eq!(table.len(), 4);
    for i in [1, 3, 4, 5] {
        assert!(table.find(&format!("2024010100000000{i}-{i}")).is_ok());
    }
}

