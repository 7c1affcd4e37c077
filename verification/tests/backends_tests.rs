use nwc::backends::{
    backend_candidates, backend_status, builtin_targets, check_backend_output, chunker_args, chunker_progress,
    display_version, is_chunker_jar, java_version_line, je2be_args, je2be_progress, je2be_threads, parse_target_token,
    process_outcome, process_step, program_name, ProcAction, ProcEvent, push_recent, search_dirs, spawn_failure, targets_from_output, Backend, BackendPaths,
    ExitStatus,
};
use nwc::version::Version;

fn v(major: i32, minor: i32, patch: i32) -> Version {
    Version { major, minor, patch }
}

fn p(parts: &[&str]) -> Vec<String> {
    parts.iter().map(|x| x.to_string()).collect()
}

#[test]
fn parses_target_tokens() {
    assert_eq!(parse_target_token("JAVA_1_21_10"), Some(v(1, 21, 10)));
    assert_eq!(parse_target_token("JAVA_26_2"), Some(v(26, 2, 0)));
    assert_eq!(parse_target_token("JAVA_1_12"), Some(v(1, 12, 0)));
    assert_eq!(parse_target_token("JAVA_1_11_2"), None);
    assert_eq!(parse_target_token("JAVA_26_3"), Some(v(26, 3, 0)));
    assert_eq!(parse_target_token("JAVA_26_4"), None);
    assert_eq!(parse_target_token("JAVA_1"), None);
    assert_eq!(parse_target_token("JAVA_1_20_x"), Some(v(1, 20, 0)));
    assert_eq!(display_version(v(1, 21, 10)), "Java 1.21.10");
    assert_eq!(display_version(v(26, 1, 0)), "Java 26.1");
}

#[test]
fn builtin_targets_are_newest_first() {
    let list = builtin_targets();
    assert_eq!(list.len(), 5 + 12 + 7 + 5 + 3 + 2 + 6 + 3 + 5 + 3 + 3);
    assert_eq!(list[0].display_name, "Java 26.3");
    assert_eq!(list[0].chunker_format, "JAVA_26_3");
    assert_eq!(list[1].chunker_format, "JAVA_26_2");
    assert_eq!(list[2].chunker_format, "JAVA_26_1_2");
    assert_eq!(list[5].display_name, "Java 1.21.11");
    assert_eq!(list[16].display_name, "Java 1.21");
    assert_eq!(list[16].chunker_format, "JAVA_1_21");
    assert_eq!(list.last().unwrap().chunker_format, "JAVA_1_12");
    let versions: Vec<Version> = list.iter().map(|t| parse_target_token(&t.chunker_format).unwrap()).collect();
    for pair in versions.windows(2) {
        assert!(pair[0] > pair[1]);
    }
}

#[test]
fn reads_targets_from_backend_output() {
    let stdout = b"Usage: -f JAVA_1_20_6, JAVA_1_21_10\n";
    let stderr = b"Invalid format ?. Valid: JAVA_1_21_10 JAVA_26_1 JAVA_1_11_2 JAVA_1_21_0 JAVA_1_21";
    let list = targets_from_output(stdout, stderr).unwrap();
    let formats: Vec<&str> = list.iter().map(|t| t.chunker_format.as_str()).collect();
    assert_eq!(formats, vec!["JAVA_26_1", "JAVA_1_21_10", "JAVA_1_21_0", "JAVA_1_21", "JAVA_1_20_6"]);
    assert_eq!(list[0].display_name, "Java 26.1");
    assert_eq!(list[2].display_name, "Java 1.21");
    assert!(targets_from_output(b"nothing here", b"").is_none());
    assert!(targets_from_output(b"JAVA_1_8", b"").is_none());
}

#[test]
fn search_directories_and_candidates() {
    let dirs = search_dirs(&Some(p(&["/", "res"])), &Some(p(&["/", "app"])), &None);
    assert_eq!(dirs.len(), 2 + 13);
    assert_eq!(dirs[0], p(&["/", "res", "backends"]));
    assert_eq!(dirs[2], p(&["/", "app"]));
    assert_eq!(dirs[14], p(&["/", "app", "_up_", "resources", "runtime"]));
    let with_cwd = search_dirs(&None, &None, &Some(p(&["/", "cwd"])));
    assert_eq!(with_cwd, vec![p(&["/", "cwd"]), p(&["/", "cwd", "src-tauri", "backends"]), p(&["/", "cwd", "src-tauri", "runtime"])]);
    let java = backend_candidates(&vec![p(&["/", "r"])], Backend::Java);
    assert_eq!(java, vec![p(&["/", "r", "bin", "java.exe"]), p(&["/", "r", "bin", "java"])]);
    let b2j = backend_candidates(&vec![p(&["/", "a"]), p(&["/", "b"])], Backend::B2j);
    assert_eq!(b2j, vec![p(&["/", "a", "b2j.exe"]), p(&["/", "a", "b2j"]), p(&["/", "b", "b2j.exe"]), p(&["/", "b", "b2j"])]);
    assert_eq!(backend_candidates(&vec![p(&["x"])], Backend::Chunker), vec![p(&["x", "chunker-cli.jar"])]);
    assert!(is_chunker_jar("Chunker-CLI.JAR"));
    assert!(!is_chunker_jar("chunker.jar"));
}

#[test]
fn backend_status_messages() {
    let all = BackendPaths {
        java: Some(p(&["/", "r", "bin", "java"])),
        chunker: Some(p(&["/", "b", "chunker-cli.jar"])),
        b2j: Some(p(&["/", "b", "b2j.exe"])),
    };
    let ok = backend_status(&all, Some("openjdk version \"21\"".to_string()));
    assert!(ok.ok);
    assert_eq!(ok.chunker, "chunker-cli.jar");
    assert_eq!(ok.b2j, "b2j.exe");
    assert_eq!(ok.message, "");
    let none = BackendPaths { java: None, chunker: None, b2j: None };
    let missing = backend_status(&none, None);
    assert!(!missing.ok);
    assert_eq!(missing.java, "未找到");
    assert_eq!(missing.chunker, "未找到");
    assert_eq!(
        missing.message,
        "缺少 Java 运行时、Chunker CLI、b2j（Bedrock→Java）。请运行 npm run prepare:win（或 prepare:unix）填充 backends 与 runtime 目录。"
    );
    let only_b2j = BackendPaths { java: None, chunker: Some(p(&["c.jar"])), b2j: None };
    assert_eq!(
        backend_status(&only_b2j, Some("java 17".to_string())).message,
        "缺少 b2j（Bedrock→Java）。请运行 npm run prepare:win（或 prepare:unix）填充 backends 与 runtime 目录。"
    );
}

#[test]
fn java_version_lines() {
    assert_eq!(
        java_version_line(b"", b"openjdk version \"21.0.2\" 2024-01-16\nOpenJDK Runtime\n"),
        Some("openjdk version \"21.0.2\" 2024-01-16".to_string())
    );
    assert_eq!(java_version_line(b"  java 17  \r\nmore", b"  \n "), Some("java 17".to_string()));
    assert_eq!(java_version_line(b"", b""), None);
}

#[test]
fn backend_progress() {
    assert_eq!(je2be_progress(30), 31);
    assert_eq!(je2be_progress(63), 64);
    assert_eq!(je2be_progress(64), 31);
    assert_eq!(je2be_threads(Some(1)), 2);
    assert_eq!(je2be_threads(Some(8)), 8);
    assert_eq!(je2be_threads(Some(64)), 16);
    assert_eq!(je2be_threads(None), 4);
    assert_eq!(chunker_progress("Converting chunks 50% done"), Some((74, 50)));
    assert_eq!(chunker_progress("[INFO] 100%%"), Some((84, 100)));
    assert_eq!(chunker_progress("x% then 7%"), Some((65, 7)));
    assert_eq!(chunker_progress("250%"), Some((84, 250)));
    assert_eq!(chunker_progress("no percentage"), None);
    assert_eq!(chunker_progress("%"), None);
}

#[test]
fn backend_arguments() {
    assert_eq!(je2be_args("/in", "/out", 8), vec!["-i", "/in", "-o", "/out", "-n", "8"]);
    assert_eq!(
        chunker_args(12, "/b/chunker-cli.jar", "/in", "/out", "JAVA_1_20_6"),
        vec!["-Xms512m", "-Xmx12G", "-jar", "/b/chunker-cli.jar", "-i", "/in", "-o", "/out", "-f", "JAVA_1_20_6"]
    );
}

#[test]
fn process_results() {
    let mut recent: Vec<String> = Vec::new();
    for i in 0..35 {
        push_recent(&mut recent, format!("line {i}"));
    }
    assert_eq!(recent.len(), 30);
    assert_eq!(recent[0], "line 5");
    assert_eq!(recent[29], "line 34");
    assert!(process_outcome("b2j", ExitStatus::Success, &recent).is_ok());
    let failed = process_outcome("b2j", ExitStatus::Failure(Some(3)), &vec!["a".to_string(), "b".to_string()]).unwrap_err();
    assert_eq!(failed.message, "b2j 退出码 3；最近输出：\na\nb");
    let killed = process_outcome("java", ExitStatus::Failure(None), &vec![]).unwrap_err();
    assert_eq!(killed.message, "java 退出码 -1；最近输出：\n");
    assert_eq!(process_outcome("java", ExitStatus::Lost, &vec![]).unwrap_err().message, "java 进程异常结束");
    assert_eq!(spawn_failure("b2j.exe", "not found").message, "无法启动 b2j.exe：not found");
    assert_eq!(program_name(&p(&["/", "x", "b2j"]), "/x/b2j"), "b2j");
    assert_eq!(program_name(&p(&["/"]), "/"), "/");
    assert!(check_backend_output(Backend::B2j, true).is_ok());
    assert_eq!(
        check_backend_output(Backend::Chunker, false).unwrap_err().message,
        "Chunker 进程已结束，但输出目录缺少 level.dat"
    );
    assert_eq!(
        check_backend_output(Backend::B2j, false).unwrap_err().message,
        "b2j 进程已结束，但输出目录缺少 level.dat"
    );
}

#[test]
fn target_tokens_read_back() {
    for version in [v(26, 3, 0), v(26, 0, 0), v(1, 21, 10), v(1, 12, 2), v(1, 16, 5)] {
        let token = nwc::version::chunker_format(version);
        assert_eq!(parse_target_token(&token), Some(version));
    }
    assert_eq!(parse_target_token("JAVA_1_11"), None);
    assert_eq!(parse_target_token("JAVA_1_22"), None);
    assert_eq!(parse_target_token("JAVA_1"), None);
}

#[test]
fn process_step_decides_each_event() {
    let mut recent: Vec<String> = Vec::new();
    assert!(matches!(process_step(&mut recent, ProcEvent::Line("a".to_string()), false, 0, "chunker"), ProcAction::Continue));
    assert_eq!(recent, vec!["a".to_string()]);
    assert!(matches!(process_step(&mut recent, ProcEvent::Tick, false, 599_999, "chunker"), ProcAction::Continue));
    match process_step(&mut recent, ProcEvent::Tick, false, 600_000, "chunker") {
        ProcAction::Terminate(e) => {
            assert_eq!(e.code, "timeout");
            assert_eq!(e.message, "chunker 超过 10 分钟没有输出，已判定为卡死并终止");
        }
        _ => panic!("expected a timeout"),
    }
    match process_step(&mut recent, ProcEvent::Line("b".to_string()), true, 0, "chunker") {
        ProcAction::Terminate(e) => {
            assert_eq!(e.code, "cancelled");
            assert_eq!(e.message, "操作已取消");
        }
        _ => panic!("expected a cancellation"),
    }
    assert_eq!(recent, vec!["a".to_string(), "b".to_string()]);
    match process_step(&mut recent, ProcEvent::Exited(ExitStatus::Failure(Some(2))), false, 0, "chunker") {
        ProcAction::Finish(Err(e)) => assert_eq!(e.message, "chunker 退出码 2；最近输出：\na\nb"),
        _ => panic!("expected a failure"),
    }
    assert!(matches!(
        process_step(&mut recent, ProcEvent::Exited(ExitStatus::Success), false, 900_000, "chunker"),
        ProcAction::Finish(Ok(()))
    ));
    // an exit already seen is answered by its status, even with a cancellation pending
    assert!(matches!(
        process_step(&mut recent, ProcEvent::Exited(ExitStatus::Success), true, 0, "chunker"),
        ProcAction::Finish(Ok(()))
    ));
    let refused_late = nwc::error::ConversionError::new("error", "late".to_string());
    match process_step(&mut recent, ProcEvent::HandlerFailed(refused_late), true, 0, "chunker") {
        ProcAction::Terminate(e) => assert_eq!(e.message, "late"),
        _ => panic!("expected the handler's error"),
    }
    let refused = nwc::error::ConversionError::new("error", "bad line".to_string());
    match process_step(&mut recent, ProcEvent::HandlerFailed(refused), false, 0, "chunker") {
        ProcAction::Terminate(e) => assert_eq!(e.message, "bad line"),
        _ => panic!("expected the handler's error"),
    }
    let mut full: Vec<String> = (0..30).map(|i| i.to_string()).collect();
    let _ = process_step(&mut full, ProcEvent::Line("x".to_string()), false, 0, "chunker");
    assert_eq!(full.len(), 30);
    assert_eq!(full[0], "1");
    assert_eq!(full[29], "x");
}
