use nwc::version::{chunker_format, is_downgrade_opt, parse_version, version_from_match, Version};

#[test]
fn parses_java_versions() {
    assert_eq!(
        parse_version("Java 1.21.10"),
        Some(Version { major: 1, minor: 21, patch: 10 })
    );
    assert_eq!(
        parse_version("26.2"),
        Some(Version { major: 26, minor: 2, patch: 0 })
    );
    assert_eq!(parse_version("基岩 LevelDB"), None);
}

#[test]
fn compares_versions() {
    assert_eq!(is_downgrade_opt("1.21.10", "Java 1.20.6"), Some(true));
    assert_eq!(is_downgrade_opt("1.16.5", "1.21.4"), Some(false));
    assert_eq!(is_downgrade_opt("1.21.0", "1.21.0"), Some(false));
}

#[test]
fn formats_chunker_targets() {
    assert_eq!(
        chunker_format(Version { major: 1, minor: 21, patch: 10 }),
        "JAVA_1_21_10"
    );
    assert_eq!(
        chunker_format(Version { major: 26, minor: 2, patch: 0 }),
        "JAVA_26_2"
    );
}

#[test]
fn downgrade_is_unknown_without_a_version() {
    assert_eq!(is_downgrade_opt("基岩 LevelDB", "1.20.6"), None);
    assert_eq!(is_downgrade_opt("1.20.6", "latest"), None);
}

#[test]
fn downgrade_laws_on_examples() {
    // irreflexive, asymmetric, transitive
    assert_eq!(is_downgrade_opt("1.20.4", "1.20.4"), Some(false));
    assert_eq!(is_downgrade_opt("26.1", "1.21.11"), Some(true));
    assert_eq!(is_downgrade_opt("1.21.11", "26.1"), Some(false));
    assert_eq!(is_downgrade_opt("26.1", "1.18.2"), Some(true));
}

#[test]
fn version_match_pieces() {
    assert_eq!(version_from_match("1.20"), Some(Version { major: 1, minor: 20, patch: 0 }));
    assert_eq!(version_from_match("1.20.x"), Some(Version { major: 1, minor: 20, patch: 0 }));
    assert_eq!(version_from_match("1"), None);
    assert_eq!(version_from_match("1.99999999999"), None);
    assert_eq!(version_from_match("+1.-2.+3"), Some(Version { major: 1, minor: -2, patch: 3 }));
}

#[test]
fn version_text_drops_zero_patch() {
    assert_eq!(Version { major: 1, minor: 21, patch: 10 }.to_text(), "1.21.10");
    assert_eq!(Version { major: 1, minor: 21, patch: 0 }.to_text(), "1.21");
    assert_eq!(nwc::version::je2be_intermediate().to_text(), "1.21.10");
}
