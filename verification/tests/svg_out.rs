use somadoc::svg_out::{marker_line, serve_file, AnchorSpec, ServedFile, SessionRegistry, TypstError};

#[test]
fn typst_error_message_joins_lines() {
    let e = TypstError(vec!["a".to_string(), "b".to_string()]);
    assert_eq!(e.message(), "a\nb");
    assert_eq!(TypstError(vec![]).message(), "");
}

#[test]
fn registry_creates_reuses_and_evicts_least_recent() {
    let mut reg = SessionRegistry::new();
    let t = reg.touch("s0");
    assert!(t.created);
    assert!(t.evicted.is_none());
    let t = reg.touch("s0");
    assert!(!t.created);
    for i in 1..64 {
        let t = reg.touch(&format!("s{i}"));
        assert!(t.created);
        assert!(t.evicted.is_none());
    }
    // s0 was used before s1..s63 except that s1 is now the oldest after s0 is touched again
    reg.touch("s0");
    let t = reg.touch("s64");
    assert!(t.created);
    assert_eq!(t.evicted, Some("s1".to_string()));
    let t = reg.touch("s1");
    assert!(t.created);
    assert_eq!(t.evicted, Some("s2".to_string()));
}

#[test]
fn world_serves_only_the_logo_and_supplied_images() {
    let paths = vec![
        "/somadoc-img/a".to_string(),
        "/somadoc-img/b".to_string(),
        "/somadoc-img/a".to_string(),
    ];
    assert!(matches!(serve_file(true, true, "/somadoc-logo", &paths), ServedFile::Logo));
    assert!(matches!(serve_file(true, false, "/somadoc-logo", &paths), ServedFile::NotFound));
    assert!(matches!(serve_file(false, true, "/somadoc-img/a", &paths), ServedFile::Image(2)));
    assert!(matches!(serve_file(false, false, "/somadoc-img/b", &paths), ServedFile::Image(1)));
    assert!(matches!(serve_file(false, true, "/etc/passwd", &paths), ServedFile::NotFound));
    assert!(matches!(serve_file(false, true, "/somadoc-img/c", &Vec::new()), ServedFile::NotFound));
}

#[test]
fn marker_line_takes_the_first_spec_holding_the_range() {
    let specs = vec![
        AnchorSpec { line: 1, byte_range: 10..20 },
        AnchorSpec { line: 5, byte_range: 15..40 },
    ];
    assert_eq!(marker_line(12, 18, &specs), Some(1));
    assert_eq!(marker_line(16, 30, &specs), Some(5));
    assert_eq!(marker_line(5, 12, &specs), None);
    assert_eq!(marker_line(0, 0, &[]), None);
}

#[test]
fn a_session_survives_63_other_ids() {
    let mut reg = SessionRegistry::new();
    reg.touch("keep");
    for i in 0..63 {
        assert!(reg.touch(&format!("o{i}")).evicted.is_none());
    }
    // 63 other ids used since: "keep" is still there
    assert!(!reg.touch("keep").created);
    for i in 0..63 {
        assert_eq!(reg.touch(&format!("p{i}")).evicted, Some(format!("o{i}")));
    }
    // a 64th other id pushes out the least recently used: "keep"
    assert_eq!(reg.touch("p63").evicted, Some("keep".to_string()));
}
