use somadoc::common::{build_markdown, merge_variables, sanitize_line_breaks, valid_slug};
use somadoc::ir::{BlockNode, InlineNode};
use somadoc::types::{RenderError, RenderRequest};

fn vars() -> Vec<(String, String)> {
    vec![("mainfont".to_string(), "Source Serif 4".to_string())]
}

fn request() -> RenderRequest {
    RenderRequest {
        template_id: None,
        content: None,
        ir: None,
        variables: Vec::new(),
        toc: None,
        session_id: None,
        images: Vec::new(),
    }
}

#[test]
fn merge_into_existing_frontmatter() {
    let c = "---\ntitle: Example\n---\n\nBody.\n";
    let out = merge_variables(c, &vars());
    assert!(
        out.contains("mainfont: \"Source Serif 4\""),
        "should inject mainfont: {out}"
    );
    assert!(out.contains("title: Example"));
    assert!(out.trim_start().starts_with("---"));
}

#[test]
fn merge_generates_frontmatter_when_none() {
    let c = "# Title\n\nBody.\n";
    let out = merge_variables(c, &vars());
    assert!(
        out.trim_start().starts_with("---"),
        "should generate frontmatter: {out}"
    );
    assert!(out.contains("mainfont: \"Source Serif 4\""));
}

#[test]
fn empty_variables_unchanged() {
    let c = "# Title\n";
    assert_eq!(merge_variables(c, &Vec::new()), c);
}

#[test]
fn sanitize_strips_latex_line_break_from_line_block() {
    let c = "| one\\\\\n| two\n| three\\\\   \n";
    let out = sanitize_line_breaks(c);
    assert_eq!(out, "| one\n| two\n| three\n");
}

#[test]
fn merge_puts_injected_keys_before_the_content_keys() {
    let c = "---\ntitle: Example\n---\n\nBody.\n";
    let out = merge_variables(c, &vars());
    assert_eq!(out, "---\nmainfont: \"Source Serif 4\"\ntitle: Example\n---\n\nBody.");
}

#[test]
fn merge_wraps_content_without_frontmatter_exactly() {
    let out = merge_variables("# Title\n", &vars());
    assert_eq!(out, "---\nmainfont: \"Source Serif 4\"\n---\n\n# Title\n");
}

#[test]
fn merge_quotes_values_like_debug() {
    let v = vec![("k".to_string(), "a \"b\"\n".to_string())];
    let out = merge_variables("x", &v);
    assert_eq!(out, "---\nk: \"a \\\"b\\\"\\n\"\n---\n\nx");
}

#[test]
fn sanitize_keeps_other_lines_and_missing_final_newline() {
    assert_eq!(sanitize_line_breaks("a\\\\\n  | b\\\\"), "a\\\\\n  | b");
    assert_eq!(sanitize_line_breaks(""), "");
}

#[test]
fn valid_slug_accepts_and_rejects() {
    assert!(valid_slug("soma"));
    assert!(valid_slug("a_b-c9"));
    assert!(!valid_slug(""));
    assert!(!valid_slug("-soma"));
    assert!(!valid_slug("soma-"));
    assert!(!valid_slug("../soma"));
    assert!(!valid_slug("a/b"));
    assert!(!valid_slug("a.b"));
}

#[test]
fn build_markdown_from_content_merges_variables() {
    let mut req = request();
    req.content = Some("# T\n".to_string());
    req.variables = vars();
    let md = build_markdown(&req).expect("content");
    assert_eq!(md, "---\nmainfont: \"Source Serif 4\"\n---\n\n# T\n");
}

#[test]
fn build_markdown_from_ir_adds_toc_frontmatter() {
    let mut req = request();
    req.ir = Some(Ok(BlockNode::Document {
        children: vec![BlockNode::Paragraph {
            children: vec![InlineNode::Text { value: "Hi".to_string() }],
        }],
    }));
    req.toc = Some("true".to_string());
    let md = build_markdown(&req).expect("ir");
    assert_eq!(md, "---\ntoc: true\n---\n\nHi");
}

#[test]
fn build_markdown_reports_missing_input_and_bad_ir() {
    let req = request();
    match build_markdown(&req) {
        Err(RenderError::Engine(m)) => assert_eq!(m, "request missing `content` or `ir`"),
        other => panic!("unexpected: {other:?}"),
    }
    let mut bad = request();
    bad.ir = Some(Err("expected value".to_string()));
    match build_markdown(&bad) {
        Err(RenderError::Engine(m)) => assert_eq!(m, "failed to parse IR: expected value"),
        other => panic!("unexpected: {other:?}"),
    }
}

#[test]
fn build_markdown_from_content_adds_toc() {
    let mut req = request();
    req.content = Some("# T\n".to_string());
    req.toc = Some("true".to_string());
    let md = build_markdown(&req).expect("content");
    assert_eq!(md, "---\ntoc: true\n---\n\n# T\n");
    req.content = Some("---\ntitle: X\n---\nBody".to_string());
    req.variables = vars();
    let md = build_markdown(&req).expect("content");
    assert_eq!(md, "---\nmainfont: \"Source Serif 4\"\ntoc: true\ntitle: X\n---\nBody");
}
