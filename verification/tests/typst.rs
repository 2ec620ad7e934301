use somadoc::typst::{
    compose_document_with_vars, escape_string, escape_vars_string, extract_logo, finish_render,
    inject_block_markers_markdown, inject_table_bottom_rules, live_preview_source,
    locate_anchor_ranges, missing_template, normalize_line_blocks, normalize_thematic_breaks,
    raw_frontmatter_map, replace_block_markers_with_rect, split_into_blocks, template_rel_typ,
    typst_dict_key, SlugResolution, TaskOutcome, TypstEngine,
};
use somadoc::types::{RenderError, RenderRequest};

/// A minimal CJK-printable Typst template (defines the article contract).
fn zh_template() -> String {
    r#"#let article(title: none, authors: (), lang: "zh", toc: false, body) = {
  set text(font: ("IBM Plex Sans SC", "Noto Sans CJK SC"), size: 12pt, lang: lang)
  set page(paper: "a4", margin: 24mm)
  set par(justify: true)
  if title != none {
    text(size: 18pt, weight: "bold", title)
  }
  body
}
"#
    .to_string()
}

fn request(template_id: Option<&str>) -> RenderRequest {
    RenderRequest {
        template_id: template_id.map(|s| s.to_string()),
        content: Some("# Heading".to_string()),
        ir: None,
        variables: Vec::new(),
        toc: None,
        session_id: None,
        images: Vec::new(),
    }
}

#[test]
fn split_into_blocks_records_start_lines() {
    let body = "# 甲\n\n正文。\n\n- 列表\n- 项\n";
    let blocks = split_into_blocks(body);
    assert_eq!(blocks.len(), 3);
    assert_eq!(blocks[0].0, 1); // the heading block
    assert_eq!(blocks[1].0, 3); // the paragraph block
    assert_eq!(blocks[2].0, 5); // the list block
    assert_eq!(blocks[2].1, "- 列表\n- 项");
}

#[test]
fn injects_table_bottom_rules_for_booktabs() {
    let body = "前文。\n\n#table(\n  columns: 2,\n  table.header[列一][列二],\n  [甲], [乙],\n)\n\n后文。\n";
    let out = inject_table_bottom_rules(body);
    assert!(
        out.contains("table.hline"),
        "should inject bottom rule: {out}"
    );
    assert!(out.contains("table.hline(stroke: 1pt + luma(60))"));
    let after_hline = out
        .split("table.hline(stroke: 1pt + luma(60))")
        .nth(1)
        .unwrap_or("");
    let after = after_hline.trim_start_matches(',').trim_start();
    assert!(
        after.starts_with(')'),
        "hline should be followed by the table's closing paren: {out}"
    );
}

#[test]
fn normalize_line_blocks_converts_verse_to_hard_breaks() {
    let md = "| 灯影落进纸间的湖\n| 风替夜合上最后一页\n|\n| 新茶浮起半枚月光\n";
    let out = normalize_line_blocks(md);
    let expected = "灯影落进纸间的湖\\\n风替夜合上最后一页\n\n新茶浮起半枚月光\n";
    assert_eq!(
        out, expected,
        "line block conversion error, actual output: {out:?}"
    );
    let table = "| 列一 | 列二 |\n| --- | --- |\n| 甲 | 乙 |\n";
    assert_eq!(normalize_line_blocks(table), table);
    let normal = "# 标题\n\n正文段落。\n";
    assert_eq!(normalize_line_blocks(normal), normal);
}

#[test]
fn raw_frontmatter_map_keeps_custom_vars() {
    let md = "---\nsender-name: 江疏桐\nsender-org: 吴越丝绸研究所\nrecipient-title: 运营总监\ntitle: 关于函\nauthor: 林清远\nlang: zh\ntoc: false\ndate: 2026年8月10日\n---\n\n正文\n";
    let map = raw_frontmatter_map(md);
    assert_eq!(map.len(), 5, "should keep 5 variables: {map:?}");
    assert!(map.contains(&("sender-name".to_string(), "江疏桐".to_string())));
    assert!(map.contains(&("sender-org".to_string(), "吴越丝绸研究所".to_string())));
    assert!(map.contains(&("recipient-title".to_string(), "运营总监".to_string())));
    assert!(map.contains(&("author".to_string(), "林清远".to_string())));
    assert!(map.contains(&("date".to_string(), "2026年8月10日".to_string())));
    assert!(!map
        .iter()
        .any(|(k, _)| k == "title" || k == "lang" || k == "toc"));
    assert!(raw_frontmatter_map("# 没有 frontmatter\n").is_empty());
}

#[test]
fn no_placeholder_leaks_into_the_composed_source() {
    let markdown = "行内 $e^{-x^2}\\,dx$ 与块级：\n\n$$\n\\int_0^\\infty e^{-x^2}\\,dx = \\frac{\\sqrt{\\pi}}{2}\n$$\n\n\\textcolor{#1E88E5}{蓝}。\n";
    let (source, _logo, _images, _anchors) =
        TypstEngine::build_typst_source(markdown, &zh_template(), &[]).expect("compose");
    assert!(
        !source.contains("SOMADOC"),
        "no placeholder may survive into the generated source:\n{source}"
    );
}

#[test]
fn compose_document_with_vars_injects_dict_and_escapes() {
    let tpl = "#let article(title: none, authors: (), lang: \"zh\", toc: false, body) = { body }";
    let vars = vec![
        ("sender-name".to_string(), "江\"疏\"桐".to_string()),
        ("sender-org".to_string(), "研究所".to_string()),
    ];
    let src = compose_document_with_vars(tpl, &vars, None, &[], "zh", false, "正文内容");
    assert!(
        src.contains("_somadoc_vars = (sender_name: \"江\\\"疏\\\"桐\", sender_org: \"研究所\")"),
        "vars dict error: {src}"
    );
    assert!(src.contains(tpl));
    assert!(src.contains("#article(title: none, authors: (), lang: \"zh\", toc: false)["));
    assert!(src.contains("正文内容"));
    let empty = compose_document_with_vars(tpl, &[], None, &[], "zh", false, "b");
    assert!(
        empty.starts_with("#let _somadoc_vars = (:"),
        "should inject an empty dict vars: {empty}"
    );
}

#[test]
fn compose_document_exact_layout() {
    let authors = vec!["A \"x\"".to_string()];
    let src = compose_document_with_vars("T", &[], Some("Ti"), &authors, "e\nn", true, "B");
    assert_eq!(
        src,
        "#let _somadoc_vars = (:)\n\nT\n\n#article(title: \"Ti\", authors: (\"A \\\"x\\\"\",), lang: \"e n\", toc: true)[\nB\n]\n"
    );
    let two = vec!["A".to_string(), "B".to_string()];
    let src = compose_document_with_vars("T", &[], Some("  "), &two, "en", false, "");
    assert!(src.contains("#article(title: none, authors: (\"A\", \"B\"), lang: \"en\", toc: false)[\n\n]\n"));
}

#[test]
fn compose_drops_keys_that_are_not_identifiers() {
    let vars = vec![
        ("9lives".to_string(), "x".to_string()),
        ("a b".to_string(), "y".to_string()),
        ("ok-key".to_string(), "z".to_string()),
    ];
    let src = compose_document_with_vars("", &vars, None, &[], "en", false, "");
    assert!(src.starts_with("#let _somadoc_vars = (ok_key: \"z\")\n\n"), "{src}");
}

#[test]
fn dict_keys_and_escapes() {
    assert_eq!(typst_dict_key("sender-name"), Some("sender_name".to_string()));
    assert_eq!(typst_dict_key("_x1"), Some("_x1".to_string()));
    assert_eq!(typst_dict_key("1x"), None);
    assert_eq!(typst_dict_key(""), None);
    assert_eq!(typst_dict_key("a\"); #evil"), None);
    assert_eq!(escape_vars_string("a\\b\"c"), "a\\\\b\\\"c");
    assert_eq!(escape_string("a\\b\"c\nd"), "a\\\\b\\\"c d");
}

#[test]
fn extract_logo_decodes_and_flags() {
    let b64 = "iVBORw0KGgoAAAANSUhEUgAAAAEAAAABCAIAAACQd1PeAAAADElEQVR4nGP4z8AAAAMBAQDJ/pLvAAAAAElFTkSuQmCC";
    let vars = vec![
        ("a".to_string(), "1".to_string()),
        ("logo".to_string(), b64.to_string()),
        ("logo_format".to_string(), "png".to_string()),
        ("b".to_string(), "2".to_string()),
    ];
    let (rest, logo) = extract_logo(vars);
    let bytes = logo.expect("logo should decode");
    assert!(bytes.starts_with(b"\x89PNG"));
    assert_eq!(
        rest,
        vec![
            ("a".to_string(), "1".to_string()),
            ("b".to_string(), "2".to_string()),
            ("logo".to_string(), "1".to_string()),
        ]
    );
}

#[test]
fn extract_logo_without_valid_data_adds_no_flag() {
    let vars = vec![("logo".to_string(), "***".to_string()), ("c".to_string(), "3".to_string())];
    let (rest, logo) = extract_logo(vars);
    assert!(logo.is_none());
    assert_eq!(rest, vec![("c".to_string(), "3".to_string())]);
    let (rest, logo) = extract_logo(Vec::new());
    assert!(logo.is_none() && rest.is_empty());
}

#[test]
fn frontmatter_needs_both_fences_and_a_mapping() {
    assert!(raw_frontmatter_map("---\na: 1\n").is_empty());
    assert!(raw_frontmatter_map("---\n- a\n- b\n---\n").is_empty());
    let map = raw_frontmatter_map("\u{feff}---\r\nn: 12\r\nb: true\r\nl: [1, 2]\r\n---\r\nbody");
    assert_eq!(
        map,
        vec![("n".to_string(), "12".to_string()), ("b".to_string(), "true".to_string())]
    );
}

#[test]
fn thematic_breaks_become_half_width() {
    assert_eq!(
        normalize_thematic_breaks("a\n#line(length: 100%, stroke: 0.5pt)\nb"),
        "a\n#line(length: 50%, stroke: 0.5pt)\nb"
    );
}

#[test]
fn escaped_or_unclosed_tables_are_left_alone() {
    assert_eq!(inject_table_bottom_rules("\\#table(x)"), "\\#table(x)");
    assert_eq!(inject_table_bottom_rules("#table(a, (b)"), "#table(a, (b)");
    assert_eq!(
        inject_table_bottom_rules("#table(a, (b))"),
        "#table(a, (b)\n  table.hline(stroke: 1pt + luma(60)),)"
    );
}

#[test]
fn block_markers_and_anchors_round_trip() {
    let blocks = split_into_blocks("A\r\n\n\nB\nC\n");
    assert_eq!(blocks, vec![(1, "A".to_string()), (4, "B\nC".to_string())]);
    let marked = inject_block_markers_markdown(&blocks);
    assert_eq!(marked, "SOMADOCBLOCKANCHOR0\n\nA\n\nSOMADOCBLOCKANCHOR1\n\nB\nC\n\n");
    let (body, specs) = replace_block_markers_with_rect("x SOMADOCBLOCKANCHOR0 y SOMADOCBLOCKANCHOR1", &blocks);
    assert_eq!(
        body,
        "x #rect(width: 1pt, height: 1pt, fill: luma(100%)) <somadoc-anchor-0> y #rect(width: 1pt, height: 1pt, fill: luma(100%)) <somadoc-anchor-1>"
    );
    assert_eq!(specs, vec![(1, 0), (4, 1)]);
    let src = format!("é\n{body}");
    let anchors = locate_anchor_ranges(&src, specs);
    assert_eq!(anchors.len(), 2);
    assert_eq!(anchors[0].line, 1);
    assert_eq!(&src[anchors[0].byte_range.clone()], "#rect(width: 1pt, height: 1pt, fill: luma(100%)) ");
    assert_eq!(anchors[1].line, 4);
}

#[test]
fn a_lost_marker_stops_the_replacement() {
    let blocks = vec![(1, "a".to_string()), (3, "b".to_string())];
    let (body, specs) = replace_block_markers_with_rect("SOMADOCBLOCKANCHOR1 only", &blocks);
    assert_eq!(body, "SOMADOCBLOCKANCHOR1 only");
    assert!(specs.is_empty());
}

#[test]
fn composed_source_has_ordered_anchors_and_variables() {
    let md = "---\ntitle: T\nsender-name: X\n---\n\n# One\n\nPara one.\n\n## Two\n\nPara two.\n";
    let (src, logo, images, anchors) =
        TypstEngine::build_typst_source(md, &zh_template(), &[]).expect("compose");
    assert!(logo.is_none());
    assert!(images.is_empty());
    assert!(src.starts_with("#let _somadoc_vars = (sender_name: \"X\")\n\n"), "{src}");
    assert!(src.contains(&zh_template()));
    assert_eq!(anchors.len(), 4, "{src}");
    let lines: Vec<usize> = anchors.iter().map(|a| a.line).collect();
    assert_eq!(lines, vec![1, 3, 5, 7]);
    for a in &anchors {
        assert!(src[a.byte_range.clone()].starts_with("#rect("));
    }
}

#[test]
fn live_preview_needs_a_template() {
    match live_preview_source("# x", None, &[]) {
        Err(RenderError::Engine(m)) => {
            assert_eq!(m, "live preview only supports typst templates with template.typ")
        }
        other => panic!("unexpected: {other:?}"),
    }
    assert!(live_preview_source("# x", Some("tpl"), &[]).is_ok());
}

#[test]
fn resolve_slug_outcomes() {
    let engine = TypstEngine::new("templates".to_string());
    assert!(matches!(engine.resolve_slug(&request(None)), Ok(SlugResolution::Default)));
    assert!(matches!(engine.resolve_slug(&request(Some(""))), Ok(SlugResolution::Default)));
    match engine.resolve_slug(&request(Some("soma"))) {
        Ok(SlugResolution::Template { slug, entry }) => {
            assert_eq!(slug, "soma");
            assert_eq!(entry, "templates/soma/template.typ");
        }
        other => panic!("unexpected: {other:?}"),
    }
    match engine.resolve_slug(&request(Some("../soma"))) {
        Err(RenderError::Engine(m)) => assert_eq!(m, "invalid template_id: \"../soma\""),
        other => panic!("unexpected: {other:?}"),
    }
    match missing_template("soma", "templates/soma/template.typ") {
        RenderError::Engine(m) => {
            assert_eq!(m, "template `soma` not found (expected templates/soma/template.typ)")
        }
        other => panic!("unexpected: {other:?}"),
    }
    assert_eq!(template_rel_typ("x"), "x/template.typ");
    assert_eq!(engine.template_path("x"), "templates/x/template.typ");
}

#[test]
fn engine_settings() {
    let e = TypstEngine::new("dir".to_string());
    assert_eq!(e.templates_dir(), "dir");
    assert_eq!(e.timeout_ms(), 60_000);
    let e = e.with_timeout(5);
    assert_eq!(e.timeout_ms(), 5);
    assert_eq!(e.templates_dir(), "dir");
}

#[test]
fn finish_render_maps_task_outcomes() {
    let ok = finish_render("soma", TaskOutcome::Finished(Ok(vec![1, 2])), false, 7).expect("ok");
    assert_eq!(ok.bytes, vec![1, 2]);
    assert_eq!(ok.duration_ms, 7);
    assert_eq!(ok.engine, "typst");
    let ok = finish_render("soma", TaskOutcome::Finished(Ok(vec![])), true, 1).expect("ok");
    assert_eq!(ok.engine, "typst-svg");
    match finish_render("soma", TaskOutcome::Failed("boom".to_string()), false, 0) {
        Err(RenderError::Engine(m)) => assert_eq!(m, "typesetting task failed: boom"),
        other => panic!("unexpected: {other:?}"),
    }
    match finish_render("soma", TaskOutcome::Failed("boom".to_string()), true, 0) {
        Err(RenderError::Engine(m)) => assert_eq!(m, "svg typesetting task failed: boom"),
        other => panic!("unexpected: {other:?}"),
    }
    match finish_render("soma", TaskOutcome::TimedOut, false, 0) {
        Err(RenderError::Timeout(m)) => assert_eq!(m, "soma typst typesetting timed out"),
        other => panic!("unexpected: {other:?}"),
    }
    match finish_render("soma", TaskOutcome::TimedOut, true, 0) {
        Err(RenderError::Timeout(m)) => assert_eq!(m, "soma typst svg typesetting timed out"),
        other => panic!("unexpected: {other:?}"),
    }
    match finish_render("s", TaskOutcome::Finished(Err(RenderError::Engine("e".to_string()))), true, 0) {
        Err(RenderError::Engine(m)) => assert_eq!(m, "e"),
        other => panic!("unexpected: {other:?}"),
    }
}

#[test]
fn keywords_are_no_dictionary_keys() {
    assert_eq!(typst_dict_key("let"), None);
    assert_eq!(typst_dict_key("none"), None);
    assert_eq!(typst_dict_key("_"), None);
    assert_eq!(typst_dict_key("in"), None);
    assert_eq!(typst_dict_key("letter"), Some("letter".to_string()));
    let vars = vec![("show".to_string(), "x".to_string()), ("shown".to_string(), "y".to_string())];
    let src = compose_document_with_vars("", &vars, None, &[], "en", false, "");
    assert!(src.starts_with("#let _somadoc_vars = (shown: \"y\")\n\n"), "{src}");
}

#[test]
fn line_blocks_with_inline_separators_stay() {
    assert_eq!(normalize_line_blocks("| a | b\n| c | d"), "| a | b\n| c | d");
    assert_eq!(normalize_line_blocks("| a\n| b"), "a\\\nb");
}

#[test]
fn frontmatter_scalars_become_text() {
    let map = raw_frontmatter_map("---\nf: false\nn: ~\nx: 1.5\ns: hi\n---\n");
    assert_eq!(
        map,
        vec![
            ("f".to_string(), "false".to_string()),
            ("x".to_string(), "1.5".to_string()),
            ("s".to_string(), "hi".to_string()),
        ]
    );
}
