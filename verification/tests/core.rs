use somadoc::error::CoreError;
use somadoc::extract::extract_text;
use somadoc::ir::{BlockNode, InlineNode};
use somadoc::to_markdown::{ir_numbers_fit, ir_to_markdown};

fn text(s: &str) -> InlineNode {
    InlineNode::Text { value: s.to_string() }
}

fn para(children: Vec<InlineNode>) -> BlockNode {
    BlockNode::Paragraph { children }
}

fn cell(s: &str) -> BlockNode {
    BlockNode::TableCell { children: vec![text(s)] }
}

fn sample() -> BlockNode {
    BlockNode::Document {
        children: vec![
            BlockNode::Heading { level: 2, children: vec![text("Title")] },
            para(vec![
                text("a "),
                InlineNode::Strong { children: vec![text("b")] },
                InlineNode::Emphasis { children: vec![text("c")] },
                InlineNode::Code { value: "d".to_string() },
                InlineNode::Link {
                    href: "http://x".to_string(),
                    title: None,
                    children: vec![text("e")],
                },
                InlineNode::Image { src: "i.png".to_string(), alt: Some("f".to_string()), title: None },
                InlineNode::FootnoteRef { identifier: "1".to_string() },
                InlineNode::Strikethrough { children: vec![text("g")] },
            ]),
            BlockNode::BlockQuote { children: vec![para(vec![text("q1")]), para(vec![text("q2")])] },
            BlockNode::CodeBlock { lang: Some("rs".to_string()), value: "fn x()".to_string() },
            BlockNode::List {
                ordered: true,
                start: Some(3),
                children: vec![
                    BlockNode::ListItem { children: vec![para(vec![text("x")]), para(vec![text("y")])] },
                    BlockNode::ListItem { children: vec![para(vec![text("z")])] },
                ],
            },
            BlockNode::List {
                ordered: false,
                start: None,
                children: vec![BlockNode::ListItem { children: vec![para(vec![text("u")])] }],
            },
            BlockNode::Table {
                columns: serde_json::Value::Null,
                children: vec![
                    BlockNode::TableRow { header: true, children: vec![cell("h1"), cell("h2")] },
                    BlockNode::TableRow { header: false, children: vec![cell("v1"), cell("v2")] },
                ],
            },
            BlockNode::ThematicBreak,
            BlockNode::ImageBlock { src: "p.png".to_string(), alt: None, caption: None },
            BlockNode::RawBlock { format: "typst".to_string(), value: "#raw".to_string() },
        ],
    }
}

#[test]
fn ir_to_markdown_renders_every_block() {
    let md = ir_to_markdown(&sample());
    let expected = [
        "## Title",
        "a **b***c*`d`[e](http://x)![f](i.png)[^1]~~g~~",
        "> q1\n> q2",
        "```rs\nfn x()\n```",
        "3. x y\n4. z",
        "- u",
        "| h1 | h2 |\n| --- | --- |\n| v1 | v2 |",
        "---",
        "![](p.png)",
        "#raw",
    ]
    .join("\n\n");
    assert_eq!(md, expected);
}

#[test]
fn ir_to_markdown_of_a_single_block_and_empty_table() {
    assert_eq!(ir_to_markdown(&para(vec![text("only")])), "only");
    let t = BlockNode::Table { columns: serde_json::Value::Null, children: vec![] };
    assert_eq!(ir_to_markdown(&t), "");
    let item = BlockNode::ListItem { children: vec![para(vec![text("i")])] };
    assert_eq!(ir_to_markdown(&item), "- i");
    let ordered = BlockNode::List { ordered: true, start: None, children: vec![para(vec![text("p")])] };
    assert_eq!(ir_to_markdown(&ordered), "1. p");
}

#[test]
fn extract_text_collects_text_and_code() {
    assert_eq!(extract_text(&sample()), "Titlea bcdegq1q2fn x()xyzuh1h2v1v2#raw");
}

#[test]
fn core_error_msg_is_other() {
    match CoreError::msg("boom".to_string()) {
        CoreError::Other(m) => assert_eq!(m, "boom"),
        other => panic!("unexpected: {other:?}"),
    }
}

#[test]
fn list_numbers_must_fit_in_u32() {
    let list = |start: Option<u32>, n: usize| BlockNode::List {
        ordered: true,
        start,
        children: (0..n).map(|_| para(vec![text("x")])).collect(),
    };
    assert!(ir_numbers_fit(&list(Some(u32::MAX), 1)));
    assert!(!ir_numbers_fit(&list(Some(u32::MAX), 2)));
    assert!(ir_numbers_fit(&list(None, 3)));
    let quoted = BlockNode::BlockQuote { children: vec![list(Some(u32::MAX - 1), 3)] };
    assert!(!ir_numbers_fit(&quoted));
    let unordered = BlockNode::List {
        ordered: false,
        start: Some(u32::MAX),
        children: vec![para(vec![text("a")]), para(vec![text("b")])],
    };
    assert!(ir_numbers_fit(&unordered));
    assert!(ir_numbers_fit(&sample()));
    assert_eq!(ir_to_markdown(&list(Some(u32::MAX), 1)), "4294967295. x");
}

#[test]
fn table_divider_follows_the_first_rows_cells() {
    let t = BlockNode::Table {
        columns: serde_json::Value::Null,
        children: vec![BlockNode::TableRow {
            header: true,
            children: vec![cell("a"), BlockNode::TableCell { children: vec![] }],
        }],
    };
    assert_eq!(ir_to_markdown(&t), "| a |  |\n| --- | --- |");
}
