//! The document model (IR): inline and block nodes.

use vstd::prelude::*;

verus! {

#[verifier::external_type_specification]
#[verifier::external_body]
pub struct ExJsonValue(serde_json::Value);

/// Inline node.
#[derive(Debug)]
pub enum InlineNode {
    Text { value: String },
    Strong { children: Vec<InlineNode> },
    Emphasis { children: Vec<InlineNode> },
    Code { value: String },
    Link { href: String, title: Option<String>, children: Vec<InlineNode> },
    Image { src: String, alt: Option<String>, title: Option<String> },
    FootnoteRef { identifier: String },
    Strikethrough { children: Vec<InlineNode> },
}

/// Block node (including `rawBlock`).
#[derive(Debug)]
#[allow(inconsistent_fields)]
pub enum BlockNode {
    Document { children: Vec<BlockNode> },
    Paragraph { children: Vec<InlineNode> },
    Heading { level: u8, children: Vec<InlineNode> },
    BlockQuote { children: Vec<BlockNode> },
    CodeBlock { lang: Option<String>, value: String },
    List { ordered: bool, start: Option<u32>, children: Vec<BlockNode> },
    ListItem { children: Vec<BlockNode> },
    Table { columns: serde_json::Value, children: Vec<BlockNode> },
    TableRow { header: bool, children: Vec<BlockNode> },
    TableCell { children: Vec<InlineNode> },
    ThematicBreak,
    ImageBlock { src: String, alt: Option<String>, caption: Option<String> },
    RawBlock { format: String, value: String },
}

} // verus!
