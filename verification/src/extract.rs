//! Plain-text extraction: the text and code values of every node in a document.

use vstd::prelude::*;
use crate::ir::{BlockNode, InlineNode};

verus! {

/// The text of an inline node: text and code values, in document order.
pub open spec fn inline_text(n: InlineNode) -> Seq<char>
    decreases n,
{
    match n {
        InlineNode::Text { value } => value@,
        InlineNode::Code { value } => value@,
        InlineNode::Strong { children } => inlines_text(children@),
        InlineNode::Emphasis { children } => inlines_text(children@),
        InlineNode::Strikethrough { children } => inlines_text(children@),
        InlineNode::Link { children, .. } => inlines_text(children@),
        _ => Seq::<char>::empty(),
    }
}

pub open spec fn inlines_text(ns: Seq<InlineNode>) -> Seq<char>
    decreases ns,
{
    if ns.len() == 0 {
        Seq::<char>::empty()
    } else {
        inlines_text(ns.drop_last()) + inline_text(ns.last())
    }
}

/// The text of a block nested in a document (a nested `document` gives none).
pub open spec fn block_text(b: BlockNode) -> Seq<char>
    decreases b,
{
    match b {
        BlockNode::Paragraph { children } => inlines_text(children@),
        BlockNode::Heading { children, .. } => inlines_text(children@),
        BlockNode::TableCell { children } => inlines_text(children@),
        BlockNode::BlockQuote { children } => blocks_text(children@),
        BlockNode::List { children, .. } => blocks_text(children@),
        BlockNode::ListItem { children } => blocks_text(children@),
        BlockNode::Table { children, .. } => blocks_text(children@),
        BlockNode::TableRow { children, .. } => blocks_text(children@),
        BlockNode::CodeBlock { value, .. } => value@,
        BlockNode::RawBlock { value, .. } => value@,
        _ => Seq::<char>::empty(),
    }
}

pub open spec fn blocks_text(bs: Seq<BlockNode>) -> Seq<char>
    decreases bs,
{
    if bs.len() == 0 {
        Seq::<char>::empty()
    } else {
        blocks_text(bs.drop_last()) + block_text(bs.last())
    }
}

/// The text of a document: the text of each of its children, or of the node
/// itself when it is not a document.
pub open spec fn document_text(ir: BlockNode) -> Seq<char> {
    match ir {
        BlockNode::Document { children } => blocks_text(children@),
        other => block_text(other),
    }
}

fn collect_inlines(ns: &Vec<InlineNode>, out: &mut String)
    ensures
        final(out)@ == old(out)@ + inlines_text(ns@),
    decreases ns@,
{
    let mut k: usize = 0;
    while k < ns.len()
        invariant
            0 <= k <= ns@.len(),
            out@ == old(out)@ + inlines_text(ns@.take(k as int)),
        decreases ns.len() - k,
    {
        assert(ns@.take(k + 1).drop_last() =~= ns@.take(k as int));
        collect_inline(&ns[k], out);
        k += 1;
    }
    assert(ns@.take(k as int) =~= ns@);
}

fn collect_inline(node: &InlineNode, out: &mut String)
    ensures
        final(out)@ == old(out)@ + inline_text(*node),
    decreases node,
{
    match node {
        InlineNode::Text { value } => out.append(value.as_str()),
        InlineNode::Code { value } => out.append(value.as_str()),
        InlineNode::Strong { children } => collect_inlines(children, out),
        InlineNode::Emphasis { children } => collect_inlines(children, out),
        InlineNode::Strikethrough { children } => collect_inlines(children, out),
        InlineNode::Link { children, .. } => collect_inlines(children, out),
        _ => {
            assert(out@ =~= old(out)@ + inline_text(*node));
        },
    }
}

fn collect_blocks(bs: &Vec<BlockNode>, out: &mut String)
    ensures
        final(out)@ == old(out)@ + blocks_text(bs@),
    decreases bs@,
{
    let mut k: usize = 0;
    while k < bs.len()
        invariant
            0 <= k <= bs@.len(),
            out@ == old(out)@ + blocks_text(bs@.take(k as int)),
        decreases bs.len() - k,
    {
        assert(bs@.take(k + 1).drop_last() =~= bs@.take(k as int));
        collect_block(&bs[k], out);
        k += 1;
    }
    assert(bs@.take(k as int) =~= bs@);
}

fn collect_block(node: &BlockNode, out: &mut String)
    ensures
        final(out)@ == old(out)@ + block_text(*node),
    decreases node,
{
    match node {
        BlockNode::Paragraph { children } => collect_inlines(children, out),
        BlockNode::Heading { children, .. } => collect_inlines(children, out),
        BlockNode::TableCell { children } => collect_inlines(children, out),
        BlockNode::BlockQuote { children } => collect_blocks(children, out),
        BlockNode::List { children, .. } => collect_blocks(children, out),
        BlockNode::ListItem { children } => collect_blocks(children, out),
        BlockNode::Table { children, .. } => collect_blocks(children, out),
        BlockNode::TableRow { children, .. } => collect_blocks(children, out),
        BlockNode::CodeBlock { value, .. } => out.append(value.as_str()),
        BlockNode::RawBlock { value, .. } => out.append(value.as_str()),
        _ => {
            assert(out@ =~= old(out)@ + block_text(*node));
        },
    }
}

/// Collect the text and code values of every node of `ir`, in document order.
pub fn extract_text(ir: &BlockNode) -> (r: String)
    ensures
        r@ == document_text(*ir),
{
    let mut out = String::new();
    match ir {
        BlockNode::Document { children } => collect_blocks(children, &mut out),
        other => collect_block(other, &mut out),
    }
    out
}


/// A single block extracts to the same text whether it is the root or the one
/// child of a document: a root that is not a document is read like the
/// document's children.
pub proof fn lemma_single_block_text(b: BlockNode, doc: BlockNode)
    requires
        !(b is Document),
        doc matches BlockNode::Document { children } && children@ == seq![b],
    ensures
        document_text(b) == document_text(doc),
        document_text(b) == block_text(b),
{
    if let BlockNode::Document { children } = doc {
        assert(children@.drop_last() =~= Seq::<BlockNode>::empty());
        assert(children@.last() == b);
        assert(blocks_text(children@) == blocks_text(children@.drop_last()) + block_text(b));
        assert(blocks_text(children@) =~= block_text(b));
    }
    assert(document_text(b) == block_text(b)) by {
        match b {
            BlockNode::Document { .. } => {},
            _ => {},
        }
    }
}


/// A paragraph of two text runs extracts to the first run's value followed by
/// the second's.
pub proof fn lemma_paragraph_text(p: BlockNode, a: InlineNode, b: InlineNode, x: String, y: String)
    requires
        p matches BlockNode::Paragraph { children } && children@ == seq![a, b],
        a == (InlineNode::Text { value: x }),
        b == (InlineNode::Text { value: y }),
    ensures
        document_text(p) == x@ + y@,
{
    if let BlockNode::Paragraph { children } = p {
        let cs = children@;
        assert(cs.drop_last() =~= seq![a]);
        assert(seq![a].drop_last() =~= Seq::<InlineNode>::empty());
        assert(seq![a].last() == a);
        assert(inlines_text(seq![a]) == inlines_text(Seq::<InlineNode>::empty()) + inline_text(a));
        assert(inlines_text(seq![a]) =~= inline_text(a));
        assert(cs.last() == b);
        assert(inlines_text(cs) =~= inline_text(a) + inline_text(b));
    }
}

} // verus!
