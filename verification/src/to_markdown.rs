//! IR → Markdown serialization.

use vstd::prelude::*;
use crate::ir::{BlockNode, InlineNode};
use crate::text::{
    decimal, is_blank, is_blank_range, join, push_char, push_decimal, push_joined, push_repeat,
    repeat, split_char, split_chars,
};

verus! {

pub open spec fn opt_or_empty(o: Option<String>) -> Seq<char> {
    match o {
        Some(s) => s@,
        None => Seq::<char>::empty(),
    }
}

/// Markdown of an inline node.
pub open spec fn md_inline(n: InlineNode) -> Seq<char>
    decreases n,
{
    match n {
        InlineNode::Text { value } => value@,
        InlineNode::Strong { children } => "**"@ + md_inlines(children@) + "**"@,
        InlineNode::Emphasis { children } => "*"@ + md_inlines(children@) + "*"@,
        InlineNode::Code { value } => "`"@ + value@ + "`"@,
        InlineNode::Link { href, children, .. } => "["@ + md_inlines(children@) + "]("@ + href@
            + ")"@,
        InlineNode::Image { src, alt, .. } => "!["@ + opt_or_empty(alt) + "]("@ + src@ + ")"@,
        InlineNode::FootnoteRef { identifier } => "[^"@ + identifier@ + "]"@,
        InlineNode::Strikethrough { children } => "~~"@ + md_inlines(children@) + "~~"@,
    }
}

/// Markdown of inline nodes, one after another.
pub open spec fn md_inlines(ns: Seq<InlineNode>) -> Seq<char>
    decreases ns,
{
    if ns.len() == 0 {
        Seq::<char>::empty()
    } else {
        md_inlines(ns.drop_last()) + md_inline(ns.last())
    }
}

/// Markdown of a block.
pub open spec fn md_block(b: BlockNode) -> Seq<char>
    decreases b,
{
    match b {
        BlockNode::Heading { level, children } => repeat("#"@, level as nat) + " "@ + md_inlines(
            children@,
        ),
        BlockNode::Paragraph { children } => md_inlines(children@),
        BlockNode::BlockQuote { children } => md_quote(children@),
        BlockNode::CodeBlock { lang, value } => "```"@ + opt_or_empty(lang) + "\n"@ + value@
            + "\n```"@,
        BlockNode::List { ordered, start, children } => md_list_items(children@, ordered, start),
        BlockNode::ListItem { children } => "- "@ + md_blocks_sep(children@, " "@),
        BlockNode::Table { children, .. } => md_table(children@),
        BlockNode::ThematicBreak => "---"@,
        BlockNode::ImageBlock { src, alt, .. } => "!["@ + opt_or_empty(alt) + "]("@ + src@
            + ")"@,
        BlockNode::RawBlock { value, .. } => value@,
        _ => Seq::<char>::empty(),
    }
}

/// The Markdown of each block, joined with `sep`.
pub open spec fn md_blocks_sep(bs: Seq<BlockNode>, sep: Seq<char>) -> Seq<char>
    decreases bs,
{
    if bs.len() == 0 {
        Seq::<char>::empty()
    } else if bs.len() == 1 {
        md_block(bs[0])
    } else {
        md_blocks_sep(bs.drop_last(), sep) + sep + md_block(bs.last())
    }
}

/// Block quote: `> ` before the Markdown of each child, one per line.
pub open spec fn md_quote(bs: Seq<BlockNode>) -> Seq<char>
    decreases bs,
{
    if bs.len() == 0 {
        Seq::<char>::empty()
    } else if bs.len() == 1 {
        "> "@ + md_block(bs[0])
    } else {
        md_quote(bs.drop_last()) + "\n"@ + ("> "@ + md_block(bs.last()))
    }
}

/// Marker of the `i`-th list entry.
pub open spec fn list_marker(i: nat, ordered: bool, start: Option<u32>) -> Seq<char> {
    if ordered {
        let num = match start {
            Some(s) => s + i,
            None => i + 1int,
        };
        decimal(num as nat) + ". "@
    } else {
        "- "@
    }
}

/// Body of a list entry: a list item's children joined with spaces, or the
/// entry's own Markdown.
pub open spec fn md_item_body(b: BlockNode) -> Seq<char> {
    match b {
        BlockNode::ListItem { children } => md_blocks_sep(children@, " "@),
        other => md_block(other),
    }
}

/// List entries, one per line.
pub open spec fn md_list_items(bs: Seq<BlockNode>, ordered: bool, start: Option<u32>) -> Seq<char>
    decreases bs,
{
    if bs.len() == 0 {
        Seq::<char>::empty()
    } else if bs.len() == 1 {
        list_marker(0, ordered, start) + match bs[0] {
            BlockNode::ListItem { children } => md_blocks_sep(children@, " "@),
            other => md_block(other),
        }
    } else {
        md_list_items(bs.drop_last(), ordered, start) + "\n"@ + (list_marker(
            (bs.len() - 1) as nat,
            ordered,
            start,
        ) + match bs.last() {
            BlockNode::ListItem { children } => md_blocks_sep(children@, " "@),
            other => md_block(other),
        })
    }
}

/// The Markdown of the table cells among `cs`.
pub open spec fn row_cells(cs: Seq<BlockNode>) -> Seq<Seq<char>>
    decreases cs.len(),
{
    if cs.len() == 0 {
        Seq::<Seq<char>>::empty()
    } else {
        let p = row_cells(cs.drop_last());
        match cs.last() {
            BlockNode::TableCell { children } => p.push(md_inlines(children@)),
            _ => p,
        }
    }
}

/// `| a | b |` lines of the table rows with at least one cell.
pub open spec fn table_lines(rows: Seq<BlockNode>) -> Seq<Seq<char>>
    decreases rows.len(),
{
    if rows.len() == 0 {
        Seq::<Seq<char>>::empty()
    } else {
        let p = table_lines(rows.drop_last());
        match rows.last() {
            BlockNode::TableRow { children, .. } => {
                let cells = row_cells(children@);
                if cells.len() > 0 {
                    p.push("| "@ + join(cells, " | "@) + " |"@)
                } else {
                    p
                }
            },
            _ => p,
        }
    }
}

/// Number of cells of each table row with at least one cell (the rows of
/// `table_lines`).
pub open spec fn table_widths(rows: Seq<BlockNode>) -> Seq<nat>
    decreases rows.len(),
{
    if rows.len() == 0 {
        Seq::<nat>::empty()
    } else {
        let p = table_widths(rows.drop_last());
        match rows.last() {
            BlockNode::TableRow { children, .. } => {
                let n = row_cells(children@).len();
                if n > 0 {
                    p.push(n)
                } else {
                    p
                }
            },
            _ => p,
        }
    }
}

proof fn lemma_table_widths_len(rows: Seq<BlockNode>)
    ensures
        table_widths(rows).len() == table_lines(rows).len(),
    decreases rows.len(),
{
    if rows.len() > 0 {
        lemma_table_widths_len(rows.drop_last());
    }
}

/// Separator row with `n` columns.
pub open spec fn divider(n: nat) -> Seq<char> {
    "| "@ + join(Seq::new(n, |_i: int| "---"@), " | "@) + " |"@
}

/// A table: the first row, a separator row with as many columns as the first
/// row has cells, then the other rows.
pub open spec fn md_table(rows: Seq<BlockNode>) -> Seq<char> {
    let t = table_lines(rows);
    if t.len() == 0 {
        Seq::<char>::empty()
    } else {
        let h = table_widths(rows)[0];
        join(seq![t[0], divider(h)] + t.skip(1), "\n"@)
    }
}

/// The blocks a document renders: its children, or the node itself.
pub open spec fn doc_blocks(ir: BlockNode) -> Seq<BlockNode> {
    match ir {
        BlockNode::Document { children } => children@,
        other => seq![other],
    }
}

/// The numbers of an ordered list of `n` entries from `start` (1 without one)
/// fit in a `u32`.
pub open spec fn numbers_fit(start: Option<u32>, n: nat) -> bool {
    n == 0 || match start {
        Some(s) => s + n - 1 <= u32::MAX,
        None => n <= u32::MAX,
    }
}

/// Every ordered list that the Markdown of `b` numbers has numbers that fit in
/// a `u32`.
pub open spec fn block_fits(b: BlockNode) -> bool
    decreases b,
{
    match b {
        BlockNode::BlockQuote { children } => blocks_fit(children@),
        BlockNode::List { ordered, start, children } => (ordered ==> numbers_fit(
            start,
            children@.len(),
        )) && blocks_fit(children@),
        BlockNode::ListItem { children } => blocks_fit(children@),
        _ => true,
    }
}

pub open spec fn blocks_fit(bs: Seq<BlockNode>) -> bool
    decreases bs,
{
    if bs.len() == 0 {
        true
    } else {
        blocks_fit(bs.drop_last()) && block_fits(bs.last())
    }
}

/// The list numbers of the document's Markdown fit in a `u32`.
pub open spec fn doc_fits(ir: BlockNode) -> bool {
    blocks_fit(doc_blocks(ir))
}

// ---------------------------------------------------------------------------
// Executable
// ---------------------------------------------------------------------------

fn push_opt(out: &mut String, o: &Option<String>)
    ensures
        final(out)@ == old(out)@ + opt_or_empty(*o),
{
    match o {
        Some(s) => out.append(s.as_str()),
        None => {
            assert(out@ =~= old(out)@ + opt_or_empty(*o));
        },
    }
}

fn push_inlines(out: &mut String, ns: &Vec<InlineNode>)
    ensures
        final(out)@ == old(out)@ + md_inlines(ns@),
    decreases ns@,
{
    let mut k: usize = 0;
    while k < ns.len()
        invariant
            0 <= k <= ns@.len(),
            out@ == old(out)@ + md_inlines(ns@.take(k as int)),
        decreases ns.len() - k,
    {
        assert(ns@.take(k + 1).drop_last() =~= ns@.take(k as int));
        push_inline(out, &ns[k]);
        k += 1;
    }
    assert(ns@.take(k as int) =~= ns@);
}

fn push_inline(out: &mut String, n: &InlineNode)
    ensures
        final(out)@ == old(out)@ + md_inline(*n),
    decreases n,
{
    let ghost o = out@;
    match n {
        InlineNode::Text { value } => out.append(value.as_str()),
        InlineNode::Strong { children } => {
            out.append("**");
            push_inlines(out, children);
            out.append("**");
        },
        InlineNode::Emphasis { children } => {
            out.append("*");
            push_inlines(out, children);
            out.append("*");
        },
        InlineNode::Code { value } => {
            out.append("`");
            out.append(value.as_str());
            out.append("`");
        },
        InlineNode::Link { href, children, .. } => {
            out.append("[");
            push_inlines(out, children);
            out.append("](");
            out.append(href.as_str());
            out.append(")");
        },
        InlineNode::Image { src, alt, .. } => {
            out.append("![");
            push_opt(out, alt);
            out.append("](");
            out.append(src.as_str());
            out.append(")");
        },
        InlineNode::FootnoteRef { identifier } => {
            out.append("[^");
            out.append(identifier.as_str());
            out.append("]");
        },
        InlineNode::Strikethrough { children } => {
            out.append("~~");
            push_inlines(out, children);
            out.append("~~");
        },
    }
    assert(out@ =~= o + md_inline(*n));
}

fn push_blocks_sep(out: &mut String, bs: &Vec<BlockNode>, sep: &str)
    ensures
        final(out)@ == old(out)@ + md_blocks_sep(bs@, sep@),
    decreases bs@,
{
    let mut k: usize = 0;
    while k < bs.len()
        invariant
            0 <= k <= bs@.len(),
            out@ == old(out)@ + md_blocks_sep(bs@.take(k as int), sep@),
        decreases bs.len() - k,
    {
        assert(bs@.take(k + 1).drop_last() =~= bs@.take(k as int));
        if k > 0 {
            out.append(sep);
        }
        push_block(out, &bs[k]);
        k += 1;
    }
    assert(bs@.take(k as int) =~= bs@);
}

fn push_quote(out: &mut String, bs: &Vec<BlockNode>)
    ensures
        final(out)@ == old(out)@ + md_quote(bs@),
    decreases bs@,
{
    let mut k: usize = 0;
    while k < bs.len()
        invariant
            0 <= k <= bs@.len(),
            out@ == old(out)@ + md_quote(bs@.take(k as int)),
        decreases bs.len() - k,
    {
        assert(bs@.take(k + 1).drop_last() =~= bs@.take(k as int));
        let ghost o = out@;
        if k > 0 {
            out.append("\n");
        }
        out.append("> ");
        push_block(out, &bs[k]);
        proof {
            if k > 0 {
                assert(out@ =~= o + "\n"@ + ("> "@ + md_block(bs@[k as int])));
            }
        }
        k += 1;
    }
    assert(bs@.take(k as int) =~= bs@);
}

fn push_list_marker(out: &mut String, i: usize, ordered: bool, start: Option<u32>)
    ensures
        final(out)@ == old(out)@ + list_marker(i as nat, ordered, start),
{
    if ordered {
        let num: u128 = match start {
            Some(s) => s as u128 + i as u128,
            None => i as u128 + 1,
        };
        push_decimal(out, num);
        out.append(". ");
    } else {
        out.append("- ");
    }
}

fn push_list_items(out: &mut String, bs: &Vec<BlockNode>, ordered: bool, start: Option<u32>)
    ensures
        final(out)@ == old(out)@ + md_list_items(bs@, ordered, start),
    decreases bs@,
{
    let mut k: usize = 0;
    while k < bs.len()
        invariant
            0 <= k <= bs@.len(),
            out@ == old(out)@ + md_list_items(bs@.take(k as int), ordered, start),
        decreases bs.len() - k,
    {
        let ghost pre = bs@.take(k + 1);
        assert(pre.drop_last() =~= bs@.take(k as int));
        assert(pre.last() == bs@[k as int]);
        let ghost o = out@;
        if k > 0 {
            out.append("\n");
        }
        push_list_marker(out, k, ordered, start);
        let ghost mid = out@;
        match &bs[k] {
            BlockNode::ListItem { children } => push_blocks_sep(out, children, " "),
            other => push_block(out, other),
        }
        assert(out@ == mid + md_item_body(bs@[k as int]));
        proof {
            if k > 0 {
                assert(out@ =~= o + "\n"@ + (list_marker(k as nat, ordered, start) + md_item_body(
                    bs@[k as int],
                )));
                assert(md_list_items(pre, ordered, start) == md_list_items(
                    bs@.take(k as int),
                    ordered,
                    start,
                ) + "\n"@ + (list_marker(k as nat, ordered, start) + md_item_body(bs@[k as int])));
            } else {
                assert(md_list_items(pre, ordered, start) == list_marker(0, ordered, start)
                    + md_item_body(bs@[0]));
            }
        }
        k += 1;
    }
    assert(bs@.take(k as int) =~= bs@);
}

fn table_cells(cs: &Vec<BlockNode>) -> (r: Vec<String>)
    ensures
        r@.map_values(|p: String| p@) == row_cells(cs@),
{
    let mut r: Vec<String> = Vec::new();
    let mut k: usize = 0;
    while k < cs.len()
        invariant
            0 <= k <= cs@.len(),
            r@.map_values(|p: String| p@) == row_cells(cs@.take(k as int)),
        decreases cs.len() - k,
    {
        assert(cs@.take(k + 1).drop_last() =~= cs@.take(k as int));
        match &cs[k] {
            BlockNode::TableCell { children } => {
                let mut s = String::new();
                push_inlines(&mut s, children);
                let ghost before = r@.map_values(|p: String| p@);
                r.push(s);
                assert(r@.map_values(|p: String| p@) =~= before.push(md_inlines(children@)));
            },
            _ => {},
        }
        k += 1;
    }
    assert(cs@.take(k as int) =~= cs@);
    r
}

fn table_line_strings(rows: &Vec<BlockNode>) -> (r: (Vec<String>, Vec<usize>))
    ensures
        r.0@.map_values(|p: String| p@) == table_lines(rows@),
        r.1@.map_values(|w: usize| w as nat) == table_widths(rows@),
{
    let mut r: Vec<String> = Vec::new();
    let mut w: Vec<usize> = Vec::new();
    let mut k: usize = 0;
    while k < rows.len()
        invariant
            0 <= k <= rows@.len(),
            r@.map_values(|p: String| p@) == table_lines(rows@.take(k as int)),
            w@.map_values(|x: usize| x as nat) == table_widths(rows@.take(k as int)),
        decreases rows.len() - k,
    {
        assert(rows@.take(k + 1).drop_last() =~= rows@.take(k as int));
        match &rows[k] {
            BlockNode::TableRow { children, .. } => {
                let cells = table_cells(children);
                if cells.len() > 0 {
                    let mut s = String::new();
                    s.append("| ");
                    push_joined(&mut s, &cells, " | ");
                    s.append(" |");
                    let ghost before = r@.map_values(|p: String| p@);
                    let ghost wbefore = w@.map_values(|x: usize| x as nat);
                    r.push(s);
                    w.push(cells.len());
                    assert(r@.map_values(|p: String| p@) =~= before.push(
                        "| "@ + join(row_cells(children@), " | "@) + " |"@,
                    ));
                    assert(w@.map_values(|x: usize| x as nat) =~= wbefore.push(
                        row_cells(children@).len(),
                    ));
                }
            },
            _ => {},
        }
        k += 1;
    }
    assert(rows@.take(k as int) =~= rows@);
    (r, w)
}

fn push_table(out: &mut String, rows: &Vec<BlockNode>)
    ensures
        final(out)@ == old(out)@ + md_table(rows@),
{
    let (lines, widths) = table_line_strings(rows);
    let ghost t = table_lines(rows@);
    if lines.len() == 0 {
        assert(out@ =~= old(out)@ + md_table(rows@));
        return;
    }
    proof {
        lemma_table_widths_len(rows@);
    }
    assert(widths@.map_values(|x: usize| x as nat)[0] == widths@[0] as nat);
    let h = widths[0];
    let mut dashes: Vec<String> = Vec::new();
    let mut m: usize = 0;
    while m < h
        invariant
            0 <= m <= h,
            dashes@.map_values(|p: String| p@) == Seq::new(m as nat, |_i: int| "---"@),
        decreases h - m,
    {
        let ghost before = dashes@.map_values(|p: String| p@);
        let d = String::from_str("---");
        dashes.push(d);
        assert(dashes@.map_values(|p: String| p@) =~= before.push(d@));
        assert(before.push(d@) =~= Seq::new((m + 1) as nat, |_i: int| "---"@));
        m += 1;
    }
    let mut div = String::new();
    div.append("| ");
    push_joined(&mut div, &dashes, " | ");
    div.append(" |");
    let mut all: Vec<String> = Vec::new();
    let first = lines[0].clone();
    assert(first@ == t[0]);
    all.push(first);
    all.push(div);
    assert(all@.map_values(|p: String| p@) =~= seq![t[0], divider(h as nat)] + t.subrange(1, 1));
    let mut k: usize = 1;
    while k < lines.len()
        invariant
            1 <= k <= lines@.len(),
            lines@.map_values(|p: String| p@) == t,
            all@.map_values(|p: String| p@) == seq![t[0], divider(h as nat)] + t.subrange(
                1,
                k as int,
            ),
        decreases lines.len() - k,
    {
        let ghost before = all@.map_values(|p: String| p@);
        let line = lines[k].clone();
        assert(line@ == t[k as int]);
        all.push(line);
        assert(all@.map_values(|p: String| p@) =~= before.push(t[k as int]));
        assert(all@.map_values(|p: String| p@) =~= seq![t[0], divider(h as nat)] + t.subrange(
            1,
            k + 1,
        ));
        k += 1;
    }
    assert(t.subrange(1, k as int) =~= t.skip(1));
    push_joined(out, &all, "\n");
}

fn push_block(out: &mut String, b: &BlockNode)
    ensures
        final(out)@ == old(out)@ + md_block(*b),
    decreases b,
{
    let ghost o = out@;
    match b {
        BlockNode::Heading { level, children } => {
            push_repeat(out, "#", *level as usize);
            out.append(" ");
            push_inlines(out, children);
        },
        BlockNode::Paragraph { children } => push_inlines(out, children),
        BlockNode::BlockQuote { children } => push_quote(out, children),
        BlockNode::CodeBlock { lang, value } => {
            out.append("```");
            push_opt(out, lang);
            out.append("\n");
            out.append(value.as_str());
            out.append("\n```");
        },
        BlockNode::List { ordered, start, children } => push_list_items(
            out,
            children,
            *ordered,
            *start,
        ),
        BlockNode::ListItem { children } => {
            out.append("- ");
            push_blocks_sep(out, children, " ");
        },
        BlockNode::Table { children, .. } => push_table(out, children),
        BlockNode::ThematicBreak => out.append("---"),
        BlockNode::ImageBlock { src, alt, .. } => {
            out.append("![");
            push_opt(out, alt);
            out.append("](");
            out.append(src.as_str());
            out.append(")");
        },
        BlockNode::RawBlock { value, .. } => out.append(value.as_str()),
        _ => {},
    }
    assert(out@ =~= o + md_block(*b));
}

/// Render a whole document to Markdown: the Markdown of each of its blocks
/// (its children, or the node itself when it is not a document), separated by
/// blank lines. The numbers of its ordered lists must fit in a `u32`.
pub fn ir_to_markdown(ir: &BlockNode) -> (r: String)
    requires
        doc_fits(*ir),
    ensures
        r@ == md_blocks_sep(doc_blocks(*ir), "\n\n"@),
{
    let mut out = String::new();
    match ir {
        BlockNode::Document { children } => push_blocks_sep(&mut out, children, "\n\n"),
        other => {
            push_block(&mut out, other);
            assert(md_blocks_sep(seq![*other], "\n\n"@) == md_block(*other));
        },
    }
    out
}


fn block_fits_exec(b: &BlockNode) -> (r: bool)
    ensures
        r == block_fits(*b),
    decreases b,
{
    match b {
        BlockNode::BlockQuote { children } => blocks_fit_exec(children),
        BlockNode::List { ordered, start, children } => {
            let n = children.len();
            let numbers = if !*ordered || n == 0 {
                true
            } else {
                match start {
                    Some(s) => (*s as u128) + (n as u128) - 1 <= 0xffff_ffffu128,
                    None => (n as u128) <= 0xffff_ffffu128,
                }
            };
            numbers && blocks_fit_exec(children)
        },
        BlockNode::ListItem { children } => blocks_fit_exec(children),
        _ => true,
    }
}

fn blocks_fit_exec(bs: &Vec<BlockNode>) -> (r: bool)
    ensures
        r == blocks_fit(bs@),
    decreases bs@,
{
    let mut ok = true;
    let mut k: usize = 0;
    while k < bs.len()
        invariant
            0 <= k <= bs@.len(),
            ok == blocks_fit(bs@.take(k as int)),
        decreases bs.len() - k,
    {
        assert(bs@.take(k + 1).drop_last() =~= bs@.take(k as int));
        ok = ok && block_fits_exec(&bs[k]);
        k += 1;
    }
    assert(bs@.take(k as int) =~= bs@);
    ok
}

/// Whether every ordered list that the document's Markdown numbers has numbers
/// that fit in a `u32` (`ir_to_markdown` needs it).
pub fn ir_numbers_fit(ir: &BlockNode) -> (r: bool)
    ensures
        r == doc_fits(*ir),
{
    match ir {
        BlockNode::Document { children } => blocks_fit_exec(children),
        other => {
            let r = block_fits_exec(other);
            assert(blocks_fit(seq![*other]) == block_fits(*other)) by {
                assert(seq![*other].drop_last() =~= Seq::<BlockNode>::empty());
                assert(seq![*other].last() == *other);
                assert(blocks_fit(Seq::<BlockNode>::empty()));
            }
            r
        },
    }
}

/// A code block renders as a fenced block whatever its language, as the root
/// or as the one child of a document: an opening fence with the language (none
/// when it has none), the value, and the closing fence on a line of its own.
pub proof fn lemma_code_block_fenced(doc: BlockNode, lang: Option<String>, value: String)
    requires
        doc == (BlockNode::CodeBlock { lang: lang, value: value }) || (doc matches BlockNode::Document {
            children,
        } && children@ == seq![(BlockNode::CodeBlock { lang: lang, value: value })]),
    ensures
        ({
            let m = md_blocks_sep(doc_blocks(doc), "\n\n"@);
            let tag = match lang {
                Some(l) => l@,
                None => Seq::<char>::empty(),
            };
            &&& m == "```"@ + tag + "\n"@ + value@ + "\n```"@
            &&& crate::text::starts_with(m, "```"@)
            &&& crate::text::ends_with(m, "\n```"@)
        }),
{
    let m = md_blocks_sep(doc_blocks(doc), "\n\n"@);
    let tag = match lang {
        Some(l) => l@,
        None => Seq::<char>::empty(),
    };
    let f = "```"@;
    let e = "\n```"@;
    let cb = BlockNode::CodeBlock { lang: lang, value: value };
    assert(opt_or_empty(lang) == tag);
    assert(md_block(cb) == f + tag + "\n"@ + value@ + e);
    assert(doc_blocks(doc) =~= seq![cb]);
    assert(m == md_block(cb));
    assert((f + tag + "\n"@ + value@ + e).take(f.len() as int) =~= f);
    let whole = f + tag + "\n"@ + value@ + e;
    assert(whole.skip(whole.len() - e.len()) =~= e);
}

} // verus!
