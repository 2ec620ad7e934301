//! The Typst rendering path: Markdown → Typst source composed with a custom
//! `template.typ`, with block anchors for the live-preview source map.
//!
//! Template: a request's `template_id` selects `<templates_dir>/<slug>/template.typ`
//! (defining `#let article(title: none, authors: (), lang: "en", toc: false, body)`);
//! without one the built-in default style is used.

use vstd::prelude::*;
use crate::text::{
    chars_of, debug_quoted, debug_str, eq_lit, find_exec, find_from, is_blank, is_blank_range,
    join, push_char, push_decimal, push_joined, push_range, decimal, split_char, split_chars,
    lemma_split_char_len, first_non_ws_from, lines, lines_of, pairs_view, replace_all, replace_str,
    is_ascii_alnum, is_ascii_alnum_char, is_ascii_digit, is_ascii_digit_char,
};
use crate::types::{InlineImage, RenderError, RenderOutput, RenderRequest};
use crate::common::is_valid_slug;
use crate::svg_out::AnchorSpec;
use crate::yaml::{entries_view, yaml_entries, yaml_mapping_entries, YamlScalar, YamlValue};
use crate::b64::{base64_standard_decode, decode_base64};
use crate::latex_commands::reps_view;
use crate::images::{bytes_view, escape_typst_string, img_scan, protect_images, restore_images};
use crate::latex_commands::{protect_markdown, restore_all, restore_placeholders, tr_scan, Reps};
use crate::mdx::{convert_markdown_checked, markdown_conversion, mdxport_split_frontmatter, split_frontmatter};

verus! {

/// The Typst engine: Markdown → Typst → PDF/SVG.
///
/// `templates_dir` is the root under which template packages are looked up: a
/// request with `template_id = Some("soma")` resolves to
/// `<templates_dir>/soma/template.typ`. An empty (or absent) `template_id`
/// renders with the built-in default style instead.
#[derive(Debug)]
pub struct TypstEngine {
    templates_dir: String,
    timeout_ms: u64,
}

/// How a request's template resolved: the built-in style, or a template slug
/// and the path of its entry point (which must exist).
#[derive(Debug)]
pub enum SlugResolution {
    Default,
    Template { slug: String, entry: String },
}

/// `.typ` template path relative to the template root.
pub open spec fn template_rel(slug: Seq<char>) -> Seq<char> {
    slug + "/template.typ"@
}

impl Default for TypstEngine {
    /// An engine with an empty template root and no timeout budget.
    fn default() -> (r: TypstEngine)
        ensures
            r.dir() == Seq::<char>::empty(),
            r.timeout() == 0,
    {
        TypstEngine { templates_dir: String::new(), timeout_ms: 0 }
    }
}

impl TypstEngine {
    pub closed spec fn dir(&self) -> Seq<char> {
        self.templates_dir@
    }

    pub closed spec fn timeout(&self) -> u64 {
        self.timeout_ms
    }

    /// Create an engine that resolves templates under `templates_dir` (timeout 60 s).
    pub fn new(templates_dir: String) -> (r: TypstEngine)
        ensures
            r.dir() == templates_dir@,
            r.timeout() == 60_000,
    {
        TypstEngine { templates_dir, timeout_ms: 60_000 }
    }

    /// Override the per-render timeout.
    pub fn with_timeout(self, ms: u64) -> (r: TypstEngine)
        ensures
            r.dir() == self.dir(),
            r.timeout() == ms,
    {
        TypstEngine { templates_dir: self.templates_dir, timeout_ms: ms }
    }

    /// The template root.
    pub fn templates_dir(&self) -> (r: &str)
        ensures
            r@ == self.dir(),
    {
        self.templates_dir.as_str()
    }

    /// The per-render timeout in milliseconds.
    pub fn timeout_ms(&self) -> (r: u64)
        ensures
            r == self.timeout(),
    {
        self.timeout_ms
    }

    /// Validate the requested slug. An empty (or absent) slug means the built-in
    /// style; a valid slug gives the path of the `template.typ` to look for; any
    /// other slug is refused.
    pub fn resolve_slug(&self, req: &RenderRequest) -> (r: Result<SlugResolution, RenderError>)
        ensures
            ({
                let slug = match req.template_id {
                    Some(s) => s@,
                    None => Seq::<char>::empty(),
                };
                if slug.len() == 0 {
                    r matches Ok(SlugResolution::Default)
                } else if !is_valid_slug(slug) {
                    r matches Err(RenderError::Engine(m)) && m@ == "invalid template_id: "@
                        + debug_str(slug)
                } else {
                    r matches Ok(SlugResolution::Template { slug: s, entry: e }) && s@ == slug
                        && e@ == self.dir() + "/"@ + template_rel(slug)
                }
            }),
    {
        let slug = match &req.template_id {
            Some(s) => String::from_str(s.as_str()),
            None => String::new(),
        };
        if slug.as_str().is_empty() {
            return Ok(SlugResolution::Default);
        }
        if !crate::common::valid_slug(slug.as_str()) {
            let mut m = String::new();
            m.append("invalid template_id: ");
            m.append(debug_quoted(slug.as_str()).as_str());
            return Err(RenderError::Engine(m));
        }
        let entry = self.template_path(slug.as_str());
        Ok(SlugResolution::Template { slug, entry })
    }

    /// Where the `template.typ` of template `slug` lies: under the template
    /// root. Only a valid slug is looked up, so the path stays under the root.
    pub fn template_path(&self, slug: &str) -> (r: String)
        requires
            is_valid_slug(slug@),
        ensures
            r@ == self.dir() + "/"@ + template_rel(slug@),
    {
        let mut path = String::new();
        path.append(self.templates_dir.as_str());
        path.append("/");
        path.append(template_rel_typ(slug).as_str());
        path
    }
}

/// The error for a template whose entry point does not exist.
pub fn missing_template(slug: &str, entry: &str) -> (r: RenderError)
    ensures
        r matches RenderError::Engine(m) && m@ == "template `"@ + slug@ + "` not found (expected "@
            + entry@ + ")"@,
{
    let mut m = String::new();
    m.append("template `");
    m.append(slug);
    m.append("` not found (expected ");
    m.append(entry);
    m.append(")");
    RenderError::Engine(m)
}

/// `.typ` template relative path (slug validated by `valid_slug`, no path traversal).
pub fn template_rel_typ(slug: &str) -> (r: String)
    ensures
        r@ == template_rel(slug@),
{
    let mut s = String::from_str(slug);
    s.append("/template.typ");
    s
}

// ---------------------------------------------------------------------------
// Blocks and anchors
// ---------------------------------------------------------------------------

/// `s` without its trailing `ch`s (`trim_end_matches(ch)`).
pub open spec fn strip_trailing(s: Seq<char>, ch: char) -> Seq<char>
    decreases s.len(),
{
    if s.len() > 0 && s.last() == ch {
        strip_trailing(s.drop_last(), ch)
    } else {
        s
    }
}

/// Left-to-right state of the block split over lines: finished blocks, the
/// lines of the current block and its start line.
pub open spec fn block_state(q: Seq<Seq<char>>) -> (Seq<(nat, Seq<char>)>, Seq<Seq<char>>, nat)
    decreases q.len(),
{
    if q.len() == 0 {
        (Seq::empty(), Seq::empty(), 1)
    } else {
        let (bl, cur, st) = block_state(q.drop_last());
        let l = q.last();
        if is_blank(l) {
            if cur.len() > 0 {
                (bl.push((st, join(cur, "\n"@))), Seq::empty(), st)
            } else {
                (bl, cur, st)
            }
        } else if cur.len() == 0 {
            (bl, seq![l], q.len())
        } else {
            (bl, cur.push(l), st)
        }
    }
}

/// The body split into blocks on blank lines: each block's (1-based start line,
/// text), lines split at `'\n'` with trailing `'\r'`s dropped.
pub open spec fn blocks_of(body: Seq<char>) -> Seq<(nat, Seq<char>)> {
    let q = split_char(body, '\n').map_values(|l: Seq<char>| strip_trailing(l, '\r'));
    let (bl, cur, st) = block_state(q);
    if cur.len() > 0 {
        bl.push((st, join(cur, "\n"@)))
    } else {
        bl
    }
}

pub open spec fn blocks_view(v: Seq<(usize, String)>) -> Seq<(nat, Seq<char>)> {
    v.map_values(|b: (usize, String)| (b.0 as nat, b.1@))
}

fn strip_trailing_end(v: &[char], ch: char) -> (r: usize)
    ensures
        r <= v@.len(),
        v@.take(r as int) == strip_trailing(v@, ch),
{
    let mut e: usize = v.len();
    assert(v@.take(e as int) =~= v@);
    while e > 0 && v[e - 1] == ch
        invariant
            e <= v@.len(),
            strip_trailing(v@, ch) == strip_trailing(v@.take(e as int), ch),
        decreases e,
    {
        assert(v@.take(e as int).drop_last() =~= v@.take(e - 1));
        e -= 1;
    }
    e
}

fn join_strings(parts: &Vec<String>, sep: &str) -> (r: String)
    ensures
        r@ == join(parts@.map_values(|p: String| p@), sep@),
{
    let mut out = String::new();
    push_joined(&mut out, parts, sep);
    out
}

/// Split the body into blocks on blank lines, returning each block's (1-based
/// start line, block text). Empty blocks are skipped.
pub fn split_into_blocks(body: &str) -> (r: Vec<(usize, String)>)
    ensures
        blocks_view(r@) == blocks_of(body@),
{
    let v = chars_of(body);
    let pieces = split_chars(&v, '\n');
    let ghost p = split_char(v@, '\n');
    let ghost q = p.map_values(|l: Seq<char>| strip_trailing(l, '\r'));
    let mut blocks: Vec<(usize, String)> = Vec::new();
    let mut cur: Vec<String> = Vec::new();
    let mut cur_start: usize = 1;
    let mut k: usize = 0;
    while k < pieces.len()
        invariant
            0 <= k <= pieces@.len(),
            pieces@.len() == p.len(),
            q == p.map_values(|l: Seq<char>| strip_trailing(l, '\r')),
            forall|m: int| 0 <= m < pieces@.len() ==> #[trigger] pieces@[m]@ == p[m],
            ({
                let (bl, cr, st) = block_state(q.take(k as int));
                &&& blocks_view(blocks@) == bl
                &&& cur@.map_values(|s: String| s@) == cr
                &&& cur_start as nat == st
            }),
            cur_start <= k + 1,
        decreases pieces.len() - k,
    {
        assert(q.take(k + 1).drop_last() =~= q.take(k as int));
        let piece = &pieces[k];
        let e = strip_trailing_end(piece, '\r');
        let ghost l = q[k as int];
        assert(piece@.take(e as int) == l);
        let ghost bv = blocks_view(blocks@);
        let ghost cv = cur@.map_values(|s: String| s@);
        assert(piece@.subrange(0, e as int) =~= l);
        if is_blank_range(piece, 0, e) {
            if cur.len() > 0 {
                let text = join_strings(&cur, "\n");
                blocks.push((cur_start, text));
                assert(blocks_view(blocks@) =~= bv.push((cur_start as nat, join(cv, "\n"@))));
                cur = Vec::new();
                assert(cur@.map_values(|s: String| s@) =~= Seq::<Seq<char>>::empty());
            }
        } else {
            let line = crate::text::string_of_range(piece, 0, e);
            if cur.len() == 0 {
                cur_start = k + 1;
            }
            cur.push(line);
            assert(cur@.map_values(|s: String| s@) =~= cv.push(l));
            proof {
                if cv.len() == 0 {
                    assert(cv.push(l) =~= seq![l]);
                }
            }
        }
        k += 1;
    }
    assert(q.take(k as int) =~= q);
    if cur.len() > 0 {
        let ghost bv = blocks_view(blocks@);
        let text = join_strings(&cur, "\n");
        blocks.push((cur_start, text));
        assert(blocks_view(blocks@) =~= bv.push((cur_start as nat, text@)));
    }
    blocks
}

/// Block-marker prefix injected into the Markdown body (uppercase letters and
/// digits only, so it survives every transform unescaped).
pub open spec fn block_marker(i: nat) -> Seq<char> {
    "SOMADOCBLOCKANCHOR"@ + decimal(i)
}

/// The `i`-th block with its marker paragraph before it.
pub open spec fn marked_block(i: nat, text: Seq<char>) -> Seq<char> {
    block_marker(i) + "\n\n"@ + strip_trailing(text, '\n') + "\n\n"@
}

pub open spec fn marked_blocks(blocks: Seq<(nat, Seq<char>)>) -> Seq<char>
    decreases blocks.len(),
{
    if blocks.len() == 0 {
        Seq::<char>::empty()
    } else {
        marked_blocks(blocks.drop_last()) + marked_block(
            (blocks.len() - 1) as nat,
            blocks.last().1,
        )
    }
}

/// Inject a `SOMADOCBLOCKANCHOR<i>` standalone-paragraph marker before each block.
pub fn inject_block_markers_markdown(blocks: &Vec<(usize, String)>) -> (r: String)
    ensures
        r@ == marked_blocks(blocks_view(blocks@)),
{
    let ghost bv = blocks_view(blocks@);
    let mut out = String::new();
    let mut i: usize = 0;
    while i < blocks.len()
        invariant
            0 <= i <= blocks@.len(),
            bv == blocks_view(blocks@),
            out@ == marked_blocks(bv.take(i as int)),
        decreases blocks.len() - i,
    {
        assert(bv.take(i + 1).drop_last() =~= bv.take(i as int));
        let ghost o = out@;
        out.append("SOMADOCBLOCKANCHOR");
        push_decimal(&mut out, i as u128);
        out.append("\n\n");
        let text = chars_of(blocks[i].1.as_str());
        let e = strip_trailing_end(&text, '\n');
        push_range(&mut out, &text, 0, e);
        out.append("\n\n");
        assert(text@.subrange(0, e as int) =~= text@.take(e as int));
        assert(out@ =~= o + marked_block(i as nat, bv[i as int].1));
        i += 1;
    }
    assert(bv.take(i as int) =~= bv);
    out
}

/// The marker that replaces a block marker in the Typst body (a 1pt white-dot
/// rect), followed by its label.
pub open spec fn anchor_text(i: nat) -> Seq<char> {
    "#rect(width: 1pt, height: 1pt, fill: luma(100%))"@ + " <somadoc-anchor-"@ + decimal(i) + ">"@
}

/// Replacing the block markers in order, from block `i` on, in what remains of
/// the body: the text and the (start line, block index) pairs. Stops at the
/// first marker that is not found.
pub open spec fn rect_markers(rem: Seq<char>, blocks: Seq<(nat, Seq<char>)>, i: nat) -> (
    Seq<char>,
    Seq<(nat, nat)>,
)
    decreases blocks.len() - i,
{
    if i >= blocks.len() {
        (rem, Seq::empty())
    } else {
        match find_from(rem, block_marker(i), 0) {
            None => (rem, Seq::empty()),
            Some(pos) => {
                let (o, sp) = rect_markers(rem.skip(pos + block_marker(i).len()), blocks, i + 1);
                (rem.take(pos) + anchor_text(i) + o, seq![(blocks[i as int].0, i)] + sp)
            },
        }
    }
}

pub proof fn lemma_find_from(s: Seq<char>, p: Seq<char>, i: int)
    requires
        0 <= i,
    ensures
        find_from(s, p, i) matches Some(k) ==> i <= k && k + p.len() <= s.len() && s.subrange(
            k,
            k + p.len(),
        ) == p,
    decreases s.len() + 1 - i,
{
    if i + p.len() <= s.len() && !crate::text::matches_at(s, i, p) {
        lemma_find_from(s, p, i + 1);
    }
}

fn block_marker_chars(i: usize) -> (r: Vec<char>)
    ensures
        r@ == block_marker(i as nat),
{
    let mut m = String::new();
    m.append("SOMADOCBLOCKANCHOR");
    push_decimal(&mut m, i as u128);
    chars_of(m.as_str())
}

/// Replace block-marker text in the Typst body with invisible `#rect` markers;
/// returns (marked body, [(block start line, index)]).
pub fn replace_block_markers_with_rect(body: &str, blocks: &Vec<(usize, String)>) -> (r: (
    String,
    Vec<(usize, usize)>,
))
    ensures
        ({
            let (o, sp) = rect_markers(body@, blocks_view(blocks@), 0);
            &&& r.0@ == o
            &&& r.1@.map_values(|p: (usize, usize)| (p.0 as nat, p.1 as nat)) == sp
        }),
{
    let ghost bv = blocks_view(blocks@);
    let v = chars_of(body);
    let mut out = String::new();
    let mut specs: Vec<(usize, usize)> = Vec::new();
    let mut pos0: usize = 0;
    let mut i: usize = 0;
    assert(v@.skip(0) =~= v@);
    assert(specs@.map_values(|p: (usize, usize)| (p.0 as nat, p.1 as nat)) =~= Seq::<(nat, nat)>::empty());
    assert(out@ =~= Seq::<char>::empty());
    while i < blocks.len()
        invariant
            0 <= i <= blocks@.len(),
            pos0 <= v@.len(),
            bv == blocks_view(blocks@),
            ({
                let (o, sp) = rect_markers(body@, bv, 0);
                let (o2, sp2) = rect_markers(v@.skip(pos0 as int), bv, i as nat);
                &&& o == out@ + o2
                &&& sp == specs@.map_values(|p: (usize, usize)| (p.0 as nat, p.1 as nat)) + sp2
            }),
        decreases blocks.len() - i,
    {
        let ghost rem = v@.skip(pos0 as int);
        let marker = block_marker_chars(i);
        let found = find_exec(&v, &marker, pos0);
        proof {
            reveal_strlit("SOMADOCBLOCKANCHOR");
            lemma_find_from(v@, marker@, pos0 as int);
            lemma_find_shift(v@, marker@, pos0 as int, 0);
        }
        match found {
            None => {
                i = blocks.len();
                continue;
            },
            Some(pos) => {
                let ghost o_before = out@;
                let ghost sp_before = specs@.map_values(|p: (usize, usize)| (p.0 as nat, p.1 as nat));
                push_range(&mut out, &v, pos0, pos);
                out.append("#rect(width: 1pt, height: 1pt, fill: luma(100%))");
                out.append(" <somadoc-anchor-");
                push_decimal(&mut out, i as u128);
                out.append(">");
                specs.push((blocks[i].0, i));
                proof {
                    assert(rem.take(pos - pos0) =~= v@.subrange(pos0 as int, pos as int));
                    crate::text::lemma_skip_skip(v@, pos0 as int, pos - pos0 + marker@.len());
                    assert(specs@.map_values(|p: (usize, usize)| (p.0 as nat, p.1 as nat)) =~= sp_before.push((bv[i as int].0, i as nat)));
                }
                let vn = v.len();
                assert(pos + marker@.len() <= vn);
                pos0 = pos + marker.len();
            },
        }
        i += 1;
    }
    let ghost o_before = out@;
    push_range(&mut out, &v, pos0, v.len());
    proof {
        assert(v@.subrange(pos0 as int, v@.len() as int) =~= v@.skip(pos0 as int));
        let sv = specs@.map_values(|p: (usize, usize)| (p.0 as nat, p.1 as nat));
        assert(sv + Seq::<(nat, nat)>::empty() =~= sv);
    }
    (out, specs)
}

/// `find_from` on a suffix is `find_from` on the whole, shifted.
pub proof fn lemma_find_shift(s: Seq<char>, p: Seq<char>, off: int, i: int)
    requires
        0 <= off <= s.len(),
        0 <= i,
    ensures
        find_from(s.skip(off), p, i) == match find_from(s, p, off + i) {
            Some(k) => Some(k - off),
            None => None::<int>,
        },
    decreases s.len() - off + 1 - i,
{
    let t = s.skip(off);
    if i + p.len() <= t.len() {
        assert(t.subrange(i, i + p.len()) =~= s.subrange(off + i, off + i + p.len()));
        if !crate::text::matches_at(t, i, p) {
            lemma_find_shift(s, p, off, i + 1);
        }
    }
}

/// Index just after the last `'\n'` before index `k` (0 when there is none).
pub open spec fn line_start_before(s: Seq<char>, k: int) -> int
    decreases k,
{
    if k <= 0 || k > s.len() {
        0
    } else if s[k - 1] == '\n' {
        k
    } else {
        line_start_before(s, k - 1)
    }
}

/// Byte offset of character index `i` in the UTF-8 encoding of `s`.
pub open spec fn byte_offset(s: Seq<char>, i: int) -> usize {
    vstd::utf8::encode_utf8(s.take(i)).len() as usize
}

pub open spec fn anchor_label(idx: nat) -> Seq<char> {
    "<somadoc-anchor-"@ + decimal(idx) + ">"@
}

/// The marker range of the anchor with index `idx` in the final source, as
/// character indices: from the `#rect(` on the label's line to the label.
pub open spec fn anchor_range(src: Seq<char>, idx: nat) -> Option<(int, int)> {
    match find_from(src, anchor_label(idx), 0) {
        None => None,
        Some(k) => {
            let ls = line_start_before(src, k);
            match find_from(src.subrange(ls, k), "#rect("@, 0) {
                None => None,
                Some(rel) => Some((ls + rel, k)),
            }
        },
    }
}

/// Anchor specs located in the final source: (line, byte start, byte end) for
/// each (line, index) pair whose marker is found, in order.
pub open spec fn located(src: Seq<char>, specs: Seq<(nat, nat)>) -> Seq<(nat, usize, usize)>
    decreases specs.len(),
{
    if specs.len() == 0 {
        Seq::empty()
    } else {
        let p = located(src, specs.drop_last());
        match anchor_range(src, specs.last().1) {
            Some((a, b)) => p.push((specs.last().0, byte_offset(src, a), byte_offset(src, b))),
            None => p,
        }
    }
}

pub open spec fn anchors_view(v: Seq<AnchorSpec>) -> Seq<(nat, usize, usize)> {
    v.map_values(|a: AnchorSpec| (a.line as nat, a.byte_range.start, a.byte_range.end))
}

pub proof fn lemma_line_start_before(s: Seq<char>, k: int)
    requires
        0 <= k <= s.len(),
    ensures
        0 <= line_start_before(s, k) <= k,
    decreases k,
{
    if k > 0 && s[k - 1] != '\n' {
        lemma_line_start_before(s, k - 1);
    }
}

fn byte_offset_exec(src: &str, i: usize) -> (r: usize)
    requires
        i <= src@.len(),
    ensures
        r == byte_offset(src@, i as int),
{
    let sub = src.substring_char(0, i);
    assert(sub@ =~= src@.take(i as int));
    sub.len()
}

/// Locate each anchor marker's `#rect(...)` byte range in the final source.
pub fn locate_anchor_ranges(final_source: &str, specs: Vec<(usize, usize)>) -> (r: Vec<AnchorSpec>)
    ensures
        anchors_view(r@) == located(
            final_source@,
            specs@.map_values(|p: (usize, usize)| (p.0 as nat, p.1 as nat)),
        ),
{
    let ghost sv = specs@.map_values(|p: (usize, usize)| (p.0 as nat, p.1 as nat));
    let v = chars_of(final_source);
    let rect = chars_of("#rect(");
    let mut out: Vec<AnchorSpec> = Vec::new();
    let mut j: usize = 0;
    while j < specs.len()
        invariant
            0 <= j <= specs@.len(),
            v@ == final_source@,
            rect@ == "#rect("@,
            sv == specs@.map_values(|p: (usize, usize)| (p.0 as nat, p.1 as nat)),
            anchors_view(out@) == located(final_source@, sv.take(j as int)),
        decreases specs.len() - j,
    {
        assert(sv.take(j + 1).drop_last() =~= sv.take(j as int));
        let (line, idx) = specs[j];
        let mut label = String::new();
        label.append("<somadoc-anchor-");
        push_decimal(&mut label, idx as u128);
        label.append(">");
        let lv = chars_of(label.as_str());
        proof {
            reveal_strlit("<somadoc-anchor-");
        }
        let ghost before = anchors_view(out@);
        match find_exec(&v, &lv, 0) {
            None => {},
            Some(k) => {
                proof {
                    lemma_find_from(v@, lv@, 0);
                }
                let mut ls: usize = k;
                while ls > 0 && v[ls - 1] != '\n'
                    invariant
                        0 <= ls <= k <= v@.len(),
                        line_start_before(v@, k as int) == line_start_before(v@, ls as int),
                    decreases ls,
                {
                    ls -= 1;
                }
                let sub = crate::text::slice_vec(&v, ls, k);
                proof {
                    reveal_strlit("#rect(");
                }
                match find_exec(&sub, &rect, 0) {
                    None => {},
                    Some(rel) => {
                        proof {
                            lemma_find_from(sub@, rect@, 0);
                        }
                        let a = byte_offset_exec(final_source, ls + rel);
                        let b = byte_offset_exec(final_source, k);
                        out.push(AnchorSpec { line, byte_range: std::ops::Range { start: a, end: b } });
                        assert(anchors_view(out@) =~= before.push((line as nat, a, b)));
                    },
                }
            },
        }
        j += 1;
    }
    assert(sv.take(j as int) =~= sv);
    out
}

// ---------------------------------------------------------------------------
// Typst body rewrites
// ---------------------------------------------------------------------------

/// Index of the `)` that closes the group open at `j` (`depth` extra groups open).
pub open spec fn paren_close(c: Seq<char>, j: int, depth: nat) -> Option<int>
    decreases c.len() - j,
{
    if j < 0 || j >= c.len() {
        None
    } else if c[j] == '(' {
        paren_close(c, j + 1, depth + 1)
    } else if c[j] == ')' {
        if depth == 0 {
            Some(j)
        } else {
            paren_close(c, j + 1, (depth - 1) as nat)
        }
    } else {
        paren_close(c, j + 1, depth)
    }
}

pub proof fn lemma_paren_close(c: Seq<char>, j: int, depth: nat)
    requires
        0 <= j,
    ensures
        paren_close(c, j, depth) matches Some(k) ==> j <= k < c.len(),
    decreases c.len() - j,
{
    if 0 <= j < c.len() {
        if c[j] == '(' {
            lemma_paren_close(c, j + 1, depth + 1);
        } else if c[j] == ')' {
            if depth > 0 {
                lemma_paren_close(c, j + 1, (depth - 1) as nat);
            }
        } else {
            lemma_paren_close(c, j + 1, depth);
        }
    }
}

/// A top-level `#table(` at `c[i]` (not escaped by a preceding `\`).
pub open spec fn table_open_at(c: Seq<char>, i: int) -> bool {
    crate::text::matches_at(c, i, "#table("@) && (i == 0 || c[i - 1] != '\\')
}

pub open spec fn hline() -> Seq<char> {
    "\n  table.hline(stroke: 1pt + luma(60)),"@
}

/// Each top-level `#table(...)` from `c[i]` on gets a bottom rule as its last argument.
pub open spec fn with_bottom_rules(c: Seq<char>, i: int) -> Seq<char>
    decreases c.len() - i,
{
    if i < 0 || i >= c.len() {
        Seq::<char>::empty()
    } else if table_open_at(c, i) && paren_close(c, i + "#table("@.len(), 0) is Some {
        let end = paren_close(c, i + "#table("@.len(), 0)->0;
        proof {
            lemma_paren_close(c, i + "#table("@.len(), 0);
        }
        c.subrange(i, end) + hline() + seq![')'] + with_bottom_rules(c, end + 1)
    } else {
        seq![c[i]] + with_bottom_rules(c, i + 1)
    }
}

/// Inject a `table.hline(...)` line at the end of each top-level `#table(`
/// block in the body as the booktabs bottom rule (before the matching `)`).
pub fn inject_table_bottom_rules(body: &str) -> (r: String)
    ensures
        r@ == with_bottom_rules(body@, 0),
{
    let c = chars_of(body);
    let pat = chars_of("#table(");
    let mut out = String::new();
    let mut i: usize = 0;
    while i < c.len()
        invariant
            0 <= i <= c@.len(),
            pat@ == "#table("@,
            with_bottom_rules(c@, 0) == out@ + with_bottom_rules(c@, i as int),
        decreases c.len() - i,
    {
        let ghost o = out@;
        if crate::text::matches_at_exec(&c, i, &pat) && (i == 0 || c[i - 1] != '\\') {
            let mut depth: usize = 0;
            let mut j: usize = i + pat.len();
            let mut found: Option<usize> = None;
            while j < c.len()
                invariant_except_break
                    paren_close(c@, i + pat@.len(), 0) == paren_close(c@, j as int, depth as nat),
                    found is None,
                invariant
                    i + pat@.len() <= j <= c@.len(),
                    depth <= j,
                ensures
                    match found {
                        Some(k) => paren_close(c@, i + pat@.len(), 0) == Some(k as int),
                        None => paren_close(c@, i + pat@.len(), 0) is None,
                    },
                decreases c.len() - j,
            {
                if c[j] == '(' {
                    depth += 1;
                } else if c[j] == ')' {
                    if depth == 0 {
                        found = Some(j);
                        break;
                    }
                    depth -= 1;
                }
                j += 1;
            }
            proof {
                lemma_paren_close(c@, i + pat@.len(), 0);
            }
            match found {
                Some(end) => {
                    push_range(&mut out, &c, i, end);
                    out.append("\n  table.hline(stroke: 1pt + luma(60)),");
                    push_char(&mut out, ')');
                    assert(out@ =~= o + (c@.subrange(i as int, end as int) + hline() + seq![')']));
                    i = end + 1;
                    continue;
                },
                None => {},
            }
        }
        push_char(&mut out, c[i]);
        i += 1;
    }
    out
}

/// Thematic break: mdxport's full-width line becomes half-width.
pub fn normalize_thematic_breaks(body: &str) -> (r: String)
    ensures
        r@ == crate::text::replace_all(
            body@,
            "#line(length: 100%, stroke: 0.5pt)"@,
            "#line(length: 50%, stroke: 0.5pt)"@,
        ),
{
    crate::text::replace_str(
        body,
        "#line(length: 100%, stroke: 0.5pt)",
        "#line(length: 50%, stroke: 0.5pt)",
    )
}

// ---------------------------------------------------------------------------
// Line blocks
// ---------------------------------------------------------------------------

/// Whether a string (after the `|` prefix) is a pipe-table separator row: not
/// blank, and only `|`, `-`, `:`, space and tab.
pub open spec fn rest_is_table_sep(rest: Seq<char>) -> bool {
    !is_blank(rest) && forall|k: int|
        0 <= k < rest.len() ==> (#[trigger] rest[k] == '|' || rest[k] == '-' || rest[k] == ':'
            || rest[k] == ' ' || rest[k] == '\t')
}

/// A line-block line: after leading whitespace, `|` alone or `|` followed by a
/// space or a tab.
pub open spec fn is_block_line(l: Seq<char>) -> bool {
    let t = crate::text::trim_start(l);
    t == seq!['|'] || crate::text::starts_with(t, seq!['|', ' ']) || crate::text::starts_with(
        t,
        seq!['|', '\t'],
    )
}

/// A verse line: a line-block line that is not a lone `|`.
pub open spec fn is_verse_line(l: Seq<char>) -> bool {
    let t = crate::text::trim_start(l);
    t != seq!['|'] && (crate::text::starts_with(t, seq!['|', ' ']) || crate::text::starts_with(
        t,
        seq!['|', '\t'],
    ))
}

/// End of the run of line-block lines that starts at `j`.
pub open spec fn run_end(ls: Seq<Seq<char>>, j: int) -> int
    decreases ls.len() - j,
{
    if j < 0 || j >= ls.len() {
        ls.len() as int
    } else if is_block_line(ls[j]) {
        run_end(ls, j + 1)
    } else {
        j
    }
}

pub proof fn lemma_run_end(ls: Seq<Seq<char>>, j: int)
    requires
        0 <= j <= ls.len(),
    ensures
        j <= run_end(ls, j) <= ls.len(),
        forall|k: int| j <= k < run_end(ls, j) ==> is_block_line(#[trigger] ls[k]),
    decreases ls.len() - j,
{
    if j < ls.len() && is_block_line(ls[j]) {
        lemma_run_end(ls, j + 1);
    }
}

/// Leading spaces and tabs removed.
pub open spec fn strip_sp_tab(s: Seq<char>) -> Seq<char>
    decreases s.len(),
{
    if s.len() > 0 && (s[0] == ' ' || s[0] == '\t') {
        strip_sp_tab(s.drop_first())
    } else {
        s
    }
}

/// A line of a run `ls[..j]` of line-block lines, as verse: the `|` prefix
/// stripped, a hard break `\` at the end when another verse line follows in
/// the run; a lone `|` becomes an empty line (stanza break).
pub open spec fn verse_line(ls: Seq<Seq<char>>, k: int, j: int) -> Seq<char> {
    let t = crate::text::trim_start(ls[k]);
    if t == seq!['|'] {
        Seq::<char>::empty()
    } else {
        let content = strip_sp_tab(t.skip(1));
        if k + 1 < j && is_verse_line(ls[k + 1]) {
            content.push('\\')
        } else {
            content
        }
    }
}

/// Whether a line-block line's text after its `|` marks a pipe table: a
/// separator row, or an inline `|` separator.
pub open spec fn is_tabular_rest(rest: Seq<char>) -> bool {
    rest_is_table_sep(rest) || rest.contains('|')
}

/// Whether some line of `ls[i..j]` belongs to a pipe table (a separator row or
/// an inline `|` separator).
pub open spec fn run_has_sep(ls: Seq<Seq<char>>, i: int, j: int) -> bool {
    exists|k: int| i <= k < j && is_tabular_rest(#[trigger] crate::text::trim_start(ls[k]).skip(1))
}

/// Lines from `ls[i]` on with line blocks rewritten as verse; runs that hold a
/// pipe-table line (separator row or inline `|`) stay as they are.
pub open spec fn line_blocks_from(ls: Seq<Seq<char>>, i: int) -> Seq<Seq<char>>
    decreases ls.len() - i,
{
    if i < 0 || i >= ls.len() {
        Seq::empty()
    } else if is_block_line(ls[i]) {
        let j = run_end(ls, i);
        proof {
            lemma_run_end(ls, i + 1);
        }
        let piece = if run_has_sep(ls, i, j) {
            ls.subrange(i, j)
        } else {
            Seq::new((j - i) as nat, |m: int| verse_line(ls, i + m, j))
        };
        piece + line_blocks_from(ls, j)
    } else {
        seq![ls[i]] + line_blocks_from(ls, i + 1)
    }
}

pub open spec fn line_blocks(md: Seq<char>) -> Seq<char> {
    join(line_blocks_from(split_char(md, '\n'), 0), "\n"@)
}

/// Classification of a line: (lone `|`, `|` + space/tab), i.e. of `trim_start(l)`.
fn classify_line(l: &[char]) -> (r: (bool, bool, usize))
    ensures
        r.2 == first_non_ws_from(l@, 0),
        r.0 == (crate::text::trim_start(l@) == seq!['|']),
        r.1 == (crate::text::starts_with(crate::text::trim_start(l@), seq!['|', ' '])
            || crate::text::starts_with(crate::text::trim_start(l@), seq!['|', '\t'])),
{
    let s = crate::text::first_non_ws_at(l, 0);
    let n = l.len();
    let ghost t = crate::text::trim_start(l@);
    proof {
        crate::text::lemma_first_non_ws_bounds(l@, 0);
    }
    assert(t.len() == n - s);
    let lone = n - s == 1 && l[s] == '|';
    let pre = n - s >= 2 && l[s] == '|' && (l[s + 1] == ' ' || l[s + 1] == '\t');
    proof {
        if n - s == 1 {
            assert(t[0] == l@[s as int]);
            if l@[s as int] == '|' {
                assert(t =~= seq!['|']);
            }
        }
        if n - s >= 2 {
            assert(t[0] == l@[s as int]);
            assert(t[1] == l@[s + 1]);
            assert(t.take(2) =~= seq![t[0], t[1]]);
        }
        if n - s < 2 {
            assert(!crate::text::starts_with(t, seq!['|', ' ']));
        }
    }
    (lone, pre, s)
}

fn rest_is_table_sep_exec(l: &[char], from: usize) -> (r: bool)
    requires
        from <= l@.len(),
    ensures
        r == rest_is_table_sep(l@.skip(from as int)),
{
    let ghost rest = l@.skip(from as int);
    assert(l@.subrange(from as int, l@.len() as int) =~= rest);
    if crate::text::is_blank_range(l, from, l.len()) {
        return false;
    }
    let mut k: usize = from;
    while k < l.len()
        invariant
            from <= k <= l@.len(),
            rest == l@.skip(from as int),
            forall|m: int|
                0 <= m < k - from ==> (#[trigger] rest[m] == '|' || rest[m] == '-' || rest[m]
                    == ':' || rest[m] == ' ' || rest[m] == '\t'),
        decreases l.len() - k,
    {
        let ch = l[k];
        assert(rest[k - from] == ch);
        if !(ch == '|' || ch == '-' || ch == ':' || ch == ' ' || ch == '\t') {
            return false;
        }
        k += 1;
    }
    true
}

fn tabular_rest_exec(l: &[char], from: usize) -> (r: bool)
    requires
        from <= l@.len(),
    ensures
        r == is_tabular_rest(l@.skip(from as int)),
{
    let ghost rest = l@.skip(from as int);
    if rest_is_table_sep_exec(l, from) {
        return true;
    }
    let mut k: usize = from;
    while k < l.len()
        invariant
            from <= k <= l@.len(),
            rest == l@.skip(from as int),
            forall|m: int| 0 <= m < k - from ==> rest[m] != '|',
        decreases l.len() - k,
    {
        assert(rest[k - from] == l@[k as int]);
        if l[k] == '|' {
            assert(rest.contains('|'));
            return true;
        }
        k += 1;
    }
    false
}

/// Pandoc line blocks (consecutive lines starting with `| `; a lone `|` is a
/// stanza break) → Markdown hard breaks: the `|` prefix is stripped and a `\`
/// ends each verse line that another verse line follows. Runs that hold a
/// pipe-table line (a separator row, or an inline `|` separator) are kept as
/// they are.
pub fn normalize_line_blocks(markdown: &str) -> (r: String)
    ensures
        r@ == line_blocks(markdown@),
{
    let v = chars_of(markdown);
    let lines = split_chars(&v, '\n');
    let ghost ls = split_char(v@, '\n');
    let n = lines.len();
    let mut out: Vec<String> = Vec::new();
    let mut i: usize = 0;
    while i < n
        invariant
            0 <= i <= n,
            n == lines@.len(),
            lines@.len() == ls.len(),
            ls == split_char(v@, '\n'),
            forall|m: int| 0 <= m < lines@.len() ==> #[trigger] lines@[m]@ == ls[m],
            line_blocks_from(ls, 0) == out@.map_values(|p: String| p@) + line_blocks_from(ls, i as int),
        decreases n - i,
    {
        let ghost ov = out@.map_values(|p: String| p@);
        let (lone, pre, _s) = classify_line(&lines[i]);
        if lone || pre {
            let start = i;
            let mut j: usize = i;
            let mut has_sep = false;
            while j < n
                invariant_except_break
                    run_end(ls, start as int) == run_end(ls, j as int),
                invariant
                    start <= j <= n,
                    n == lines@.len(),
                    lines@.len() == ls.len(),
                    forall|m: int| 0 <= m < lines@.len() ==> #[trigger] lines@[m]@ == ls[m],
                    has_sep == exists|k: int| start <= k < j && is_tabular_rest(
                        #[trigger] crate::text::trim_start(ls[k]).skip(1),
                    ),
                ensures
                    run_end(ls, start as int) == j,
                decreases n - j,
            {
                let (l2, p2, s2) = classify_line(&lines[j]);
                if l2 || p2 {
                    proof {
                        crate::text::lemma_first_non_ws_bounds(ls[j as int], 0);
                        let t = crate::text::trim_start(ls[j as int]);
                        assert(t.len() == lines@[j as int]@.len() - s2);
                        if !l2 {
                            assert(t.take(2) == seq!['|', ' '] || t.take(2) == seq!['|', '\t']);
                        }
                        assert(t.len() >= 1);
                    }
                    let lj = lines[j].len();
                    assert(s2 < lj);
                    let sep = tabular_rest_exec(&lines[j], s2 + 1);
                    proof {
                        assert(lines@[j as int]@.skip(s2 + 1) =~= crate::text::trim_start(
                            ls[j as int],
                        ).skip(1));
                    }
                    if sep {
                        has_sep = true;
                    }
                    j += 1;
                } else {
                    break;
                }
            }
            proof {
                lemma_run_end(ls, start as int);
                lemma_run_end(ls, start + 1);
                assert(is_block_line(ls[start as int]));
                assert(j > start);
            }
            let ghost piece = if run_has_sep(ls, start as int, j as int) {
                ls.subrange(start as int, j as int)
            } else {
                Seq::new((j - start) as nat, |m: int| verse_line(ls, start + m, j as int))
            };
            let mut k: usize = start;
            while k < j
                invariant
                    start <= k <= j <= n,
                    n == lines@.len(),
                    lines@.len() == ls.len(),
                    forall|m: int| 0 <= m < lines@.len() ==> #[trigger] lines@[m]@ == ls[m],
                    has_sep == run_has_sep(ls, start as int, j as int),
                    forall|m: int| start <= m < j ==> is_block_line(#[trigger] ls[m]),
                    piece == (if run_has_sep(ls, start as int, j as int) {
                        ls.subrange(start as int, j as int)
                    } else {
                        Seq::new((j - start) as nat, |m: int| verse_line(ls, start + m, j as int))
                    }),
                    out@.map_values(|p: String| p@) == ov + piece.take(k - start),
                decreases j - k,
            {
                let ghost before = out@.map_values(|p: String| p@);
                let line: String = if has_sep {
                    crate::text::string_of_range(&lines[k], 0, lines[k].len())
                } else {
                    let (lk, _pk, sk) = classify_line(&lines[k]);
                    proof {
                        crate::text::lemma_first_non_ws_bounds(ls[k as int], 0);
                    }
                    if lk {
                        String::new()
                    } else {
                        proof {
                            let t = crate::text::trim_start(ls[k as int]);
                            assert(is_block_line(ls[k as int]));
                            assert(t.take(2) == seq!['|', ' '] || t.take(2) == seq!['|', '\t']);
                            assert(t.len() == lines@[k as int]@.len() - sk);
                        }
                        let lkl = lines[k].len();
                        assert(sk < lkl);
                        let lv = &lines[k];
                        let mut c0: usize = sk + 1;
                        while c0 < lv.len() && (lv[c0] == ' ' || lv[c0] == '\t')
                            invariant
                                sk + 1 <= c0 <= lv@.len(),
                                strip_sp_tab(lv@.skip(sk + 1)) == strip_sp_tab(lv@.skip(c0 as int)),
                            decreases lv.len() - c0,
                        {
                            assert(lv@.skip(c0 as int).drop_first() =~= lv@.skip(c0 + 1));
                            c0 += 1;
                        }
                        let mut content = crate::text::string_of_range(lv, c0, lv.len());
                        let next_verse = if k + 1 < j {
                            let (ln, pn, _sn) = classify_line(&lines[k + 1]);
                            !ln && pn
                        } else {
                            false
                        };
                        if next_verse {
                            push_char(&mut content, '\\');
                        }
                        proof {
                            assert(lv@.subrange(c0 as int, lv@.len() as int) =~= lv@.skip(c0 as int));
                            if c0 < lv@.len() {
                                assert(lv@[c0 as int] != ' ' && lv@[c0 as int] != '\t');
                            }
                            assert(strip_sp_tab(lv@.skip(c0 as int)) == lv@.skip(c0 as int));
                            assert(lv@.skip(sk + 1) =~= crate::text::trim_start(ls[k as int]).skip(1));
                        }
                        content
                    }
                };
                proof {
                    if has_sep {
                        assert(line@ =~= ls[k as int]);
                    }
                    assert(line@ == piece[k - start]);
                }
                out.push(line);
                assert(out@.map_values(|p: String| p@) =~= before.push(piece[k - start]));
                assert(piece.take(k + 1 - start) =~= piece.take(k - start).push(piece[k - start]));
                k += 1;
            }
            proof {
                assert(piece.take(j - start) =~= piece);
                assert(line_blocks_from(ls, i as int) == piece + line_blocks_from(ls, j as int));
            }
            i = j;
        } else {
            let line = crate::text::string_of_range(&lines[i], 0, lines[i].len());
            assert(line@ =~= ls[i as int]);
            out.push(line);
            assert(out@.map_values(|p: String| p@) =~= ov.push(ls[i as int]));
            i += 1;
        }
    }
    let mut r = String::new();
    push_joined(&mut r, &out, "\n");
    r
}


// ---------------------------------------------------------------------------
// Frontmatter variables
// ---------------------------------------------------------------------------

/// `s` without its leading `ch`s (`trim_start_matches(ch)`).
pub open spec fn strip_leading(s: Seq<char>, ch: char) -> Seq<char>
    decreases s.len(),
{
    if s.len() > 0 && s[0] == ch {
        strip_leading(s.drop_first(), ch)
    } else {
        s
    }
}

/// Index of the first line at or after `k` that is exactly `---`.
pub open spec fn fence_from(ls: Seq<Seq<char>>, k: int) -> Option<int>
    decreases ls.len() - k,
{
    if k < 0 || k >= ls.len() {
        None
    } else if ls[k] == "---"@ {
        Some(k)
    } else {
        fence_from(ls, k + 1)
    }
}

/// Lines `ls[lo..hi]`, each followed by `'\n'`.
pub open spec fn line_block(ls: Seq<Seq<char>>, lo: int, hi: int) -> Seq<char>
    decreases hi - lo,
{
    if hi <= lo {
        Seq::<char>::empty()
    } else {
        line_block(ls, lo, hi - 1) + ls[hi - 1] + "\n"@
    }
}

/// The raw YAML of the frontmatter: after leading byte-order marks, the lines
/// between a first line `---` and the next line `---`; `None` without both.
pub open spec fn frontmatter_block(md: Seq<char>) -> Option<Seq<char>> {
    let ls = lines(strip_leading(md, '\u{feff}'));
    if ls.len() == 0 || ls[0] != "---"@ {
        None
    } else {
        match fence_from(ls, 1) {
            None => None,
            Some(e) => Some(line_block(ls, 1, e)),
        }
    }
}

/// The fields that mdxport consumes itself.
pub open spec fn is_standard_key(k: Seq<char>) -> bool {
    k == "title"@ || k == "authors"@ || k == "lang"@ || k == "toc"@
}

/// The text a YAML value is handed to a template as: a string as it is, a
/// number as its text, a bool as `true` / `false`; other values are not handed
/// over.
pub open spec fn scalar_text(v: YamlScalar) -> Option<Seq<char>> {
    match v {
        YamlScalar::Str(s) => Some(s),
        YamlScalar::Number(t) => Some(t),
        YamlScalar::Bool(b) => Some(bool_text(b)),
        _ => None,
    }
}

/// A mapping's entries as (key string, scalar text).
pub open spec fn scalar_entries(es: Seq<(Option<Seq<char>>, YamlScalar)>) -> Seq<
    (Option<Seq<char>>, Option<Seq<char>>),
> {
    es.map_values(|e: (Option<Seq<char>>, YamlScalar)| (e.0, scalar_text(e.1)))
}

/// The (key, text) pairs with a string key other than the standard fields and
/// a scalar text, in order.
pub open spec fn kept_vars(es: Seq<(Option<Seq<char>>, Option<Seq<char>>)>) -> Seq<
    (Seq<char>, Seq<char>),
>
    decreases es.len(),
{
    if es.len() == 0 {
        Seq::empty()
    } else {
        let p = kept_vars(es.drop_last());
        match es.last() {
            (Some(k), Some(v)) => if is_standard_key(k) {
                p
            } else {
                p.push((k, v))
            },
            _ => p,
        }
    }
}

/// The custom variables among a mapping's entries: string keys other than the
/// standard fields, with a string, number or bool value as its text, in order.
pub open spec fn custom_vars(es: Seq<(Option<Seq<char>>, YamlScalar)>) -> Seq<(Seq<char>, Seq<char>)> {
    kept_vars(scalar_entries(es))
}

/// The frontmatter's custom scalar variables; empty without a frontmatter
/// block or when the block is not a YAML mapping.
pub open spec fn frontmatter_vars(md: Seq<char>) -> Seq<(Seq<char>, Seq<char>)> {
    match frontmatter_block(md) {
        None => Seq::empty(),
        Some(b) => match yaml_entries(b) {
            None => Seq::empty(),
            Some(es) => custom_vars(es),
        },
    }
}

fn frontmatter_block_exec(markdown: &str) -> (r: Option<String>)
    ensures
        r.deep_view() == frontmatter_block(markdown@),
{
    let v = chars_of(markdown);
    let mut s: usize = 0;
    assert(v@.skip(0) =~= v@);
    while s < v.len() && v[s] == '\u{feff}'
        invariant
            s <= v@.len(),
            v@ == markdown@,
            strip_leading(v@, '\u{feff}') == strip_leading(v@.skip(s as int), '\u{feff}'),
        decreases v.len() - s,
    {
        assert(v@.skip(s as int).drop_first() =~= v@.skip(s + 1));
        s += 1;
    }
    let rest = crate::text::slice_vec(&v, s, v.len());
    assert(rest@ =~= strip_leading(v@, '\u{feff}'));
    let ls = lines_of(&rest);
    let ghost lv = ls@.map_values(|p: String| p@);
    if ls.len() == 0 {
        return None;
    }
    let first = chars_of(ls[0].as_str());
    if !eq_lit(&first, "---") {
        return None;
    }
    assert(lv[0] == ls@[0]@);
    let mut block = String::new();
    let mut k: usize = 1;
    while k < ls.len()
        invariant
            1 <= k <= ls@.len(),
            lv == ls@.map_values(|p: String| p@),
            lv == lines(strip_leading(markdown@, '\u{feff}')),
            lv[0] == "---"@,
            block@ == line_block(lv, 1, k as int),
            fence_from(lv, 1) == fence_from(lv, k as int),
        decreases ls.len() - k,
    {
        let lk = chars_of(ls[k].as_str());
        assert(lv[k as int] == ls@[k as int]@);
        assert(lv[0] == ls@[0]@);
        if eq_lit(&lk, "---") {
            assert(fence_from(lv, k as int) == Some(k as int));
            return Some(block);
        }
        let ghost b0 = block@;
        block.append(ls[k].as_str());
        push_char(&mut block, '\n');
        proof {
            reveal_strlit("\n");
            assert(block@ =~= b0 + lv[k as int] + "\n"@);
        }
        k += 1;
    }
    None
}

/// The custom variables among a mapping's entries: string keys other than
/// `title`, `authors`, `lang` and `toc` (which mdxport consumes), with a
/// string, number or bool value (a bool written `true` / `false`), in order.
pub fn custom_frontmatter_vars(entries: &Vec<(Option<String>, YamlValue)>) -> (r: Vec<
    (String, String),
>)
    ensures
        pairs_view(r@) == custom_vars(entries_view(entries@)),
{
    let ghost sv = scalar_entries(entries_view(entries@));
    let mut out: Vec<(String, String)> = Vec::new();
    let mut i: usize = 0;
    while i < entries.len()
        invariant
            0 <= i <= entries@.len(),
            sv == scalar_entries(entries_view(entries@)),
            pairs_view(out@) == kept_vars(sv.take(i as int)),
        decreases entries.len() - i,
    {
        assert(sv.take(i + 1).drop_last() =~= sv.take(i as int));
        let ghost before = pairs_view(out@);
        assert(sv[i as int] == (entries@[i as int].0.deep_view(), scalar_text(entries@[i as int].1@)));
        let text: Option<String> = match &entries[i].1 {
            YamlValue::Str(s) => Some(s.clone()),
            YamlValue::Number(t) => Some(t.clone()),
            YamlValue::Bool(b) => Some(String::from_str(if *b { "true" } else { "false" })),
            _ => None,
        };
        assert(text.deep_view() == scalar_text(entries@[i as int].1@));
        match (&entries[i].0, text) {
            (Some(k), Some(v)) => {
                let kc = chars_of(k.as_str());
                let standard = eq_lit(&kc, "title") || eq_lit(&kc, "authors") || eq_lit(&kc, "lang")
                    || eq_lit(&kc, "toc");
                if !standard {
                    out.push((k.clone(), v));
                    assert(pairs_view(out@) =~= before.push((k@, v@)));
                }
            },
            _ => {},
        }
        i += 1;
    }
    assert(sv.take(i as int) =~= sv);
    out
}

/// Read the Markdown YAML frontmatter (the raw `---` … `---` block) into
/// (key, value) pairs: only string/number/bool values (as text), without the
/// fields mdxport consumes (`title`, `authors`, `lang`, `toc`); empty when
/// there is no block or it does not parse as a mapping.
pub fn raw_frontmatter_map(markdown: &str) -> (r: Vec<(String, String)>)
    ensures
        pairs_view(r@) == frontmatter_vars(markdown@),
{
    match frontmatter_block_exec(markdown) {
        None => Vec::new(),
        Some(block) => match yaml_mapping_entries(block.as_str()) {
            None => Vec::new(),
            Some(es) => custom_frontmatter_vars(&es),
        },
    }
}


// ---------------------------------------------------------------------------
// Logo
// ---------------------------------------------------------------------------

/// The value of the last `logo` variable.
pub open spec fn last_logo(vars: Seq<(Seq<char>, Seq<char>)>) -> Option<Seq<char>>
    decreases vars.len(),
{
    if vars.len() == 0 {
        None
    } else if vars.last().0 == "logo"@ {
        Some(vars.last().1)
    } else {
        last_logo(vars.drop_last())
    }
}

/// The variables other than `logo` and `logo_format`, in order.
pub open spec fn without_logo(vars: Seq<(Seq<char>, Seq<char>)>) -> Seq<(Seq<char>, Seq<char>)>
    decreases vars.len(),
{
    if vars.len() == 0 {
        Seq::empty()
    } else {
        let p = without_logo(vars.drop_last());
        if vars.last().0 == "logo"@ || vars.last().0 == "logo_format"@ {
            p
        } else {
            p.push(vars.last())
        }
    }
}

/// The logo's bytes: the last `logo` value, decoded as standard base64.
pub open spec fn logo_bytes(vars: Seq<(Seq<char>, Seq<char>)>) -> Option<Seq<u8>> {
    match last_logo(vars) {
        Some(b) => base64_standard_decode(b),
        None => None,
    }
}

/// The variables handed to the template: without `logo` / `logo_format`, and
/// with a `logo: "1"` flag when a logo was decoded.
pub open spec fn vars_after_logo(vars: Seq<(Seq<char>, Seq<char>)>) -> Seq<(Seq<char>, Seq<char>)> {
    if logo_bytes(vars) is Some {
        without_logo(vars).push(("logo"@, "1"@))
    } else {
        without_logo(vars)
    }
}

/// Extract `logo` (base64) from the frontmatter variables and decode it;
/// returns (remaining variables, optional logo bytes). When a logo is decoded,
/// a `logo: "1"` flag is added so templates can test `_v("logo")`.
pub fn extract_logo(vars: Vec<(String, String)>) -> (r: (Vec<(String, String)>, Option<Vec<u8>>))
    ensures
        pairs_view(r.0@) == vars_after_logo(pairs_view(vars@)),
        r.1.deep_view() == logo_bytes(pairs_view(vars@)),
{
    let ghost pv = pairs_view(vars@);
    let mut logo_b64: Option<String> = None;
    let mut out: Vec<(String, String)> = Vec::new();
    let mut i: usize = 0;
    while i < vars.len()
        invariant
            0 <= i <= vars@.len(),
            pv == pairs_view(vars@),
            pairs_view(out@) == without_logo(pv.take(i as int)),
            logo_b64.deep_view() == last_logo(pv.take(i as int)),
        decreases vars.len() - i,
    {
        assert(pv.take(i + 1).drop_last() =~= pv.take(i as int));
        let ghost before = pairs_view(out@);
        let kc = chars_of(vars[i].0.as_str());
        if eq_lit(&kc, "logo") {
            logo_b64 = Some(vars[i].1.clone());
        } else if eq_lit(&kc, "logo_format") {
        } else {
            out.push((vars[i].0.clone(), vars[i].1.clone()));
            assert(pairs_view(out@) =~= before.push(pv[i as int]));
        }
        i += 1;
    }
    assert(pv.take(i as int) =~= pv);
    let logo = match logo_b64 {
        Some(b) => decode_base64(b.as_str()),
        None => None,
    };
    if logo.is_some() {
        let ghost before = pairs_view(out@);
        out.push((String::from_str("logo"), String::from_str("1")));
        assert(pairs_view(out@) =~= before.push(("logo"@, "1"@)));
    }
    (out, logo)
}

// ---------------------------------------------------------------------------
// Composing the document
// ---------------------------------------------------------------------------

/// Escape a string for a Typst double-quoted literal (`\` and `"`).
pub fn escape_vars_string(input: &str) -> (r: String)
    ensures
        r@ == escape_typst_string(input@),
{
    let a = replace_str(input, "\\", "\\\\");
    replace_str(a.as_str(), "\"", "\\\"")
}

/// `lang` and the like for a Typst string literal: `\` and `"` escaped,
/// newlines turned into spaces.
pub open spec fn escape_line_string(s: Seq<char>) -> Seq<char> {
    replace_all(escape_typst_string(s), "\n"@, " "@)
}

/// Escape `lang` etc.: only backslashes, quotes and newlines.
pub fn escape_string(input: &str) -> (r: String)
    ensures
        r@ == escape_line_string(input@),
{
    let a = escape_vars_string(input);
    replace_str(a.as_str(), "\n", " ")
}

/// The words of Typst's code syntax that are no identifier: its keywords and
/// `_`. (The keyword that loads another file is written in two pieces here.)
pub open spec fn is_reserved_word(k: Seq<char>) -> bool {
    ||| k == "none"@ || k == "auto"@ || k == "true"@ || k == "false"@
    ||| k == "not"@ || k == "and"@ || k == "or"@
    ||| k == "let"@ || k == "set"@ || k == "show"@ || k == "context"@
    ||| k == "if"@ || k == "else"@ || k == "for"@ || k == "in"@ || k == "while"@
    ||| k == "break"@ || k == "continue"@ || k == "return"@
    ||| k == "import"@ || k == "in"@ + "clude"@ || k == "as"@
    ||| k == "_"@
}

/// A variable name as a Typst dictionary key: `-` becomes `_`; only a
/// non-empty `[A-Za-z0-9_]` name not starting with a digit and not a reserved
/// word (a keyword or `_`) is a key.
pub open spec fn dict_key(name: Seq<char>) -> Option<Seq<char>> {
    let key = name.map_values(|c: char| if c == '-' { '_' } else { c });
    if key.len() > 0 && !is_ascii_digit(key[0]) && (forall|k: int|
        0 <= k < key.len() ==> is_ascii_alnum(#[trigger] key[k]) || key[k] == '_')
        && !is_reserved_word(key) {
        Some(key)
    } else {
        None
    }
}

fn reserved_word(v: &[char]) -> (r: bool)
    ensures
        r == is_reserved_word(v@),
{
    let mut load = String::from_str("in");
    load.append("clude");
    eq_lit(v, "none") || eq_lit(v, "auto") || eq_lit(v, "true") || eq_lit(v, "false")
        || eq_lit(v, "not") || eq_lit(v, "and") || eq_lit(v, "or") || eq_lit(v, "let")
        || eq_lit(v, "set") || eq_lit(v, "show") || eq_lit(v, "context") || eq_lit(v, "if")
        || eq_lit(v, "else") || eq_lit(v, "for") || eq_lit(v, "in") || eq_lit(v, "while")
        || eq_lit(v, "break") || eq_lit(v, "continue") || eq_lit(v, "return") || eq_lit(
        v,
        "import",
    ) || eq_lit(v, load.as_str()) || eq_lit(v, "as") || eq_lit(v, "_")
}

/// Turn a frontmatter variable name into a Typst dictionary key (`-` becomes
/// `_`); `None` when the name cannot be a Typst identifier (a keyword among
/// them), so that keys from user-authored frontmatter cannot inject Typst code.
pub fn typst_dict_key(name: &str) -> (r: Option<String>)
    ensures
        r.deep_view() == dict_key(name@),
{
    let v = chars_of(name);
    let ghost key = name@.map_values(|c: char| if c == '-' { '_' } else { c });
    let mut out = String::new();
    let mut valid = v.len() > 0;
    let mut k: usize = 0;
    while k < v.len()
        invariant
            0 <= k <= v@.len(),
            v@ == name@,
            key == name@.map_values(|c: char| if c == '-' { '_' } else { c }),
            out@ == key.take(k as int),
            valid == (key.len() > 0 && forall|m: int|
                0 <= m < k ==> is_ascii_alnum(#[trigger] key[m]) || key[m] == '_'),
        decreases v.len() - k,
    {
        let c = if v[k] == '-' { '_' } else { v[k] };
        assert(key[k as int] == c);
        if !(is_ascii_alnum_char(c) || c == '_') {
            valid = false;
        }
        push_char(&mut out, c);
        assert(key.take(k + 1) =~= key.take(k as int).push(c));
        k += 1;
    }
    assert(key.take(k as int) =~= key);
    if valid && !is_ascii_digit_char(if v[0] == '-' { '_' } else { v[0] }) {
        let kc = chars_of(out.as_str());
        if reserved_word(&kc) {
            None
        } else {
            Some(out)
        }
    } else {
        None
    }
}

/// A Typst string literal holding `s`.
pub open spec fn quoted(s: Seq<char>) -> Seq<char> {
    "\""@ + escape_typst_string(s) + "\""@
}

pub open spec fn title_value(title: Option<Seq<char>>) -> Seq<char> {
    match title {
        Some(v) => if is_blank(v) {
            "none"@
        } else {
            quoted(v)
        },
        None => "none"@,
    }
}

/// The authors as a Typst array (a one-element array keeps its trailing comma).
pub open spec fn authors_value(authors: Seq<Seq<char>>) -> Seq<char> {
    if authors.len() == 0 {
        "()"@
    } else {
        let f = join(authors.map_values(|a: Seq<char>| quoted(a)), ", "@);
        if authors.len() == 1 {
            "("@ + f + ",)"@
        } else {
            "("@ + f + ")"@
        }
    }
}

/// The `key: "value"` entries of the variables whose names are dictionary keys.
pub open spec fn dict_entries(vars: Seq<(Seq<char>, Seq<char>)>) -> Seq<Seq<char>>
    decreases vars.len(),
{
    if vars.len() == 0 {
        Seq::empty()
    } else {
        let p = dict_entries(vars.drop_last());
        match dict_key(vars.last().0) {
            Some(k) => p.push(k + ": "@ + quoted(vars.last().1)),
            None => p,
        }
    }
}

/// The `_somadoc_vars` dictionary line (an empty dictionary is `(:)`).
pub open spec fn vars_header(vars: Seq<(Seq<char>, Seq<char>)>) -> Seq<char> {
    let es = dict_entries(vars);
    if es.len() == 0 {
        "#let _somadoc_vars = (:)\n\n"@
    } else {
        "#let _somadoc_vars = ("@ + join(es, ", "@) + ")\n\n"@
    }
}

pub open spec fn bool_text(b: bool) -> Seq<char> {
    if b {
        "true"@
    } else {
        "false"@
    }
}

/// The composed document: the variables dictionary, the template, then the
/// `#article(...)[body]` call.
pub open spec fn composed(
    template: Seq<char>,
    vars: Seq<(Seq<char>, Seq<char>)>,
    title: Option<Seq<char>>,
    authors: Seq<Seq<char>>,
    lang: Seq<char>,
    toc: bool,
    body: Seq<char>,
) -> Seq<char> {
    vars_header(vars) + template + "\n\n"@ + "#article(title: "@ + title_value(title)
        + ", authors: "@ + authors_value(authors) + ", lang: \""@ + escape_line_string(lang)
        + "\", toc: "@ + bool_text(toc) + ")["@ + "\n"@ + body + "\n"@ + "]\n"@
}

fn quoted_exec(s: &str) -> (r: String)
    ensures
        r@ == quoted(s@),
{
    let mut q = String::new();
    q.append("\"");
    q.append(escape_vars_string(s).as_str());
    q.append("\"");
    q
}

fn authors_value_exec(authors: &[String]) -> (r: String)
    ensures
        r@ == authors_value(authors@.map_values(|a: String| a@)),
{
    let ghost av = authors@.map_values(|a: String| a@);
    if authors.len() == 0 {
        return String::from_str("()");
    }
    let mut parts: Vec<String> = Vec::new();
    let mut i: usize = 0;
    while i < authors.len()
        invariant
            0 <= i <= authors@.len(),
            av == authors@.map_values(|a: String| a@),
            parts@.map_values(|p: String| p@) == av.take(i as int).map_values(
                |a: Seq<char>| quoted(a),
            ),
        decreases authors.len() - i,
    {
        let ghost before = parts@.map_values(|p: String| p@);
        assert(av[i as int] == authors@[i as int]@);
        parts.push(quoted_exec(authors[i].as_str()));
        assert(av.take(i + 1).map_values(|a: Seq<char>| quoted(a)) =~= av.take(i as int).map_values(
            |a: Seq<char>| quoted(a),
        ).push(quoted(av[i as int])));
        assert(parts@.map_values(|p: String| p@) =~= before.push(quoted(av[i as int])));
        i += 1;
    }
    assert(av.take(i as int) =~= av);
    let mut out = String::from_str("(");
    push_joined(&mut out, &parts, ", ");
    if authors.len() == 1 {
        out.append(",)");
    } else {
        out.append(")");
    }
    out
}

fn vars_header_exec(vars: &[(String, String)]) -> (r: String)
    ensures
        r@ == vars_header(pairs_view(vars@)),
{
    let ghost pv = pairs_view(vars@);
    let mut entries: Vec<String> = Vec::new();
    let mut i: usize = 0;
    while i < vars.len()
        invariant
            0 <= i <= vars@.len(),
            pv == pairs_view(vars@),
            entries@.map_values(|p: String| p@) == dict_entries(pv.take(i as int)),
        decreases vars.len() - i,
    {
        assert(pv.take(i + 1).drop_last() =~= pv.take(i as int));
        let ghost before = entries@.map_values(|p: String| p@);
        match typst_dict_key(vars[i].0.as_str()) {
            Some(key) => {
                let mut e = key;
                e.append(": ");
                e.append(quoted_exec(vars[i].1.as_str()).as_str());
                entries.push(e);
                assert(entries@.map_values(|p: String| p@) =~= before.push(
                    dict_entries(pv.take(i + 1)).last(),
                ));
            },
            None => {},
        }
        i += 1;
    }
    assert(pv.take(i as int) =~= pv);
    if entries.len() == 0 {
        String::from_str("#let _somadoc_vars = (:)\n\n")
    } else {
        let mut out = String::from_str("#let _somadoc_vars = (");
        push_joined(&mut out, &entries, ", ");
        out.append(")\n\n");
        out
    }
}

/// Compose a Typst document from a custom `template.typ`: a
/// `#let _somadoc_vars = (...)` dictionary of the variables (with `-` in keys
/// turned into `_`, names that are no Typst identifier dropped) before the
/// template source, then the `#article(...)[body]` call.
pub fn compose_document_with_vars(
    template: &str,
    vars: &[(String, String)],
    title: Option<&str>,
    authors: &[String],
    lang: &str,
    toc: bool,
    body: &str,
) -> (r: String)
    ensures
        r@ == composed(
            template@,
            pairs_view(vars@),
            match title {
                Some(t) => Some(t@),
                None => None,
            },
            authors@.map_values(|a: String| a@),
            lang@,
            toc,
            body@,
        ),
{
    let tv = match title {
        Some(v) => {
            let tc = chars_of(v);
            assert(tc@.subrange(0, tc@.len() as int) =~= v@);
            if is_blank_range(&tc, 0, tc.len()) {
                String::from_str("none")
            } else {
                quoted_exec(v)
            }
        },
        None => String::from_str("none"),
    };
    assert(tv@ == title_value(
        match title {
            Some(t) => Some(t@),
            None => None,
        },
    ));
    let mut source = vars_header_exec(vars);
    source.append(template);
    source.append("\n\n");
    source.append("#article(title: ");
    source.append(tv.as_str());
    source.append(", authors: ");
    source.append(authors_value_exec(authors).as_str());
    source.append(", lang: \"");
    source.append(escape_string(lang).as_str());
    source.append("\", toc: ");
    source.append(if toc { "true" } else { "false" });
    source.append(")[");
    source.append("\n");
    source.append(body);
    source.append("\n");
    source.append("]\n");
    source
}


// ---------------------------------------------------------------------------
// The whole composition
// ---------------------------------------------------------------------------

/// The Markdown body handed to mdxport, with the tables to restore after it:
/// block markers injected, line blocks rewritten, then images and LaTeX
/// commands protected. (body, image snippets, image bytes, LaTeX snippets)
pub open spec fn prepared_body(blocks: Seq<(nat, Seq<char>)>, images: Seq<InlineImage>) -> (
    Seq<char>,
    Reps,
    Seq<(Seq<char>, Seq<u8>)>,
    Reps,
) {
    let lb = line_blocks(marked_blocks(blocks));
    let (b1, img_reps, bytes) = img_scan(lb, 0, images, Seq::empty(), Seq::empty());
    let (b2, tex_reps) = tr_scan(b1, 0, Seq::empty());
    (b2, img_reps, bytes, tex_reps)
}

/// The converted Typst body with the snippets restored (images, then LaTeX),
/// bottom rules under the tables and half-width thematic breaks.
pub open spec fn finished_body(converted: Seq<char>, img_reps: Reps, tex_reps: Reps) -> Seq<char> {
    let b = restore_all(restore_all(converted, img_reps), tex_reps);
    replace_all(
        with_bottom_rules(b, 0),
        "#line(length: 100%, stroke: 0.5pt)"@,
        "#line(length: 50%, stroke: 0.5pt)"@,
    )
}

/// The final Typst source for `markdown` with the custom template, the logo
/// bytes, the image bytes and the located anchors; or the error's message.
pub open spec fn typst_source(markdown: Seq<char>, custom: Seq<char>, images: Seq<InlineImage>) -> Result<
    (Seq<char>, Option<Seq<u8>>, Seq<(Seq<char>, Seq<u8>)>, Seq<(nat, usize, usize)>),
    Seq<char>,
> {
    match mdxport_split_frontmatter(markdown) {
        Err(e) => Err("frontmatter parsing failed: "@ + e),
        Ok((fm, md_body)) => {
            let blocks = blocks_of(strip_leading(md_body, '\n'));
            let fvars = frontmatter_vars(markdown);
            let (body, img_reps, bytes, tex_reps) = prepared_body(blocks, images);
            match markdown_conversion(body, fm) {
                Err(e) => Err("markdown → typst conversion failed: "@ + e),
                Ok((title, authors, lang, cbody, toc)) => {
                    let (marked, specs) = rect_markers(
                        finished_body(cbody, img_reps, tex_reps),
                        blocks,
                        0,
                    );
                    let src = composed(custom, vars_after_logo(fvars), title, authors, lang, toc, marked);
                    Ok((src, logo_bytes(fvars), bytes, located(src, specs)))
                },
            }
        },
    }
}

fn strip_leading_str(s: &str, ch: char) -> (r: String)
    ensures
        r@ == strip_leading(s@, ch),
{
    let v = chars_of(s);
    let mut k: usize = 0;
    assert(v@.skip(0) =~= v@);
    while k < v.len() && v[k] == ch
        invariant
            k <= v@.len(),
            v@ == s@,
            strip_leading(v@, ch) == strip_leading(v@.skip(k as int), ch),
        decreases v.len() - k,
    {
        assert(v@.skip(k as int).drop_first() =~= v@.skip(k + 1));
        k += 1;
    }
    let r = crate::text::string_of_range(&v, k, v.len());
    assert(r@ =~= v@.skip(k as int));
    r
}

impl TypstEngine {
    /// Compose the final Typst source from Markdown and a custom template (shared
    /// by the PDF and SVG paths): (source, optional logo bytes, image bytes,
    /// anchor specs of the source map).
    pub fn build_typst_source(markdown: &str, custom: &str, images: &[InlineImage]) -> (r: Result<
        (String, Option<Vec<u8>>, Vec<(String, Vec<u8>)>, Vec<AnchorSpec>),
        RenderError,
    >)
        ensures
            match r {
                Ok((src, logo, bytes, anchors)) => typst_source(markdown@, custom@, images@) == Ok::<
                    _,
                    Seq<char>,
                >((src@, logo.deep_view(), bytes_view(bytes@), anchors_view(anchors@))),
                Err(e) => e matches RenderError::Engine(m) && typst_source(
                    markdown@,
                    custom@,
                    images@,
                ) == Err::<(Seq<char>, Option<Seq<u8>>, Seq<(Seq<char>, Seq<u8>)>, Seq<(nat, usize, usize)>), _>(m@),
            },
    {
        // 1. frontmatter (title/author/lang/toc) and body
        let (fm, md_body) = match split_frontmatter(markdown) {
            Ok(p) => p,
            Err(e) => {
                let mut m = String::from_str("frontmatter parsing failed: ");
                m.append(e.as_str());
                return Err(RenderError::Engine(m));
            },
        };
        // blocks on blank lines, with their body-relative start lines
        let blocks = split_into_blocks(strip_leading_str(md_body.as_str(), '\n').as_str());
        let (vars, logo) = extract_logo(raw_frontmatter_map(markdown));
        // 2. block markers, line blocks, images and LaTeX commands protected
        let marked_markdown = inject_block_markers_markdown(&blocks);
        let body = normalize_line_blocks(marked_markdown.as_str());
        let (body, image_inject) = protect_images(body.as_str(), images);
        let (body, latex_replacements) = protect_markdown(body.as_str());
        // 3. Markdown → Typst
        let converted = match convert_markdown_checked(body.as_str(), &fm) {
            Ok(d) => d,
            Err(e) => {
                let mut m = String::from_str("markdown → typst conversion failed: ");
                m.append(e.as_str());
                return Err(RenderError::Engine(m));
            },
        };
        // 4. snippets restored, booktabs bottom rules, half-width thematic breaks
        let b = restore_images(converted.body.as_str(), &image_inject.replacements);
        let b = restore_placeholders(b.as_str(), &latex_replacements);
        let b = inject_table_bottom_rules(b.as_str());
        let b = normalize_thematic_breaks(b.as_str());
        // 5. block markers → invisible #rect anchors
        let (marked_body, anchor_specs) = replace_block_markers_with_rect(b.as_str(), &blocks);
        // 6. template + variables dictionary + #article call
        let title = match &converted.title {
            Some(t) => Some(t.as_str()),
            None => None,
        };
        let final_source = compose_document_with_vars(
            custom,
            vars.as_slice(),
            title,
            converted.authors.as_slice(),
            converted.lang.as_str(),
            converted.toc,
            marked_body.as_str(),
        );
        // 7. each marker's byte range in the final source
        let anchors = locate_anchor_ranges(final_source.as_str(), anchor_specs);
        proof {
            let blocks_v = blocks_of(strip_leading(md_body@, '\n'));
            assert(blocks_view(blocks@) == blocks_v);
            let fvars = frontmatter_vars(markdown@);
            let pb = prepared_body(blocks_v, images@);
            assert(body@ == pb.0);
            assert(reps_view(image_inject.replacements@) == pb.1);
            assert(bytes_view(image_inject.bytes@) == pb.2);
            assert(reps_view(latex_replacements@) == pb.3);
            assert(b@ == finished_body(converted.body@, pb.1, pb.3));
            assert(pairs_view(vars@) == vars_after_logo(fvars));
            assert((match title {
                Some(t) => Some(t@),
                None => None,
            }) == converted.title.deep_view());
            assert(converted.authors@.map_values(|a: String| a@) =~= converted.authors.deep_view());
        }
        Ok((final_source, logo, image_inject.bytes, anchors))
    }
}

// ---------------------------------------------------------------------------
// Render paths: what the engine decides around compilation
// ---------------------------------------------------------------------------

/// The error of a live preview without a custom template.
pub open spec fn no_template_for_preview() -> Seq<char> {
    "live preview only supports typst templates with template.typ"@
}

/// The Typst source of a live preview: live preview needs a custom
/// `template.typ`; with one, the source is composed as for the PDF path.
pub fn live_preview_source(markdown: &str, custom: Option<&str>, images: &[InlineImage]) -> (r: Result<
    (String, Option<Vec<u8>>, Vec<(String, Vec<u8>)>, Vec<AnchorSpec>),
    RenderError,
>)
    ensures
        match custom {
            None => r matches Err(RenderError::Engine(m)) && m@ == no_template_for_preview(),
            Some(c) => match r {
                Ok((src, logo, bytes, anchors)) => typst_source(markdown@, c@, images@) == Ok::<
                    _,
                    Seq<char>,
                >((src@, logo.deep_view(), bytes_view(bytes@), anchors_view(anchors@))),
                Err(e) => e matches RenderError::Engine(m) && typst_source(
                    markdown@,
                    c@,
                    images@,
                ) == Err::<(Seq<char>, Option<Seq<u8>>, Seq<(Seq<char>, Seq<u8>)>, Seq<(nat, usize, usize)>), _>(m@),
            },
        },
{
    match custom {
        None => Err(
            RenderError::Engine(
                String::from_str("live preview only supports typst templates with template.typ"),
            ),
        ),
        Some(c) => TypstEngine::build_typst_source(markdown, c, images),
    }
}

/// How a blocking render task ended.
#[derive(Debug)]
pub enum TaskOutcome {
    /// The task ran: the rendered bytes, or the render's error.
    Finished(Result<Vec<u8>, RenderError>),
    /// The task did not complete; the text of its failure.
    Failed(String),
    /// The timeout elapsed first.
    TimedOut,
}

pub open spec fn engine_name(svg: bool) -> Seq<char> {
    if svg {
        "typst-svg"@
    } else {
        "typst"@
    }
}

pub open spec fn task_failed_prefix(svg: bool) -> Seq<char> {
    if svg {
        "svg typesetting task failed: "@
    } else {
        "typesetting task failed: "@
    }
}

pub open spec fn timed_out_suffix(svg: bool) -> Seq<char> {
    if svg {
        " typst svg typesetting timed out"@
    } else {
        " typst typesetting timed out"@
    }
}

/// The result of a render of template `slug` (PDF, or per-page SVG when `svg`)
/// from how its task ended: the bytes with the time taken and the engine's
/// name, the render's own error, or an engine error / timeout naming the cause.
pub fn finish_render(slug: &str, outcome: TaskOutcome, svg: bool, duration_ms: u64) -> (r: Result<
    RenderOutput,
    RenderError,
>)
    ensures
        match outcome {
            TaskOutcome::Finished(Ok(b)) => r matches Ok(o) && o.bytes@ == b@ && o.duration_ms
                == duration_ms && o.engine@ == engine_name(svg),
            TaskOutcome::Finished(Err(e)) => r == Err::<RenderOutput, _>(e),
            TaskOutcome::Failed(j) => r matches Err(RenderError::Engine(m)) && m@ == task_failed_prefix(
                svg,
            ) + j@,
            TaskOutcome::TimedOut => r matches Err(RenderError::Timeout(m)) && m@ == slug@
                + timed_out_suffix(svg),
        },
{
    match outcome {
        TaskOutcome::Finished(Ok(bytes)) => {
            let engine = if svg {
                String::from_str("typst-svg")
            } else {
                String::from_str("typst")
            };
            Ok(RenderOutput { bytes, duration_ms, engine })
        },
        TaskOutcome::Finished(Err(e)) => Err(e),
        TaskOutcome::Failed(j) => {
            let mut m = if svg {
                String::from_str("svg typesetting task failed: ")
            } else {
                String::from_str("typesetting task failed: ")
            };
            m.append(j.as_str());
            Err(RenderError::Engine(m))
        },
        TaskOutcome::TimedOut => {
            let mut m = String::from_str(slug);
            m.append(if svg {
                " typst svg typesetting timed out"
            } else {
                " typst typesetting timed out"
            });
            Err(RenderError::Timeout(m))
        },
    }
}


// ---------------------------------------------------------------------------
// The source map's order
// ---------------------------------------------------------------------------

/// Start lines that are at least 1 and strictly increase.
pub open spec fn lines_increase(ls: Seq<nat>) -> bool {
    &&& forall|a: int| 0 <= a < ls.len() ==> #[trigger] ls[a] >= 1
    &&& forall|a: int, b: int| 0 <= a < b < ls.len() ==> #[trigger] ls[a] < #[trigger] ls[b]
}

pub open spec fn block_lines(bl: Seq<(nat, Seq<char>)>) -> Seq<nat> {
    bl.map_values(|b: (nat, Seq<char>)| b.0)
}

proof fn lemma_block_state(q: Seq<Seq<char>>)
    ensures
        ({
            let (bl, cur, st) = block_state(q);
            &&& lines_increase(block_lines(bl))
            &&& forall|a: int| 0 <= a < bl.len() ==> #[trigger] bl[a].0 <= q.len()
            &&& cur.len() > 0 ==> 1 <= st <= q.len() && forall|a: int|
                0 <= a < bl.len() ==> #[trigger] bl[a].0 < st
        }),
    decreases q.len(),
{
    if q.len() > 0 {
        lemma_block_state(q.drop_last());
        let (bl, cur, st) = block_state(q.drop_last());
        let (bl2, cur2, st2) = block_state(q);
        if bl2 != bl {
            assert(bl2 == bl.push((st, join(cur, "\n"@))));
            assert(block_lines(bl2) =~= block_lines(bl).push(st));
        }
    }
}

/// Blocks start on increasing lines, each at least 1.
pub proof fn lemma_blocks_increase(body: Seq<char>)
    ensures
        lines_increase(block_lines(blocks_of(body))),
{
    let q = split_char(body, '\n').map_values(|l: Seq<char>| strip_trailing(l, '\r'));
    lemma_block_state(q);
    let (bl, cur, st) = block_state(q);
    if cur.len() > 0 {
        assert(block_lines(bl.push((st, join(cur, "\n"@)))) =~= block_lines(bl).push(st));
    }
}

/// The replaced markers are those of blocks `i`, `i + 1`, … in order.
proof fn lemma_rect_markers(rem: Seq<char>, blocks: Seq<(nat, Seq<char>)>, i: nat)
    ensures
        ({
            let sp = rect_markers(rem, blocks, i).1;
            &&& i + sp.len() <= blocks.len() || sp.len() == 0
            &&& forall|t: int| 0 <= t < sp.len() ==> #[trigger] sp[t] == (blocks[i + t].0, (i + t) as nat)
        }),
    decreases blocks.len() - i,
{
    if i < blocks.len() {
        match find_from(rem, block_marker(i), 0) {
            None => {},
            Some(pos) => {
                let rest = rem.skip(pos + block_marker(i).len());
                lemma_rect_markers(rest, blocks, i + 1);
                let sp2 = rect_markers(rest, blocks, i + 1).1;
                let sp = rect_markers(rem, blocks, i).1;
                assert(sp == seq![(blocks[i as int].0, i)] + sp2);
                assert forall|t: int| 0 <= t < sp.len() implies #[trigger] sp[t] == (
                    blocks[i + t].0,
                    (i + t) as nat,
                ) by {
                    if t > 0 {
                        assert(sp[t] == sp2[t - 1]);
                    }
                }
            },
        }
    }
}

pub open spec fn spec_lines(sp: Seq<(nat, nat)>) -> Seq<nat> {
    sp.map_values(|p: (nat, nat)| p.0)
}

pub open spec fn anchor_lines(a: Seq<(nat, usize, usize)>) -> Seq<nat> {
    a.map_values(|p: (nat, usize, usize)| p.0)
}

/// The located anchors keep the order of the specs.
proof fn lemma_located(src: Seq<char>, specs: Seq<(nat, nat)>)
    requires
        lines_increase(spec_lines(specs)),
    ensures
        lines_increase(anchor_lines(located(src, specs))),
        specs.len() > 0 ==> forall|t: int|
            0 <= t < located(src, specs).len() ==> #[trigger] located(src, specs)[t].0
                <= specs.last().0,
        specs.len() == 0 ==> located(src, specs).len() == 0,
    decreases specs.len(),
{
    if specs.len() > 0 {
        let p = specs.drop_last();
        assert(spec_lines(p) =~= spec_lines(specs).drop_last());
        lemma_located(src, p);
        let lp = located(src, p);
        let l = located(src, specs);
        assert(spec_lines(specs)[specs.len() - 1] == specs.last().0);
        assert(spec_lines(specs)[0] == specs[0].0);
        if p.len() > 0 {
            assert(spec_lines(specs)[p.len() - 1] < spec_lines(specs)[specs.len() - 1]);
            assert(p.last() == specs[p.len() - 1]);
        }
        if l != lp {
            assert(anchor_lines(l) =~= anchor_lines(lp).push(specs.last().0));
        }
    }
}

/// The anchors of the source map come in the order of their Markdown lines:
/// each at least 1, strictly increasing.
pub proof fn lemma_anchor_lines_increase(markdown: Seq<char>, custom: Seq<char>, images: Seq<InlineImage>)
    ensures
        typst_source(markdown, custom, images) matches Ok((_, _, _, anchors)) ==> lines_increase(
            anchor_lines(anchors),
        ),
{
    match mdxport_split_frontmatter(markdown) {
        Err(_) => {},
        Ok((fm, md_body)) => {
            let blocks = blocks_of(strip_leading(md_body, '\n'));
            lemma_blocks_increase(strip_leading(md_body, '\n'));
            let (body, img_reps, bytes, tex_reps) = prepared_body(blocks, images);
            match markdown_conversion(body, fm) {
                Err(_) => {},
                Ok((title, authors, lang, cbody, toc)) => {
                    let fb = finished_body(cbody, img_reps, tex_reps);
                    lemma_rect_markers(fb, blocks, 0);
                    let specs = rect_markers(fb, blocks, 0).1;
                    assert forall|a: int, b: int| 0 <= a < b < specs.len() implies #[trigger] spec_lines(
                        specs,
                    )[a] < #[trigger] spec_lines(specs)[b] by {
                        assert(block_lines(blocks)[a] < block_lines(blocks)[b]);
                    }
                    assert forall|a: int| 0 <= a < specs.len() implies #[trigger] spec_lines(specs)[a]
                        >= 1 by {
                        assert(block_lines(blocks)[a] >= 1);
                    }
                    let (marked, _) = rect_markers(fb, blocks, 0);
                    let fvars = frontmatter_vars(markdown);
                    let src = composed(custom, vars_after_logo(fvars), title, authors, lang, toc, marked);
                    lemma_located(src, specs);
                },
            }
        },
    }
}


// ---------------------------------------------------------------------------
// Laws
// ---------------------------------------------------------------------------

/// The frontmatter keys `title`, `authors`, `lang` and `toc` are consumed by
/// the engine; every other string key with a string, number or bool value is
/// forwarded to the template (with that value's text), and nothing else is.
pub proof fn lemma_custom_vars_members(
    es: Seq<(Option<Seq<char>>, YamlScalar)>,
    k: Seq<char>,
    v: Seq<char>,
)
    ensures
        custom_vars(es).contains((k, v)) <==> (!is_standard_key(k) && exists|i: int|
            0 <= i < es.len() && es[i].0 == Some(k) && #[trigger] scalar_text(es[i].1) == Some(v)),
{
    let se = scalar_entries(es);
    lemma_kept_vars_members(se, k, v);
    if se.contains((Some(k), Some(v))) {
        let w = choose|w: int| 0 <= w < se.len() && se[w] == (Some(k), Some(v));
        assert(es[w].0 == Some(k) && scalar_text(es[w].1) == Some(v));
    }
    if exists|i: int| 0 <= i < es.len() && es[i].0 == Some(k) && #[trigger] scalar_text(es[i].1) == Some(v) {
        let w = choose|i: int| 0 <= i < es.len() && es[i].0 == Some(k) && #[trigger] scalar_text(es[i].1) == Some(v);
        assert(se[w] == (Some(k), Some(v)));
    }
}

proof fn lemma_kept_vars_members(
    es: Seq<(Option<Seq<char>>, Option<Seq<char>>)>,
    k: Seq<char>,
    v: Seq<char>,
)
    ensures
        kept_vars(es).contains((k, v)) <==> (!is_standard_key(k) && es.contains(
            (Some(k), Some(v)),
        )),
    decreases es.len(),
{
    if es.len() > 0 {
        let p = es.drop_last();
        lemma_kept_vars_members(p, k, v);
        let cp = kept_vars(p);
        let c = kept_vars(es);
        let e = es.last();
        assert(es =~= p.push(e));
        // membership in `es` splits into `p` and the last entry
        assert(es.contains((Some(k), Some(v))) <==> (p.contains((Some(k), Some(v))) || e == (
            Some(k),
            Some(v),
        ))) by {
            if es.contains((Some(k), Some(v))) {
                let w = choose|w: int| 0 <= w < es.len() && es[w] == (Some(k), Some(v));
                if w < p.len() {
                    assert(p[w] == es[w]);
                }
            }
            if p.contains((Some(k), Some(v))) {
                let w = choose|w: int| 0 <= w < p.len() && p[w] == (Some(k), Some(v));
                assert(es[w] == p[w]);
            }
            if e == (Some(k), Some(v)) {
                assert(es[es.len() - 1] == e);
            }
        }
        match e {
            (Some(k2), Some(v2)) => {
                if !is_standard_key(k2) {
                    assert(c == cp.push((k2, v2)));
                    assert(c.contains((k, v)) <==> (cp.contains((k, v)) || (k2, v2) == (k, v))) by {
                        if c.contains((k, v)) {
                            let w = choose|w: int| 0 <= w < c.len() && c[w] == (k, v);
                            if w < cp.len() {
                                assert(cp[w] == c[w]);
                            }
                        }
                        if cp.contains((k, v)) {
                            let w = choose|w: int| 0 <= w < cp.len() && cp[w] == (k, v);
                            assert(c[w] == cp[w]);
                        }
                        if (k2, v2) == (k, v) {
                            assert(c[c.len() - 1] == (k2, v2));
                        }
                    }
                }
            },
            _ => {},
        }
    }
}

/// The composed document holds the template and the body verbatim: the
/// template right after the variables dictionary, the body inside the
/// `#article(...)[…]` call, on its own lines.
pub proof fn lemma_composed_keeps_template_and_body(
    template: Seq<char>,
    vars: Seq<(Seq<char>, Seq<char>)>,
    title: Option<Seq<char>>,
    authors: Seq<Seq<char>>,
    lang: Seq<char>,
    toc: bool,
    body: Seq<char>,
)
    ensures
        ({
            let d = composed(template, vars, title, authors, lang, toc, body);
            let h = vars_header(vars).len() as int;
            let tail = "\n"@ + body + "\n"@ + "]\n"@;
            &&& d.subrange(h, h + template.len()) == template
            &&& d.subrange(d.len() - tail.len(), d.len() as int) == tail
        }),
{
    let d = composed(template, vars, title, authors, lang, toc, body);
    let h = vars_header(vars).len() as int;
    let tail = "\n"@ + body + "\n"@ + "]\n"@;
    let mid = "\n\n"@ + "#article(title: "@ + title_value(title) + ", authors: "@ + authors_value(
        authors,
    ) + ", lang: \""@ + escape_line_string(lang) + "\", toc: "@ + bool_text(toc) + ")["@;
    assert(d =~= vars_header(vars) + template + mid + tail);
    assert(d.subrange(h, h + template.len()) =~= template);
    assert(d.subrange(d.len() - tail.len(), d.len() as int) =~= tail);
}

proof fn lemma_line_blocks_from_plain(ls: Seq<Seq<char>>, i: int)
    requires
        0 <= i <= ls.len(),
        forall|k: int| i <= k < ls.len() ==> !is_block_line(#[trigger] ls[k]),
    ensures
        line_blocks_from(ls, i) == ls.skip(i),
    decreases ls.len() - i,
{
    if i < ls.len() {
        lemma_line_blocks_from_plain(ls, i + 1);
        assert(ls.skip(i) =~= seq![ls[i]] + ls.skip(i + 1));
    } else {
        assert(ls.skip(i) =~= Seq::<Seq<char>>::empty());
    }
}

/// Text without line-block lines passes `normalize_line_blocks` unchanged.
pub proof fn lemma_line_blocks_plain(md: Seq<char>)
    requires
        forall|k: int|
            0 <= k < split_char(md, '\n').len() ==> !is_block_line(#[trigger] split_char(md, '\n')[k]),
    ensures
        line_blocks(md) == md,
{
    let ls = split_char(md, '\n');
    lemma_line_blocks_from_plain(ls, 0);
    assert(ls.skip(0) =~= ls);
    crate::text::lemma_join_split(md, '\n');
    reveal_strlit("\n");
    assert("\n"@ =~= seq!['\n']);
}

proof fn lemma_bottom_rules_plain(c: Seq<char>, i: int)
    requires
        0 <= i <= c.len(),
        forall|k: int| i <= k < c.len() ==> !#[trigger] table_open_at(c, k),
    ensures
        with_bottom_rules(c, i) == c.skip(i),
    decreases c.len() - i,
{
    if i < c.len() {
        lemma_bottom_rules_plain(c, i + 1);
        assert(c.skip(i) =~= seq![c[i]] + c.skip(i + 1));
    } else {
        assert(c.skip(i) =~= Seq::<char>::empty());
    }
}

/// A body without a top-level `#table(` passes `inject_table_bottom_rules`
/// unchanged.
pub proof fn lemma_bottom_rules_without_tables(body: Seq<char>)
    requires
        forall|k: int| 0 <= k < body.len() ==> !#[trigger] table_open_at(body, k),
    ensures
        with_bottom_rules(body, 0) == body,
{
    lemma_bottom_rules_plain(body, 0);
    assert(body.skip(0) =~= body);
}


// ---------------------------------------------------------------------------
// String literals cannot be left
// ---------------------------------------------------------------------------

/// Replacing the one character `c` by `rep` in `s`, character by character.
pub open spec fn replace_char(s: Seq<char>, c: char, rep: Seq<char>) -> Seq<char>
    decreases s.len(),
{
    if s.len() == 0 {
        Seq::<char>::empty()
    } else {
        (if s[0] == c {
            rep
        } else {
            seq![s[0]]
        }) + replace_char(s.drop_first(), c, rep)
    }
}

proof fn lemma_replace_one_char(s: Seq<char>, c: char, rep: Seq<char>)
    ensures
        replace_all(s, seq![c], rep) == replace_char(s, c, rep),
    decreases s.len(),
{
    if s.len() > 0 {
        lemma_replace_one_char(s.drop_first(), c, rep);
        assert(s.skip(1) =~= s.drop_first());
        if s[0] == c {
            assert(s.take(1) =~= seq![c]);
        } else {
            assert(s.take(1)[0] != c);
        }
    }
}

proof fn lemma_replace_char_concat(a: Seq<char>, b: Seq<char>, c: char, rep: Seq<char>)
    ensures
        replace_char(a + b, c, rep) == replace_char(a, c, rep) + replace_char(b, c, rep),
    decreases a.len(),
{
    if a.len() == 0 {
        assert(a + b =~= b);
    } else {
        lemma_replace_char_concat(a.drop_first(), b, c, rep);
        assert((a + b).drop_first() =~= a.drop_first() + b);
        assert((a + b)[0] == a[0]);
    }
}

/// One character as it stands inside a Typst string literal.
pub open spec fn escaped_char(c: char) -> Seq<char> {
    if c == '\\' {
        seq!['\\', '\\']
    } else if c == '"' {
        seq!['\\', '"']
    } else {
        seq![c]
    }
}

pub open spec fn escaped_chars(s: Seq<char>) -> Seq<char>
    decreases s.len(),
{
    if s.len() == 0 {
        Seq::<char>::empty()
    } else {
        escaped_char(s[0]) + escaped_chars(s.drop_first())
    }
}

proof fn lemma_escape_by_char(s: Seq<char>)
    ensures
        replace_char(replace_char(s, '\\', seq!['\\', '\\']), '"', seq!['\\', '"'])
            == escaped_chars(s),
    decreases s.len(),
{
    if s.len() > 0 {
        lemma_escape_by_char(s.drop_first());
        let first = if s[0] == '\\' {
            seq!['\\', '\\']
        } else {
            seq![s[0]]
        };
        lemma_replace_char_concat(
            first,
            replace_char(s.drop_first(), '\\', seq!['\\', '\\']),
            '"',
            seq!['\\', '"'],
        );
        let f = replace_char(first, '"', seq!['\\', '"']);
        reveal_with_fuel(replace_char, 3);
        if s[0] == '\\' {
            assert(first.drop_first().drop_first() =~= Seq::<char>::empty());
            assert(f =~= seq!['\\', '\\']);
        } else if s[0] == '"' {
            assert(first.drop_first() =~= Seq::<char>::empty());
            assert(f =~= seq!['\\', '"']);
        } else {
            assert(first.drop_first() =~= Seq::<char>::empty());
            assert(f =~= seq![s[0]]);
        }
    }
}

/// `escape_typst_string` escapes character by character.
pub proof fn lemma_escape_typst_string(s: Seq<char>)
    ensures
        escape_typst_string(s) == escaped_chars(s),
{
    reveal_strlit("\\");
    reveal_strlit("\\\\");
    reveal_strlit("\"");
    reveal_strlit("\\\"");
    assert("\\"@ =~= seq!['\\']);
    assert("\\\\"@ =~= seq!['\\', '\\']);
    assert("\""@ =~= seq!['"']);
    assert("\\\""@ =~= seq!['\\', '"']);
    lemma_replace_one_char(s, '\\', seq!['\\', '\\']);
    lemma_replace_one_char(replace_char(s, '\\', seq!['\\', '\\']), '"', seq!['\\', '"']);
    lemma_escape_by_char(s);
}

/// Reading a Typst string literal from `t[i]` on (just after its opening
/// quote), with the escapes `\\` and `\"`: the text up to the closing quote and
/// the index after it; `None` when it does not close (or holds another escape).
pub open spec fn read_string(t: Seq<char>, i: int) -> Option<(Seq<char>, int)>
    decreases t.len() - i,
{
    if i < 0 || i >= t.len() {
        None
    } else if t[i] == '"' {
        Some((Seq::<char>::empty(), i + 1))
    } else if t[i] == '\\' {
        if i + 1 < t.len() && (t[i + 1] == '\\' || t[i + 1] == '"') {
            match read_string(t, i + 2) {
                Some((v, e)) => Some((seq![t[i + 1]] + v, e)),
                None => None,
            }
        } else {
            None
        }
    } else {
        match read_string(t, i + 1) {
            Some((v, e)) => Some((seq![t[i]] + v, e)),
            None => None,
        }
    }
}

proof fn lemma_read_escaped(pre: Seq<char>, s: Seq<char>, rest: Seq<char>)
    ensures
        read_string(pre + escaped_chars(s) + seq!['"'] + rest, pre.len() as int) == Some(
            (s, (pre.len() + escaped_chars(s).len() + 1) as int),
        ),
    decreases s.len(),
{
    let t = pre + escaped_chars(s) + seq!['"'] + rest;
    let i = pre.len() as int;
    if s.len() == 0 {
        assert(t[i] == '"');
    } else {
        let e = escaped_char(s[0]);
        let pre2 = pre + e;
        assert(t =~= pre2 + escaped_chars(s.drop_first()) + seq!['"'] + rest);
        lemma_read_escaped(pre2, s.drop_first(), rest);
        assert(t[i] == e[0]);
        if e.len() == 2 {
            assert(t[i + 1] == e[1]);
        }
        assert(seq![s[0]] + s.drop_first() =~= s);
    }
}

/// A value put in a Typst string literal (a variable's value, the title, an
/// author, `lang`) cannot leave it: reading the literal back as Typst does
/// ends exactly at its closing quote and gives the value.
pub proof fn lemma_quoted_value_reads_back(s: Seq<char>, rest: Seq<char>)
    ensures
        read_string(quoted(s) + rest, 1) == Some((s, quoted(s).len() as int)),
{
    lemma_escape_typst_string(s);
    reveal_strlit("\"");
    assert("\""@ =~= seq!['"']);
    assert(quoted(s) + rest =~= seq!['"'] + escaped_chars(s) + seq!['"'] + rest);
    lemma_read_escaped(seq!['"'], s, rest);
}

proof fn lemma_paren_close_shift(x: Seq<char>, y: Seq<char>, j: int, d: nat)
    requires
        0 <= j,
    ensures
        paren_close(x + y, x.len() + j, d) == (match paren_close(y, j, d) {
            Some(k) => Some(x.len() + k),
            None => None,
        }),
    decreases y.len() - j,
{
    let c = x + y;
    if j < y.len() {
        assert(c[x.len() + j] == y[j]);
        if y[j] == '(' {
            lemma_paren_close_shift(x, y, j + 1, d + 1);
        } else if y[j] == ')' {
            if d > 0 {
                lemma_paren_close_shift(x, y, j + 1, (d - 1) as nat);
            }
        } else {
            lemma_paren_close_shift(x, y, j + 1, d);
        }
    }
}

proof fn lemma_paren_close_plain(c: Seq<char>, j: int, e: int)
    requires
        0 <= j <= e < c.len(),
        forall|k: int| j <= k < e ==> #[trigger] c[k] != '(' && c[k] != ')',
        c[e] == ')',
    ensures
        paren_close(c, j, 0) == Some(e),
    decreases e - j,
{
    if j < e {
        lemma_paren_close_plain(c, j + 1, e);
    }
}

/// The rewrite of a body that follows text ending in anything but `\` is the
/// rewrite of that body alone.
proof fn lemma_bottom_rules_shift(x: Seq<char>, y: Seq<char>, k: int)
    requires
        0 <= k <= y.len(),
        x.len() == 0 || x.last() != '\\',
    ensures
        with_bottom_rules(x + y, x.len() + k) == with_bottom_rules(y, k),
    decreases y.len() - k,
{
    let c = x + y;
    let n = x.len() as int;
    let l = "#table("@.len() as int;
    if k < y.len() {
        assert(c[n + k] == y[k]);
        assert(crate::text::matches_at(c, n + k, "#table("@) == crate::text::matches_at(y, k, "#table("@))
            by {
            if k + l <= y.len() {
                assert(c.subrange(n + k, n + k + l) =~= y.subrange(k, k + l));
            }
        }
        if k > 0 {
            assert(c[n + k - 1] == y[k - 1]);
        } else if n > 0 {
            assert(c[n - 1] == x.last());
        }
        assert(table_open_at(c, n + k) == table_open_at(y, k));
        lemma_paren_close_shift(x, y, k + l, 0);
        if table_open_at(y, k) && paren_close(y, k + l, 0) is Some {
            let end = paren_close(y, k + l, 0)->0;
            lemma_paren_close(y, k + l, 0);
            assert(c.subrange(n + k, n + end) =~= y.subrange(k, end));
            lemma_bottom_rules_shift(x, y, end + 1);
        } else {
            lemma_bottom_rules_shift(x, y, k + 1);
        }
    }
}

/// Every top-level table gets its bottom rule: a body that opens with a closed
/// `#table(…)` (no parentheses inside) gets the rule in that table, and the
/// rest of the body is rewritten as it would be on its own, so a second table
/// gets its rule too.
pub proof fn lemma_bottom_rules_each_table(a: Seq<char>, y: Seq<char>)
    requires
        forall|k: int| 0 <= k < a.len() ==> #[trigger] a[k] != '(' && a[k] != ')',
    ensures
        with_bottom_rules("#table("@ + a + ")"@ + y, 0) == "#table("@ + a + hline() + ")"@
            + with_bottom_rules(y, 0),
{
    reveal_strlit(")");
    let t = "#table("@ + a + ")"@;
    let c = t + y;
    let l = "#table("@.len() as int;
    let e = l + a.len();
    assert(t.len() == e + 1);
    assert(c.subrange(0, l) =~= "#table("@);
    assert(table_open_at(c, 0));
    assert forall|k: int| l <= k < e implies #[trigger] c[k] != '(' && c[k] != ')' by {
        assert(c[k] == a[k - l]);
    }
    assert(c[e] == ')');
    lemma_paren_close_plain(c, l, e);
    assert(c.subrange(0, e) =~= "#table("@ + a);
    assert(t.last() == ')');
    lemma_bottom_rules_shift(t, y, 0);
    assert(seq![')'] =~= ")"@);
    assert(with_bottom_rules(c, 0) == c.subrange(0, e) + hline() + seq![')'] + with_bottom_rules(c, e + 1));
}


proof fn lemma_strip_sp_tab_suffix(s: Seq<char>)
    ensures
        strip_sp_tab(s).len() <= s.len(),
        forall|m: int|
            0 <= m < strip_sp_tab(s).len() ==> #[trigger] strip_sp_tab(s)[m] == s[m + (s.len()
                - strip_sp_tab(s).len())],
    decreases s.len(),
{
    if s.len() > 0 && (s[0] == ' ' || s[0] == '\t') {
        lemma_strip_sp_tab_suffix(s.drop_first());
    }
}

/// Lines of plain characters: no line feed and no backslash in any of them,
/// and no line-block line that belongs to a pipe table.
pub open spec fn verse_ready(ls: Seq<Seq<char>>) -> bool {
    &&& forall|k: int, m: int|
        0 <= k < ls.len() && 0 <= m < ls[k].len() ==> #[trigger] ls[k][m] != '\n' && ls[k][m] != '\\'
    &&& forall|k: int|
        0 <= k < ls.len() && is_block_line(#[trigger] ls[k]) ==> !is_tabular_rest(
            crate::text::trim_start(ls[k]).skip(1),
        )
}

/// What the rewritten lines satisfy: no line feed, no line-block line, and a
/// backslash only as the hard break that ends a line followed by another.
pub open spec fn verse_written(out: Seq<Seq<char>>) -> bool {
    &&& forall|k: int, m: int| 0 <= k < out.len() && 0 <= m < out[k].len() ==> #[trigger] out[k][m] != '\n'
    &&& forall|k: int| 0 <= k < out.len() ==> !is_block_line(#[trigger] out[k])
    &&& forall|k: int, m: int|
        0 <= k < out.len() && 0 <= m < out[k].len() && #[trigger] out[k][m] == '\\' ==> m == out[k].len()
            - 1 && k + 1 < out.len()
}

proof fn lemma_no_bar_not_block_line(v: Seq<char>)
    requires
        forall|m: int| 0 <= m < v.len() ==> #[trigger] v[m] != '|',
    ensures
        !is_block_line(v),
{
    crate::text::lemma_first_non_ws_bounds(v, 0);
    let t = crate::text::trim_start(v);
    if t.len() > 0 {
        assert(t[0] == v[first_non_ws_from(v, 0)]);
        assert(t != seq!['|']);
        assert(!crate::text::starts_with(t, seq!['|', ' ']));
        assert(!crate::text::starts_with(t, seq!['|', '\t']));
    } else {
        assert(t != seq!['|']);
    }
}

proof fn lemma_verse_line_written(ls: Seq<Seq<char>>, k: int, j: int)
    requires
        0 <= k < j <= ls.len(),
        verse_ready(ls),
        is_block_line(ls[k]),
    ensures
        ({
            let v = verse_line(ls, k, j);
            &&& !is_block_line(v)
            &&& forall|m: int| 0 <= m < v.len() ==> #[trigger] v[m] != '\n'
            &&& forall|m: int| 0 <= m < v.len() && #[trigger] v[m] == '\\' ==> m == v.len() - 1 && k + 1 < j
        }),
{
    let l = ls[k];
    let f = first_non_ws_from(l, 0);
    crate::text::lemma_first_non_ws_bounds(l, 0);
    let t = crate::text::trim_start(l);
    let v = verse_line(ls, k, j);
    if t == seq!['|'] {
        assert(v.len() == 0);
        lemma_no_bar_not_block_line(v);
    } else {
        assert(t.len() >= 1) by {
            if t.len() == 0 {
                assert(!crate::text::starts_with(t, seq!['|', ' ']));
                assert(!crate::text::starts_with(t, seq!['|', '\t']));
            }
        }
        let rest = t.skip(1);
        assert(!is_tabular_rest(rest));
        assert(!rest.contains('|'));
        let content = strip_sp_tab(rest);
        lemma_strip_sp_tab_suffix(rest);
        let off = rest.len() - content.len();
        assert forall|m: int| 0 <= m < content.len() implies #[trigger] content[m] != '|' && content[m]
            != '\n' && content[m] != '\\' by {
            assert(content[m] == rest[m + off]);
            assert(rest[m + off] == l[f + 1 + m + off]);
            assert(ls[k][f + 1 + m + off] != '\n');
            if rest[m + off] == '|' {
                assert(rest.contains('|'));
            }
        }
        assert forall|m: int| 0 <= m < v.len() implies #[trigger] v[m] != '|' by {
            if m < content.len() {
                assert(v[m] == content[m]);
            }
        }
        lemma_no_bar_not_block_line(v);
        assert forall|m: int| 0 <= m < v.len() && #[trigger] v[m] == '\\' implies m == v.len() - 1 && k
            + 1 < j by {
            if m < content.len() {
                assert(v[m] == content[m]);
            }
        }
        assert forall|m: int| 0 <= m < v.len() implies #[trigger] v[m] != '\n' by {
            if m < content.len() {
                assert(v[m] == content[m]);
            }
        }
    }
}

proof fn lemma_line_blocks_written(ls: Seq<Seq<char>>, i: int)
    requires
        0 <= i <= ls.len(),
        verse_ready(ls),
    ensures
        line_blocks_from(ls, i).len() == ls.len() - i,
        verse_written(line_blocks_from(ls, i)),
    decreases ls.len() - i,
{
    let out = line_blocks_from(ls, i);
    if i < ls.len() {
        if is_block_line(ls[i]) {
            let j = run_end(ls, i);
            lemma_run_end(ls, i);
            lemma_run_end(ls, i + 1);
            assert(j >= i + 1);
            assert(!run_has_sep(ls, i, j)) by {
                if run_has_sep(ls, i, j) {
                    let k = choose|k: int| i <= k < j && is_tabular_rest(
                        #[trigger] crate::text::trim_start(ls[k]).skip(1),
                    );
                    assert(is_block_line(ls[k]));
                }
            }
            let piece = Seq::new((j - i) as nat, |m: int| verse_line(ls, i + m, j));
            lemma_line_blocks_written(ls, j);
            let rest = line_blocks_from(ls, j);
            assert(out == piece + rest);
            assert forall|q: int| 0 <= q < piece.len() implies ({
                let v = #[trigger] piece[q];
                &&& !is_block_line(v)
                &&& forall|m: int| 0 <= m < v.len() ==> #[trigger] v[m] != '\n'
                &&& forall|m: int| 0 <= m < v.len() && #[trigger] v[m] == '\\' ==> m == v.len() - 1 && q
                    + 1 < piece.len()
            }) by {
                assert(is_block_line(ls[i + q]));
                lemma_verse_line_written(ls, i + q, j);
            }
            assert forall|k: int, m: int| 0 <= k < out.len() && 0 <= m < out[k].len() implies #[trigger] out[k][m]
                != '\n' by {
                if k < piece.len() {
                    assert(out[k] == piece[k]);
                } else {
                    assert(out[k] == rest[k - piece.len()]);
                }
            }
            assert forall|k: int| 0 <= k < out.len() implies !is_block_line(#[trigger] out[k]) by {
                if k < piece.len() {
                    assert(out[k] == piece[k]);
                } else {
                    assert(out[k] == rest[k - piece.len()]);
                }
            }
            assert forall|k: int, m: int|
                0 <= k < out.len() && 0 <= m < out[k].len() && #[trigger] out[k][m] == '\\' implies m
                    == out[k].len() - 1 && k + 1 < out.len() by {
                if k < piece.len() {
                    assert(out[k] == piece[k]);
                } else {
                    assert(out[k] == rest[k - piece.len()]);
                }
            }
        } else {
            lemma_line_blocks_written(ls, i + 1);
            let rest = line_blocks_from(ls, i + 1);
            assert(out == seq![ls[i]] + rest);
            assert forall|k: int, m: int| 0 <= k < out.len() && 0 <= m < out[k].len() implies #[trigger] out[k][m]
                != '\n' by {
                if k == 0 {
                    assert(out[k] == ls[i]);
                } else {
                    assert(out[k] == rest[k - 1]);
                }
            }
            assert forall|k: int| 0 <= k < out.len() implies !is_block_line(#[trigger] out[k]) by {
                if k == 0 {
                    assert(out[k] == ls[i]);
                } else {
                    assert(out[k] == rest[k - 1]);
                }
            }
            assert forall|k: int, m: int|
                0 <= k < out.len() && 0 <= m < out[k].len() && #[trigger] out[k][m] == '\\' implies m
                    == out[k].len() - 1 && k + 1 < out.len() by {
                if k == 0 {
                    assert(out[k] == ls[i]);
                    assert(ls[i][m] != '\\');
                } else {
                    assert(out[k] == rest[k - 1]);
                }
            }
        }
    }
}

/// Verse reaches the converter as verse. For a document whose marked Markdown
/// has no backslash and no pipe-table line among its line-block lines, and no
/// inline images, no line of the body handed to the converter is a
/// line-block line (`|` alone or `| …`): every run of such lines has been
/// rewritten as verse lines, with as many lines as before.
pub proof fn lemma_line_blocks_reach_converter(blocks: Seq<(nat, Seq<char>)>)
    requires
        forall|k: int| 0 <= k < marked_blocks(blocks).len() ==> #[trigger] marked_blocks(blocks)[k] != '\\',
        forall|k: int|
            0 <= k < split_char(marked_blocks(blocks), '\n').len() && is_block_line(
                #[trigger] split_char(marked_blocks(blocks), '\n')[k],
            ) ==> !is_tabular_rest(
                crate::text::trim_start(split_char(marked_blocks(blocks), '\n')[k]).skip(1),
            ),
    ensures
        ({
            let body = prepared_body(blocks, Seq::empty()).0;
            &&& split_char(body, '\n').len() == split_char(marked_blocks(blocks), '\n').len()
            &&& forall|k: int|
                0 <= k < split_char(body, '\n').len() ==> !is_block_line(#[trigger] split_char(body, '\n')[k])
        }),
{
    let md = marked_blocks(blocks);
    let ls = split_char(md, '\n');
    lemma_split_char_len(md, '\n');
    crate::text::lemma_split_pieces_free(md, '\n');
    crate::text::lemma_split_pieces_avoid(md, '\n', '\\');
    assert(verse_ready(ls));
    lemma_line_blocks_written(ls, 0);
    let out = line_blocks_from(ls, 0);
    reveal_strlit("\n");
    assert("\n"@ =~= seq!['\n']);
    let lb = join(out, seq!['\n']);
    assert(line_blocks(md) == lb);
    crate::images::lemma_protect_without_images(lb);
    crate::text::lemma_join_end_backslash(out, '\n');
    assert forall|k: int| 0 <= k < lb.len() && #[trigger] lb[k] == '\\' implies k + 1 < lb.len() && lb[k + 1]
        == '\n' by {
        if k + 1 == lb.len() {
            let last = out.last();
            if out.len() == 1 {
                assert(lb == out[0]);
                assert(out[0][k] == '\\');
            } else {
                let jd = join(out.drop_last(), seq!['\n']);
                assert(lb == jd + seq!['\n'] + last);
                if last.len() == 0 {
                    assert(lb[k] == '\n');
                } else {
                    assert(lb[k] == last[last.len() - 1]);
                    assert(out[out.len() - 1][last.len() - 1] == '\\');
                }
            }
        }
    }
    crate::latex_commands::lemma_scan_hard_breaks(lb, 0, Seq::empty());
    assert(lb.skip(0) =~= lb);
    assert(prepared_body(blocks, Seq::empty()).0 == lb);
    crate::text::lemma_split_join(out, '\n');
}

} // verus!
