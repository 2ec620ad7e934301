//! Handwritten LaTeX commands → Typst.
//!
//! Markdown handed to the Typst converter may hold handwritten LaTeX commands
//! (`\textbf{…}`, `\color{#hex}{…}`, `\normalsize`, …) that the converter would
//! otherwise escape into literal text. `protect_markdown` rewrites the text-style
//! commands that have a Markdown equivalent into that Markdown, translates the
//! other known commands into Typst and puts an alphanumeric placeholder in their
//! place (placeholders survive the converter's escaping untouched);
//! `restore_placeholders` puts the Typst snippets back after conversion.
//!
//! Math spans (`$…$` / `$$…$$`) are copied through verbatim: the converter
//! translates LaTeX math itself.

use vstd::prelude::*;
use crate::text::{
    chars_of, decimal, eq_lit, first_non_ws_at, first_non_ws_from, is_ascii_alpha,
    is_ascii_alpha_char, lemma_first_non_ws_bounds, push_char, push_decimal, push_range,
    replace_all, replace_all_into, replace_str, slice_vec, trim, trim_str,
};
use crate::mdx::{convert_markdown_checked, empty_frontmatter, markdown_conversion, MdFrontMatter};

verus! {

/// Placeholder → Typst snippet pairs, in the order they were made.
pub type Reps = Seq<(Seq<char>, Seq<char>)>;

/// The `n`-th placeholder.
pub open spec fn placeholder(n: nat) -> Seq<char> {
    "SOMADOCLATEXCMD"@ + decimal(n) + "Q7F3A"@
}

// ---------------------------------------------------------------------------
// Parsing (pure)
// ---------------------------------------------------------------------------

/// End of the run of ASCII letters that starts at `j`.
pub open spec fn name_end(c: Seq<char>, j: int) -> int
    decreases c.len() - j,
{
    if j < 0 || j >= c.len() {
        c.len() as int
    } else if is_ascii_alpha(c[j]) {
        name_end(c, j + 1)
    } else {
        j
    }
}

/// Index of the `}` that closes a group, scanning from `j` with `depth` groups open.
pub open spec fn match_close(c: Seq<char>, j: int, depth: nat) -> Option<int>
    decreases c.len() - j,
{
    if j < 0 || j >= c.len() {
        None
    } else if c[j] == '{' {
        match_close(c, j + 1, depth + 1)
    } else if c[j] == '}' {
        if depth <= 1 {
            Some(j)
        } else {
            match_close(c, j + 1, (depth - 1) as nat)
        }
    } else {
        match_close(c, j + 1, depth)
    }
}

/// A braced group `{ … }` (nested groups allowed) after optional whitespace at
/// `i`: the bounds `(a, b)` of its content; the group ends at `b + 1`.
pub open spec fn braced(c: Seq<char>, i: int) -> Option<(int, int)> {
    let idx = first_non_ws_from(c, i);
    if 0 <= i && idx < c.len() && c[idx] == '{' {
        match match_close(c, idx + 1, 1) {
            Some(j) => Some((idx + 1, j)),
            None => None,
        }
    } else {
        None
    }
}

/// If `c[start]` opens a math span, the index just past its closing delimiter.
pub open spec fn math_close(c: Seq<char>, j: int, doubled: bool) -> Option<int>
    decreases c.len() - j,
{
    if j < 0 || j >= c.len() {
        None
    } else if c[j] == '$' && !doubled {
        Some(j + 1)
    } else if c[j] == '$' && j + 1 < c.len() && c[j + 1] == '$' {
        Some(j + 2)
    } else {
        math_close(c, j + 1, doubled)
    }
}

pub open spec fn math_span(c: Seq<char>, start: int) -> Option<int> {
    let doubled = start + 1 < c.len() && c[start + 1] == '$';
    math_close(c, if doubled { start + 2 } else { start + 1 }, doubled)
}

/// Number of braced arguments of a known command.
pub open spec fn command_arity(name: Seq<char>) -> Option<u8> {
    if name == "quad"@ || name == "qquad"@ || name == "enspace"@ || name == "enskip"@ || name
        == "hfill"@ || name == "newline"@ || name == "newpage"@ || name == "pagebreak"@ || name
        == "clearpage"@ {
        Some(0)
    } else if name == "textbf"@ || name == "bf"@ || name == "textit"@ || name == "it"@ || name
        == "emph"@ || name == "underline"@ || name == "textsc"@ || name == "textsuperscript"@
        || name == "textsubscript"@ || name == "sout"@ || name == "strikeout"@ || name
        == "texttt"@ || name == "textsf"@ || name == "textrm"@ || name == "textnormal"@ || name
        == "rm"@ || name == "mathsf"@ || name == "mathbf"@ || name == "mathrm"@ || name
        == "mathit"@ || name == "mathtt"@ || name == "mathcal"@ || name == "mathfrak"@ || name
        == "mathbb"@ || name == "boldsymbol"@ || name == "overline"@ || name == "utilde"@ || name
        == "url"@ {
        Some(1)
    } else if name == "textcolor"@ || name == "color"@ || name == "colorbox"@ || name
        == "href"@ {
        Some(2)
    } else {
        None
    }
}

/// Text-style commands that have a Markdown equivalent: the wrapping pair.
pub open spec fn markdown_wrap(name: Seq<char>) -> Option<(Seq<char>, Seq<char>)> {
    if name == "textbf"@ || name == "bf"@ {
        Some(("**"@, "**"@))
    } else if name == "textit"@ || name == "it"@ || name == "emph"@ {
        Some(("*"@, "*"@))
    } else if name == "sout"@ || name == "strikeout"@ {
        Some(("~~"@, "~~"@))
    } else if name == "textsuperscript"@ {
        Some(("^"@, "^"@))
    } else if name == "textsubscript"@ {
        Some(("~"@, "~"@))
    } else if name == "texttt"@ {
        Some(("`"@, "`"@))
    } else {
        None
    }
}

/// Declarative size commands: the Typst size.
pub open spec fn size_pt(name: Seq<char>) -> Option<Seq<char>> {
    if name == "tiny"@ {
        Some("5pt"@)
    } else if name == "scriptsize"@ {
        Some("7pt"@)
    } else if name == "footnotesize"@ {
        Some("8pt"@)
    } else if name == "small"@ {
        Some("9pt"@)
    } else if name == "normalsize"@ {
        Some("10pt"@)
    } else if name == "large"@ {
        Some("12pt"@)
    } else if name == "Large"@ {
        Some("14.4pt"@)
    } else if name == "LARGE"@ {
        Some("17.28pt"@)
    } else if name == "huge"@ {
        Some("20.74pt"@)
    } else if name == "Huge"@ {
        Some("24.88pt"@)
    } else {
        None
    }
}

/// Control symbols (`\\`, `\ `, `\,`, `\;`, `\:`, `\!`): the Typst snippet.
pub open spec fn control_symbol(ch: char) -> Option<Seq<char>> {
    if ch == '\\' {
        Some("#linebreak()"@)
    } else if ch == ' ' {
        Some(" "@)
    } else if ch == ',' {
        Some("#h(0.1667em)"@)
    } else if ch == ';' {
        Some("#h(0.2778em)"@)
    } else if ch == ':' {
        Some("#h(0.2222em)"@)
    } else if ch == '!' {
        Some("#h(-0.1667em)"@)
    } else {
        None
    }
}

/// Commands without arguments: the Typst snippet.
pub open spec fn fixed_typst(name: Seq<char>) -> Seq<char> {
    if name == "quad"@ {
        "#h(1em)"@
    } else if name == "qquad"@ {
        "#h(2em)"@
    } else if name == "enspace"@ || name == "enskip"@ {
        "#h(0.5em)"@
    } else if name == "hfill"@ {
        "#h(1fr)"@
    } else if name == "newline"@ {
        "#linebreak()"@
    } else {
        "#pagebreak()"@
    }
}

/// The shape of a command that parsed, with the bounds of its arguments' content.
pub enum CmdShape {
    Symbol(Seq<char>),
    SizeDecl,
    Sized(Seq<char>, int, int),
    Fixed(Seq<char>),
    One(Seq<char>, int, int),
    Two(Seq<char>, int, int, int, int),
}

/// Parse the command at `c[i]` (a `\`): its shape and the index after it, or
/// `None` when it is not a command this module knows (the `\` then stays).
pub open spec fn cmd_parse(c: Seq<char>, i: int) -> Option<(CmdShape, int)> {
    let j = name_end(c, i + 1);
    if j == i + 1 {
        if 0 <= i && i + 1 < c.len() {
            match control_symbol(c[i + 1]) {
                Some(t) => Some((CmdShape::Symbol(t), i + 2)),
                None => None,
            }
        } else {
            None
        }
    } else {
        let name = c.subrange(i + 1, j);
        match size_pt(name) {
            Some(size) => {
                let idx = first_non_ws_from(c, j);
                if idx < c.len() && c[idx] == '{' {
                    match braced(c, idx) {
                        Some((a, b)) => Some((CmdShape::Sized(size, a, b), b + 1)),
                        None => None,
                    }
                } else {
                    Some((CmdShape::SizeDecl, j))
                }
            },
            None => match command_arity(name) {
                Some(0) => Some((CmdShape::Fixed(name), j)),
                Some(1) => match braced(c, j) {
                    Some((a, b)) => Some((CmdShape::One(name, a, b), b + 1)),
                    None => None,
                },
                Some(2) => match braced(c, j) {
                    Some((a0, b0)) => match braced(c, b0 + 1) {
                        Some((a1, b1)) => Some((CmdShape::Two(name, a0, b0, a1, b1), b1 + 1)),
                        None => None,
                    },
                    None => None,
                },
                _ => None,
            },
        }
    }
}

/// A text-style command with a Markdown equivalent at `c[i]`: the wrapping
/// pair and the bounds of its content.
pub open spec fn wrap_parse(c: Seq<char>, i: int) -> Option<(Seq<char>, Seq<char>, int, int)> {
    let j = name_end(c, i + 1);
    if 0 <= i && i + 1 <= j {
        match markdown_wrap(c.subrange(i + 1, j)) {
            Some((open, close)) => match braced(c, j) {
                Some((a, b)) => Some((open, close, a, b)),
                None => None,
            },
            None => None,
        }
    } else {
        None
    }
}

/// Where the top-level scan goes on after the item at `c[i]`.
pub open spec fn scan_next(c: Seq<char>, i: int) -> int {
    if c[i] == '\\' {
        if i + 1 < c.len() && c[i + 1] == '$' {
            i + 2
        } else if let Some((_, _, _, b)) = wrap_parse(c, i) {
            b + 1
        } else if let Some((_, next)) = cmd_parse(c, i) {
            next
        } else {
            i + 1
        }
    } else if c[i] == '$' {
        match math_span(c, i) {
            Some(next) => next,
            None => i + 1,
        }
    } else {
        i + 1
    }
}

/// Where argument conversion goes on after the item at `c[i]`.
pub open spec fn content_next(c: Seq<char>, i: int) -> int {
    if c[i] == '\\' {
        if let Some((_, next)) = cmd_parse(c, i) {
            next
        } else {
            i + 1
        }
    } else {
        i + 1
    }
}

// ---------------------------------------------------------------------------
// Lemmas on parsing
// ---------------------------------------------------------------------------

pub proof fn lemma_name_end(c: Seq<char>, j: int)
    requires
        0 <= j <= c.len(),
    ensures
        j <= name_end(c, j) <= c.len(),
        forall|k: int| j <= k < name_end(c, j) ==> is_ascii_alpha(#[trigger] c[k]),
    decreases c.len() - j,
{
    if j < c.len() && is_ascii_alpha(c[j]) {
        lemma_name_end(c, j + 1);
    }
}

pub proof fn lemma_match_close(c: Seq<char>, j: int, depth: nat)
    requires
        0 <= j,
    ensures
        match_close(c, j, depth) matches Some(k) ==> j <= k < c.len() && c[k] == '}',
    decreases c.len() - j,
{
    if 0 <= j < c.len() {
        if c[j] == '{' {
            lemma_match_close(c, j + 1, depth + 1);
        } else if c[j] == '}' {
            if depth > 1 {
                lemma_match_close(c, j + 1, (depth - 1) as nat);
            }
        } else {
            lemma_match_close(c, j + 1, depth);
        }
    }
}

pub proof fn lemma_braced(c: Seq<char>, i: int)
    requires
        0 <= i <= c.len(),
    ensures
        braced(c, i) matches Some((a, b)) ==> i < a <= b < c.len(),
{
    lemma_first_non_ws_bounds(c, i);
    let idx = first_non_ws_from(c, i);
    if idx < c.len() && c[idx] == '{' {
        lemma_match_close(c, idx + 1, 1);
    }
}

pub proof fn lemma_math_close(c: Seq<char>, j: int, doubled: bool)
    requires
        0 <= j,
    ensures
        math_close(c, j, doubled) matches Some(k) ==> j < k <= c.len(),
    decreases c.len() - j,
{
    if 0 <= j < c.len() {
        if !(c[j] == '$' && !doubled) && !(c[j] == '$' && j + 1 < c.len() && c[j + 1] == '$') {
            lemma_math_close(c, j + 1, doubled);
        }
    }
}

pub proof fn lemma_cmd_parse(c: Seq<char>, i: int)
    requires
        0 <= i < c.len(),
    ensures
        cmd_parse(c, i) matches Some((shape, next)) ==> {
            &&& i < next <= c.len()
            &&& shape matches CmdShape::Sized(_, a, b) ==> i < a <= b < next
            &&& shape matches CmdShape::One(_, a, b) ==> i < a <= b < next
            &&& shape matches CmdShape::Two(_, a0, b0, a1, b1) ==> i < a0 <= b0 < a1 <= b1 < next
        },
{
    lemma_name_end(c, i + 1);
    let j = name_end(c, i + 1);
    if j != i + 1 {
        lemma_braced(c, j);
        lemma_first_non_ws_bounds(c, j);
        let idx = first_non_ws_from(c, j);
        if idx < c.len() {
            lemma_braced(c, idx);
        }
        if let Some((a0, b0)) = braced(c, j) {
            lemma_braced(c, b0 + 1);
        }
    }
}

pub proof fn lemma_wrap_parse(c: Seq<char>, i: int)
    requires
        0 <= i < c.len(),
    ensures
        wrap_parse(c, i) matches Some((_, _, a, b)) ==> i < a <= b < c.len(),
{
    lemma_name_end(c, i + 1);
    lemma_braced(c, name_end(c, i + 1));
}

pub proof fn lemma_scan_next(c: Seq<char>, i: int)
    requires
        0 <= i < c.len(),
    ensures
        i < scan_next(c, i) <= c.len(),
{
    lemma_wrap_parse(c, i);
    lemma_cmd_parse(c, i);
    if c[i] == '$' {
        let doubled = i + 1 < c.len() && c[i + 1] == '$';
        lemma_math_close(c, if doubled { i + 2 } else { i + 1 }, doubled);
    }
}

pub proof fn lemma_content_next(c: Seq<char>, i: int)
    requires
        0 <= i < c.len(),
    ensures
        i < content_next(c, i) <= c.len(),
{
    lemma_cmd_parse(c, i);
}

// ---------------------------------------------------------------------------
// Conversion to Typst
// ---------------------------------------------------------------------------

/// Single character → Typst text escape (`~` stays a non-breaking space).
pub open spec fn escape_typst_char(ch: char) -> Seq<char> {
    if ch == '\\' || ch == '#' || ch == '[' || ch == ']' || ch == '{' || ch == '}' || ch == '*'
        || ch == '_' || ch == '$' || ch == '`' || ch == '@' || ch == '<' || ch == '>' {
        seq!['\\', ch]
    } else {
        seq![ch]
    }
}

/// LaTeX color name / `#hex` → Typst color expression.
pub open spec fn typst_color(spec: Seq<char>) -> Seq<char> {
    let s = trim(spec);
    if s.len() > 0 && s[0] == '#' {
        "rgb(\""@ + s + "\")"@
    } else {
        s
    }
}

/// A Typst double-quoted string literal holding `s`.
pub open spec fn typst_string(s: Seq<char>) -> Seq<char> {
    "\""@ + replace_all(replace_all(s, "\\"@, "\\\\"@), "\""@, "\\\""@) + "\""@
}

/// Markdown snippet → Typst body via `mdxport` (unchanged when conversion fails).
pub open spec fn md_to_typst(content: Seq<char>) -> Seq<char> {
    match markdown_conversion(content, empty_frontmatter()) {
        Ok(doc) => trim(doc.3),
        Err(_) => content,
    }
}

/// One-argument command → Typst, given its translated content and raw argument.
pub open spec fn one_arg_typst(name: Seq<char>, body: Seq<char>, arg: Seq<char>) -> Seq<char> {
    if name == "textbf"@ || name == "bf"@ {
        "#strong["@ + body + "]"@
    } else if name == "textit"@ || name == "it"@ || name == "emph"@ {
        "#emph["@ + body + "]"@
    } else if name == "underline"@ {
        "#underline(evade: false)["@ + body + "]"@
    } else if name == "textsc"@ {
        "#smallcaps["@ + body + "]"@
    } else if name == "textsuperscript"@ {
        "#super["@ + body + "]"@
    } else if name == "textsubscript"@ {
        "#sub["@ + body + "]"@
    } else if name == "sout"@ || name == "strikeout"@ {
        "#strike["@ + body + "]"@
    } else if name == "texttt"@ {
        "#raw["@ + body + "]"@
    } else if name == "textsf"@ || name == "textrm"@ || name == "textnormal"@ || name == "rm"@ {
        body
    } else if name == "mathsf"@ {
        "#math.sans["@ + body + "]"@
    } else if name == "mathbf"@ {
        "#math.bold["@ + body + "]"@
    } else if name == "mathrm"@ {
        "#math.upright["@ + body + "]"@
    } else if name == "mathit"@ {
        "#math.italic["@ + body + "]"@
    } else if name == "mathtt"@ {
        "#math.mono["@ + body + "]"@
    } else if name == "mathcal"@ {
        "#math.cal["@ + body + "]"@
    } else if name == "mathfrak"@ {
        "#math.frak["@ + body + "]"@
    } else if name == "mathbb"@ {
        "#math.bb["@ + body + "]"@
    } else if name == "boldsymbol"@ {
        "#math.bold["@ + body + "]"@
    } else if name == "overline"@ {
        "#overline["@ + body + "]"@
    } else if name == "utilde"@ {
        "#underline["@ + body + "]"@
    } else {
        "#link("@ + typst_string(arg) + ")["@ + typst_string(arg) + "]"@
    }
}

/// Two-argument command → Typst, given its raw first argument and translated content.
pub open spec fn two_arg_typst(name: Seq<char>, first: Seq<char>, body: Seq<char>) -> Seq<char> {
    if name == "textcolor"@ || name == "color"@ {
        "#text(fill: "@ + typst_color(first) + ")["@ + body + "]"@
    } else if name == "colorbox"@ {
        "#highlight(fill: "@ + typst_color(first) + ")["@ + body + "]"@
    } else {
        "#link("@ + typst_string(first) + ")["@ + body + "]"@
    }
}

/// Top-level scan of `c[i..]`: output and placeholder table after it.
pub open spec fn tr_scan(c: Seq<char>, i: int, reps: Reps) -> (Seq<char>, Reps)
    decreases c.len(), 3int, c.len() - i,
{
    if i < 0 || i >= c.len() {
        (Seq::<char>::empty(), reps)
    } else {
        let next = scan_next(c, i);
        let (piece, r1) = if c[i] == '\\' {
            if i + 1 < c.len() && c[i + 1] == '$' {
                (seq!['\\', '$'], reps)
            } else if let Some((open, close, a, b)) = wrap_parse(c, i) {
                proof {
                    lemma_wrap_parse(c, i);
                }
                let (inner, r) = tr_scan(c.subrange(a, b), 0, reps);
                (open + inner + close, r)
            } else if let Some((_, _)) = cmd_parse(c, i) {
                let (t, r) = tr_command(c, i, reps);
                (placeholder(r.len()), r.push((placeholder(r.len()), t)))
            } else {
                (seq!['\\'], reps)
            }
        } else if c[i] == '$' {
            (c.subrange(i, next), reps)
        } else {
            (seq![c[i]], reps)
        };
        proof {
            lemma_scan_next(c, i);
        }
        let (rest, r2) = tr_scan(c, next, r1);
        (piece + rest, r2)
    }
}

/// Typst for the command at `c[i]` (when `cmd_parse` accepts it).
pub open spec fn tr_command(c: Seq<char>, i: int, reps: Reps) -> (Seq<char>, Reps)
    decreases c.len(), 2int, 0int,
{
    if 0 <= i < c.len() {
        proof {
            lemma_cmd_parse(c, i);
        }
        match cmd_parse(c, i) {
            Some((CmdShape::Symbol(t), _)) => (t, reps),
            Some((CmdShape::SizeDecl, _)) => (Seq::<char>::empty(), reps),
            Some((CmdShape::Sized(size, a, b), _)) => {
                let (t, r) = tr_content(c.subrange(a, b), 0, reps);
                ("#text(size: "@ + size + ")["@ + t + "]"@, r)
            },
            Some((CmdShape::Fixed(name), _)) => (fixed_typst(name), reps),
            Some((CmdShape::One(name, a, b), _)) => {
                let arg = c.subrange(a, b);
                if name == "underline"@ {
                    let (m, r) = tr_scan(arg, 0, reps);
                    (one_arg_typst(name, md_to_typst(m), arg), r)
                } else if name == "url"@ {
                    (one_arg_typst(name, Seq::<char>::empty(), arg), reps)
                } else {
                    let (t, r) = tr_content(arg, 0, reps);
                    (one_arg_typst(name, t, arg), r)
                }
            },
            Some((CmdShape::Two(name, a0, b0, a1, b1), _)) => {
                let (t, r) = tr_content(c.subrange(a1, b1), 0, reps);
                (two_arg_typst(name, c.subrange(a0, b0), t), r)
            },
            None => (Seq::<char>::empty(), reps),
        }
    } else {
        (Seq::<char>::empty(), reps)
    }
}

/// Typst for a command argument `c[i..]` to Typst: nested commands are
/// translated, other characters Typst-escaped.
pub open spec fn tr_content(c: Seq<char>, i: int, reps: Reps) -> (Seq<char>, Reps)
    decreases c.len(), 3int, c.len() - i,
{
    if i < 0 || i >= c.len() {
        (Seq::<char>::empty(), reps)
    } else {
        let next = content_next(c, i);
        let (piece, r1) = if c[i] == '\\' {
            if let Some((_, _)) = cmd_parse(c, i) {
                tr_command(c, i, reps)
            } else {
                ("\\\\"@, reps)
            }
        } else {
            (escape_typst_char(c[i]), reps)
        };
        proof {
            lemma_content_next(c, i);
        }
        let (rest, r2) = tr_content(c, next, r1);
        (piece + rest, r2)
    }
}

// ---------------------------------------------------------------------------
// Executable parsing
// ---------------------------------------------------------------------------

fn name_end_exec(c: &[char], j: usize) -> (r: usize)
    requires
        j <= c@.len(),
    ensures
        r == name_end(c@, j as int),
{
    let mut k: usize = j;
    while k < c.len() && is_ascii_alpha_char(c[k])
        invariant
            j <= k <= c@.len(),
            name_end(c@, j as int) == name_end(c@, k as int),
        decreases c.len() - k,
    {
        k += 1;
    }
    k
}

fn braced_exec(c: &[char], i: usize) -> (r: Option<(usize, usize)>)
    requires
        i <= c@.len(),
    ensures
        match r {
            Some((a, b)) => braced(c@, i as int) == Some((a as int, b as int)),
            None => braced(c@, i as int) is None,
        },
{
    let idx = first_non_ws_at(c, i);
    if idx >= c.len() || c[idx] != '{' {
        return None;
    }
    let mut depth: usize = 1;
    let mut j: usize = idx + 1;
    while j < c.len()
        invariant
            idx + 1 <= j <= c@.len(),
            idx < c@.len(),
            idx == first_non_ws_from(c@, i as int),
            c@[idx as int] == '{',
            1 <= depth <= j,
            match_close(c@, idx + 1, 1) == match_close(c@, j as int, depth as nat),
        decreases c.len() - j,
    {
        if c[j] == '{' {
            depth += 1;
        } else if c[j] == '}' {
            if depth <= 1 {
                return Some((idx + 1, j));
            }
            depth -= 1;
        }
        j += 1;
    }
    None
}

fn math_span_exec(c: &[char], start: usize) -> (r: Option<usize>)
    requires
        start < c@.len(),
    ensures
        match r {
            Some(k) => math_span(c@, start as int) == Some(k as int),
            None => math_span(c@, start as int) is None,
        },
{
    let n: usize = c.len();
    let doubled = start + 1 < n && c[start + 1] == '$';
    let mut j: usize = if doubled { start + 2 } else { start + 1 };
    while j < c.len()
        invariant
            start < j <= c@.len(),
            doubled == (start + 1 < c@.len() && c@[start + 1] == '$'),
            math_span(c@, start as int) == math_close(c@, j as int, doubled),
        decreases c.len() - j,
    {
        if c[j] == '$' && !doubled {
            return Some(j + 1);
        }
        if c[j] == '$' && j + 1 < c.len() && c[j + 1] == '$' {
            return Some(j + 2);
        }
        j += 1;
    }
    None
}

fn command_arity_exec(name: &[char]) -> (r: Option<u8>)
    ensures
        r == command_arity(name@),
{
    if eq_lit(name, "quad") || eq_lit(name, "qquad") || eq_lit(name, "enspace") || eq_lit(
        name,
        "enskip",
    ) || eq_lit(name, "hfill") || eq_lit(name, "newline") || eq_lit(name, "newpage") || eq_lit(
        name,
        "pagebreak",
    ) || eq_lit(name, "clearpage") {
        Some(0)
    } else if eq_lit(name, "textbf") || eq_lit(name, "bf") || eq_lit(name, "textit") || eq_lit(
        name,
        "it",
    ) || eq_lit(name, "emph") || eq_lit(name, "underline") || eq_lit(name, "textsc") || eq_lit(
        name,
        "textsuperscript",
    ) || eq_lit(name, "textsubscript") || eq_lit(name, "sout") || eq_lit(name, "strikeout")
        || eq_lit(name, "texttt") || eq_lit(name, "textsf") || eq_lit(name, "textrm") || eq_lit(
        name,
        "textnormal",
    ) || eq_lit(name, "rm") || eq_lit(name, "mathsf") || eq_lit(name, "mathbf") || eq_lit(
        name,
        "mathrm",
    ) || eq_lit(name, "mathit") || eq_lit(name, "mathtt") || eq_lit(name, "mathcal") || eq_lit(
        name,
        "mathfrak",
    ) || eq_lit(name, "mathbb") || eq_lit(name, "boldsymbol") || eq_lit(name, "overline")
        || eq_lit(name, "utilde") || eq_lit(name, "url") {
        Some(1)
    } else if eq_lit(name, "textcolor") || eq_lit(name, "color") || eq_lit(name, "colorbox")
        || eq_lit(name, "href") {
        Some(2)
    } else {
        None
    }
}

fn markdown_wrap_exec(name: &[char]) -> (r: Option<(&'static str, &'static str)>)
    ensures
        match r {
            Some((o, cl)) => markdown_wrap(name@) == Some((o@, cl@)),
            None => markdown_wrap(name@) is None,
        },
{
    if eq_lit(name, "textbf") || eq_lit(name, "bf") {
        Some(("**", "**"))
    } else if eq_lit(name, "textit") || eq_lit(name, "it") || eq_lit(name, "emph") {
        Some(("*", "*"))
    } else if eq_lit(name, "sout") || eq_lit(name, "strikeout") {
        Some(("~~", "~~"))
    } else if eq_lit(name, "textsuperscript") {
        Some(("^", "^"))
    } else if eq_lit(name, "textsubscript") {
        Some(("~", "~"))
    } else if eq_lit(name, "texttt") {
        Some(("`", "`"))
    } else {
        None
    }
}

fn size_pt_exec(name: &[char]) -> (r: Option<&'static str>)
    ensures
        match r {
            Some(s) => size_pt(name@) == Some(s@),
            None => size_pt(name@) is None,
        },
{
    if eq_lit(name, "tiny") {
        Some("5pt")
    } else if eq_lit(name, "scriptsize") {
        Some("7pt")
    } else if eq_lit(name, "footnotesize") {
        Some("8pt")
    } else if eq_lit(name, "small") {
        Some("9pt")
    } else if eq_lit(name, "normalsize") {
        Some("10pt")
    } else if eq_lit(name, "large") {
        Some("12pt")
    } else if eq_lit(name, "Large") {
        Some("14.4pt")
    } else if eq_lit(name, "LARGE") {
        Some("17.28pt")
    } else if eq_lit(name, "huge") {
        Some("20.74pt")
    } else if eq_lit(name, "Huge") {
        Some("24.88pt")
    } else {
        None
    }
}

fn control_symbol_exec(ch: char) -> (r: Option<&'static str>)
    ensures
        match r {
            Some(s) => control_symbol(ch) == Some(s@),
            None => control_symbol(ch) is None,
        },
{
    if ch == '\\' {
        Some("#linebreak()")
    } else if ch == ' ' {
        Some(" ")
    } else if ch == ',' {
        Some("#h(0.1667em)")
    } else if ch == ';' {
        Some("#h(0.2778em)")
    } else if ch == ':' {
        Some("#h(0.2222em)")
    } else if ch == '!' {
        Some("#h(-0.1667em)")
    } else {
        None
    }
}

fn fixed_typst_exec(name: &[char]) -> (r: &'static str)
    ensures
        r@ == fixed_typst(name@),
{
    if eq_lit(name, "quad") {
        "#h(1em)"
    } else if eq_lit(name, "qquad") {
        "#h(2em)"
    } else if eq_lit(name, "enspace") || eq_lit(name, "enskip") {
        "#h(0.5em)"
    } else if eq_lit(name, "hfill") {
        "#h(1fr)"
    } else if eq_lit(name, "newline") {
        "#linebreak()"
    } else {
        "#pagebreak()"
    }
}

/// Executable counterpart of `CmdShape`.
enum Shape {
    Symbol(&'static str),
    SizeDecl,
    Sized(&'static str, usize, usize),
    Fixed(Vec<char>),
    One(Vec<char>, usize, usize),
    Two(Vec<char>, usize, usize, usize, usize),
}

impl Shape {
    spec fn view_shape(&self) -> CmdShape {
        match self {
            Shape::Symbol(t) => CmdShape::Symbol(t@),
            Shape::SizeDecl => CmdShape::SizeDecl,
            Shape::Sized(s, a, b) => CmdShape::Sized(s@, *a as int, *b as int),
            Shape::Fixed(n) => CmdShape::Fixed(n@),
            Shape::One(n, a, b) => CmdShape::One(n@, *a as int, *b as int),
            Shape::Two(n, a0, b0, a1, b1) => CmdShape::Two(
                n@,
                *a0 as int,
                *b0 as int,
                *a1 as int,
                *b1 as int,
            ),
        }
    }
}

fn cmd_parse_exec(c: &[char], i: usize) -> (r: Option<(Shape, usize)>)
    requires
        i < c@.len(),
    ensures
        match r {
            Some((sh, next)) => cmd_parse(c@, i as int) == Some((sh.view_shape(), next as int)),
            None => cmd_parse(c@, i as int) is None,
        },
{
    let n: usize = c.len();
    let j = name_end_exec(c, i + 1);
    proof {
        lemma_name_end(c@, i + 1);
        lemma_cmd_parse(c@, i as int);
        lemma_braced(c@, j as int);
    }
    if j == i + 1 {
        if i + 1 < c.len() {
            match control_symbol_exec(c[i + 1]) {
                Some(t) => Some((Shape::Symbol(t), i + 2)),
                None => None,
            }
        } else {
            None
        }
    } else {
        proof {
            lemma_name_end(c@, i + 1);
        }
        let name = slice_vec(c, i + 1, j);
        match size_pt_exec(&name) {
            Some(size) => {
                let idx = first_non_ws_at(c, j);
                if idx < c.len() && c[idx] == '{' {
                    proof {
                        lemma_braced(c@, idx as int);
                    }
                    match braced_exec(c, idx) {
                        Some((a, b)) => Some((Shape::Sized(size, a, b), b + 1)),
                        None => None,
                    }
                } else {
                    Some((Shape::SizeDecl, j))
                }
            },
            None => match command_arity_exec(&name) {
                Some(0) => Some((Shape::Fixed(name), j)),
                Some(1) => match braced_exec(c, j) {
                    Some((a, b)) => Some((Shape::One(name, a, b), b + 1)),
                    None => None,
                },
                Some(2) => match braced_exec(c, j) {
                    Some((a0, b0)) => {
                        proof {
                            lemma_braced(c@, j as int);
                        }
                        proof {
                            lemma_braced(c@, b0 + 1);
                        }
                        match braced_exec(c, b0 + 1) {
                            Some((a1, b1)) => Some((Shape::Two(name, a0, b0, a1, b1), b1 + 1)),
                            None => None,
                        }
                    },
                    None => None,
                },
                _ => None,
            },
        }
    }
}

fn wrap_parse_exec(c: &[char], i: usize) -> (r: Option<(&'static str, &'static str, usize, usize)>)
    requires
        i < c@.len(),
    ensures
        match r {
            Some((o, cl, a, b)) => wrap_parse(c@, i as int) == Some((o@, cl@, a as int, b as int)),
            None => wrap_parse(c@, i as int) is None,
        },
{
    let n: usize = c.len();
    let j = name_end_exec(c, i + 1);
    proof {
        lemma_name_end(c@, i + 1);
    }
    let name = slice_vec(c, i + 1, j);
    match markdown_wrap_exec(&name) {
        Some((open, close)) => match braced_exec(c, j) {
            Some((a, b)) => Some((open, close, a, b)),
            None => None,
        },
        None => None,
    }
}

// ---------------------------------------------------------------------------
// Executable conversion
// ---------------------------------------------------------------------------

fn push_escaped(out: &mut String, ch: char)
    ensures
        final(out)@ == old(out)@ + escape_typst_char(ch),
{
    if ch == '\\' || ch == '#' || ch == '[' || ch == ']' || ch == '{' || ch == '}' || ch == '*'
        || ch == '_' || ch == '$' || ch == '`' || ch == '@' || ch == '<' || ch == '>' {
        push_char(out, '\\');
    }
    push_char(out, ch);
    proof {
        let ghost e = escape_typst_char(ch);
        assert(final(out)@ =~= old(out)@ + e);
    }
}

fn typst_color_exec(spec: &[char]) -> (r: String)
    ensures
        r@ == typst_color(spec@),
{
    let s = trim_str_of(spec);
    let v = chars_of(s.as_str());
    if v.len() > 0 && v[0] == '#' {
        let mut out = String::new();
        out.append("rgb(\"");
        out.append(s.as_str());
        out.append("\")");
        out
    } else {
        s
    }
}

fn trim_str_of(v: &[char]) -> (r: String)
    ensures
        r@ == trim(v@),
{
    let mut s = String::new();
    push_range(&mut s, v, 0, v.len());
    assert(v@.subrange(0, v@.len() as int) =~= v@);
    trim_str(s.as_str())
}

fn typst_string_exec(s: &[char]) -> (r: String)
    ensures
        r@ == typst_string(s@),
{
    let mut a = String::new();
    replace_all_into(&mut a, s, 0, &chars_of("\\"), "\\\\");
    assert(s@.skip(0) =~= s@);
    let b = replace_str(a.as_str(), "\"", "\\\"");
    let mut out = String::new();
    out.append("\"");
    out.append(b.as_str());
    out.append("\"");
    out
}

fn md_to_typst_exec(content: &str) -> (r: String)
    ensures
        r@ == md_to_typst(content@),
{
    let fm = MdFrontMatter::empty();
    match convert_markdown_checked(content, &fm) {
        Ok(doc) => trim_str(doc.body.as_str()),
        Err(_) => String::from_str(content),
    }
}

fn wrap_body(open: &str, body: &str) -> (r: String)
    ensures
        r@ == open@ + body@ + "]"@,
{
    let mut out = String::new();
    out.append(open);
    out.append(body);
    out.append("]");
    out
}

fn one_arg_typst_exec(name: &[char], body: &str, arg: &[char]) -> (r: String)
    ensures
        r@ == one_arg_typst(name@, body@, arg@),
{
    if eq_lit(name, "textbf") || eq_lit(name, "bf") {
        wrap_body("#strong[", body)
    } else if eq_lit(name, "textit") || eq_lit(name, "it") || eq_lit(name, "emph") {
        wrap_body("#emph[", body)
    } else if eq_lit(name, "underline") {
        wrap_body("#underline(evade: false)[", body)
    } else if eq_lit(name, "textsc") {
        wrap_body("#smallcaps[", body)
    } else if eq_lit(name, "textsuperscript") {
        wrap_body("#super[", body)
    } else if eq_lit(name, "textsubscript") {
        wrap_body("#sub[", body)
    } else if eq_lit(name, "sout") || eq_lit(name, "strikeout") {
        wrap_body("#strike[", body)
    } else if eq_lit(name, "texttt") {
        wrap_body("#raw[", body)
    } else if eq_lit(name, "textsf") || eq_lit(name, "textrm") || eq_lit(name, "textnormal")
        || eq_lit(name, "rm") {
        String::from_str(body)
    } else if eq_lit(name, "mathsf") {
        wrap_body("#math.sans[", body)
    } else if eq_lit(name, "mathbf") {
        wrap_body("#math.bold[", body)
    } else if eq_lit(name, "mathrm") {
        wrap_body("#math.upright[", body)
    } else if eq_lit(name, "mathit") {
        wrap_body("#math.italic[", body)
    } else if eq_lit(name, "mathtt") {
        wrap_body("#math.mono[", body)
    } else if eq_lit(name, "mathcal") {
        wrap_body("#math.cal[", body)
    } else if eq_lit(name, "mathfrak") {
        wrap_body("#math.frak[", body)
    } else if eq_lit(name, "mathbb") {
        wrap_body("#math.bb[", body)
    } else if eq_lit(name, "boldsymbol") {
        wrap_body("#math.bold[", body)
    } else if eq_lit(name, "overline") {
        wrap_body("#overline[", body)
    } else if eq_lit(name, "utilde") {
        wrap_body("#underline[", body)
    } else {
        let t = typst_string_exec(arg);
        let mut out = String::new();
        out.append("#link(");
        out.append(t.as_str());
        out.append(")[");
        out.append(t.as_str());
        out.append("]");
        out
    }
}

fn two_arg_typst_exec(name: &[char], first: &[char], body: &str) -> (r: String)
    ensures
        r@ == two_arg_typst(name@, first@, body@),
{
    let mut out = String::new();
    if eq_lit(name, "textcolor") || eq_lit(name, "color") {
        out.append("#text(fill: ");
        out.append(typst_color_exec(first).as_str());
    } else if eq_lit(name, "colorbox") {
        out.append("#highlight(fill: ");
        out.append(typst_color_exec(first).as_str());
    } else {
        out.append("#link(");
        out.append(typst_string_exec(first).as_str());
    }
    out.append(")[");
    out.append(body);
    out.append("]");
    out
}

/// View of a placeholder table.
pub open spec fn reps_view(v: Seq<(String, String)>) -> Reps {
    v.map_values(|p: (String, String)| (p.0@, p.1@))
}

fn placeholder_exec(n: usize) -> (r: String)
    ensures
        r@ == placeholder(n as nat),
{
    let mut out = String::new();
    out.append("SOMADOCLATEXCMD");
    push_decimal(&mut out, n as u128);
    out.append("Q7F3A");
    out
}

struct LatexTranslator {
    replacements: Vec<(String, String)>,
}

impl LatexTranslator {
    spec fn reps(&self) -> Reps {
        reps_view(self.replacements@)
    }

    /// Top-level scan of `c`, appended to `out`.
    fn scan_markdown(&mut self, c: &[char], out: &mut String)
        ensures
            final(out)@ == old(out)@ + tr_scan(c@, 0, old(self).reps()).0,
            final(self).reps() == tr_scan(c@, 0, old(self).reps()).1,
        decreases c@.len(), 3int,
    {
        let ghost r0 = self.reps();
        let ghost out0 = out@;
        let mut i: usize = 0;
        while i < c.len()
            invariant
                0 <= i <= c@.len(),
                out0 + tr_scan(c@, 0, r0).0 == out@ + tr_scan(c@, i as int, self.reps()).0,
                tr_scan(c@, 0, r0).1 == tr_scan(c@, i as int, self.reps()).1,
            decreases c.len() - i,
        {
            let ghost ri = self.reps();
            let ghost oi = out@;
            proof {
                lemma_scan_next(c@, i as int);
                lemma_wrap_parse(c@, i as int);
                lemma_cmd_parse(c@, i as int);
            }
            if c[i] == '\\' {
                if i + 1 < c.len() && c[i + 1] == '$' {
                    push_char(out, '\\');
                    push_char(out, '$');
                    assert(out@ =~= oi + seq!['\\', '$']);
                    i += 2;
                    continue;
                }
                match wrap_parse_exec(c, i) {
                    Some((open, close, a, b)) => {
                        let inner = slice_vec(c, a, b);
                        out.append(open);
                        self.scan_markdown(&inner, out);
                        out.append(close);
                        assert(out@ =~= oi + (open@ + tr_scan(inner@, 0, ri).0 + close@));
                        i = b + 1;
                        continue;
                    },
                    None => {},
                }
                match self.parse_command(c, i) {
                    Some((t, next)) => {
                        let ph = placeholder_exec(self.replacements.len());
                        let ghost rc = self.reps();
                        out.append(ph.as_str());
                        let ph2 = String::from_str(ph.as_str());
                        self.replacements.push((ph2, t));
                        assert(self.reps() =~= rc.push((placeholder(rc.len()), t@)));
                        i = next;
                    },
                    None => {
                        push_char(out, '\\');
                        i += 1;
                    },
                }
            } else if c[i] == '$' {
                match math_span_exec(c, i) {
                    Some(next) => {
                        push_range(out, c, i, next);
                        i = next;
                    },
                    None => {
                        push_char(out, '$');
                        assert(c@.subrange(i as int, i + 1) =~= seq!['$']);
                        i += 1;
                    },
                }
            } else {
                push_char(out, c[i]);
                i += 1;
            }
        }
    }

    /// The command at `c[i]`: its Typst snippet and the index after it.
    fn parse_command(&mut self, c: &[char], i: usize) -> (r: Option<(String, usize)>)
        requires
            i < c@.len(),
        ensures
            match cmd_parse(c@, i as int) {
                None => r is None && final(self).reps() == old(self).reps(),
                Some((_, next)) => r matches Some((t, n)) && n == next && (t@, final(self).reps())
                    == tr_command(c@, i as int, old(self).reps()),
            },
        decreases c@.len(), 2int,
    {
        proof {
            lemma_cmd_parse(c@, i as int);
        }
        match cmd_parse_exec(c, i) {
            None => None,
            Some((shape, next)) => {
                let t = match shape {
                    Shape::Symbol(t) => String::from_str(t),
                    Shape::SizeDecl => String::new(),
                    Shape::Sized(size, a, b) => {
                        let arg = slice_vec(c, a, b);
                        let body = self.content_to_typst(&arg);
                        let mut out = String::new();
                        out.append("#text(size: ");
                        out.append(size);
                        out.append(")[");
                        out.append(body.as_str());
                        out.append("]");
                        out
                    },
                    Shape::Fixed(name) => String::from_str(fixed_typst_exec(&name)),
                    Shape::One(name, a, b) => {
                        let arg = slice_vec(c, a, b);
                        if eq_lit(&name, "underline") {
                            let mut m = String::new();
                            self.scan_markdown(&arg, &mut m);
                            let body = md_to_typst_exec(m.as_str());
                            one_arg_typst_exec(&name, body.as_str(), &arg)
                        } else if eq_lit(&name, "url") {
                            let empty = String::new();
                            one_arg_typst_exec(&name, empty.as_str(), &arg)
                        } else {
                            let body = self.content_to_typst(&arg);
                            one_arg_typst_exec(&name, body.as_str(), &arg)
                        }
                    },
                    Shape::Two(name, a0, b0, a1, b1) => {
                        let first = slice_vec(c, a0, b0);
                        let arg = slice_vec(c, a1, b1);
                        let body = self.content_to_typst(&arg);
                        two_arg_typst_exec(&name, &first, body.as_str())
                    },
                };
                Some((t, next))
            },
        }
    }

    /// Translate a command argument to Typst.
    fn content_to_typst(&mut self, c: &[char]) -> (r: String)
        ensures
            (r@, final(self).reps()) == tr_content(c@, 0, old(self).reps()),
        decreases c@.len(), 3int,
    {
        let ghost r0 = self.reps();
        let mut out = String::new();
        let mut i: usize = 0;
        while i < c.len()
            invariant
                0 <= i <= c@.len(),
                tr_content(c@, 0, r0).0 == out@ + tr_content(c@, i as int, self.reps()).0,
                tr_content(c@, 0, r0).1 == tr_content(c@, i as int, self.reps()).1,
            decreases c.len() - i,
        {
            proof {
                lemma_content_next(c@, i as int);
                lemma_cmd_parse(c@, i as int);
            }
            if c[i] == '\\' {
                match self.parse_command(c, i) {
                    Some((t, next)) => {
                        out.append(t.as_str());
                        i = next;
                    },
                    None => {
                        out.append("\\\\");
                        i += 1;
                    },
                }
            } else {
                push_escaped(&mut out, c[i]);
                i += 1;
            }
        }
        out
    }
}

/// Scan raw LaTeX commands in `markdown` and replace them: text-style commands
/// with a Markdown equivalent become that Markdown; other known commands become
/// placeholders, returned with their Typst snippets in the order they were made.
pub fn protect_markdown(markdown: &str) -> (r: (String, Vec<(String, String)>))
    ensures
        r.0@ == tr_scan(markdown@, 0, Seq::empty()).0,
        reps_view(r.1@) == tr_scan(markdown@, 0, Seq::empty()).1,
{
    let c = chars_of(markdown);
    let mut tr = LatexTranslator { replacements: Vec::new() };
    let mut out = String::new();
    assert(tr.reps() =~= Seq::<(Seq<char>, Seq<char>)>::empty());
    tr.scan_markdown(&c, &mut out);
    (out, tr.replacements)
}

/// Applying a placeholder table, last entry first: each placeholder is replaced
/// by its snippet everywhere in the text.
pub open spec fn restore_all(body: Seq<char>, reps: Reps) -> Seq<char>
    decreases reps.len(),
{
    if reps.len() == 0 {
        body
    } else {
        restore_all(replace_all(body, reps.last().0, reps.last().1), reps.drop_last())
    }
}

/// Restore placeholders in the Typst body into Typst snippets. Entries are
/// applied from the last to the first, so a snippet that holds an earlier
/// placeholder has it restored too.
pub fn restore_placeholders(body: &str, replacements: &Vec<(String, String)>) -> (r: String)
    ensures
        r@ == restore_all(body@, reps_view(replacements@)),
{
    let ghost reps = reps_view(replacements@);
    let mut cur = String::from_str(body);
    let mut k: usize = replacements.len();
    assert(reps.take(k as int) =~= reps);
    while k > 0
        invariant
            0 <= k <= replacements@.len(),
            reps == reps_view(replacements@),
            restore_all(body@, reps) == restore_all(cur@, reps.take(k as int)),
        decreases k,
    {
        let next = replace_str(
            cur.as_str(),
            replacements[k - 1].0.as_str(),
            replacements[k - 1].1.as_str(),
        );
        assert(reps.take(k as int).drop_last() =~= reps.take(k - 1));
        cur = next;
        k -= 1;
    }
    assert(reps.take(0) =~= Seq::<(Seq<char>, Seq<char>)>::empty());
    cur
}


// ---------------------------------------------------------------------------
// Laws
// ---------------------------------------------------------------------------

/// Text with no backslash from `c[i]` on passes the scan unchanged (math spans
/// included) and adds no placeholder.
proof fn lemma_scan_no_backslash(c: Seq<char>, i: int, reps: Reps)
    requires
        0 <= i <= c.len(),
        forall|k: int| i <= k < c.len() ==> #[trigger] c[k] != '\\',
    ensures
        tr_scan(c, i, reps) == (c.skip(i), reps),
    decreases c.len() - i,
{
    if i < c.len() {
        lemma_scan_next(c, i);
        let next = scan_next(c, i);
        lemma_scan_no_backslash(c, next, reps);
        if c[i] != '$' {
            assert(c.subrange(i, next) =~= seq![c[i]]);
        }
        assert(c.skip(i) =~= c.subrange(i, next) + c.skip(next));
    } else {
        assert(c.skip(i) =~= Seq::<char>::empty());
    }
}

/// Text whose only backslashes end a line (hard breaks) passes the scan
/// unchanged and adds no placeholder.
pub proof fn lemma_scan_hard_breaks(c: Seq<char>, i: int, reps: Reps)
    requires
        0 <= i <= c.len(),
        forall|k: int| i <= k < c.len() && #[trigger] c[k] == '\\' ==> k + 1 < c.len() && c[k + 1] == '\n',
    ensures
        tr_scan(c, i, reps) == (c.skip(i), reps),
    decreases c.len() - i,
{
    if i < c.len() {
        lemma_scan_next(c, i);
        let next = scan_next(c, i);
        if c[i] == '\\' {
            assert(c[i + 1] == '\n');
            assert(name_end(c, i + 1) == i + 1);
            assert(c.subrange(i + 1, i + 1) =~= Seq::<char>::empty());
            assert(markdown_wrap(Seq::<char>::empty()) is None) by {
                reveal_strlit("textbf");
                reveal_strlit("bf");
                reveal_strlit("textit");
                reveal_strlit("it");
                reveal_strlit("emph");
                reveal_strlit("sout");
                reveal_strlit("strikeout");
                reveal_strlit("textsuperscript");
                reveal_strlit("textsubscript");
                reveal_strlit("texttt");
            }
            assert(wrap_parse(c, i) is None);
            assert(cmd_parse(c, i) is None);
            assert(next == i + 1);
        }
        lemma_scan_hard_breaks(c, next, reps);
        if c[i] != '$' {
            assert(c.subrange(i, next) =~= seq![c[i]]);
        }
        assert(c.skip(i) =~= c.subrange(i, next) + c.skip(next));
    } else {
        assert(c.skip(i) =~= Seq::<char>::empty());
    }
}

/// Markdown without handwritten LaTeX (no backslash at all) leaves
/// `protect_markdown` unchanged, with an empty placeholder table.
pub proof fn lemma_protect_without_commands(markdown: Seq<char>)
    requires
        forall|k: int| 0 <= k < markdown.len() ==> #[trigger] markdown[k] != '\\',
    ensures
        tr_scan(markdown, 0, Seq::empty()) == (markdown, Seq::<(Seq<char>, Seq<char>)>::empty()),
{
    lemma_scan_no_backslash(markdown, 0, Seq::empty());
    assert(markdown.skip(0) =~= markdown);
}

/// A placeholder table whose `k`-th entry is the `k`-th placeholder.
pub open spec fn numbered(reps: Reps) -> bool {
    forall|k: int| 0 <= k < reps.len() ==> #[trigger] reps[k].0 == placeholder(k as nat)
}

proof fn lemma_scan_numbered(c: Seq<char>, i: int, reps: Reps)
    requires
        numbered(reps),
    ensures
        numbered(tr_scan(c, i, reps).1),
    decreases c.len(), 3int, c.len() - i,
{
    if 0 <= i < c.len() {
        lemma_scan_next(c, i);
        let next = scan_next(c, i);
        let r1 = if c[i] == '\\' {
            if i + 1 < c.len() && c[i + 1] == '$' {
                reps
            } else if let Some((open, close, a, b)) = wrap_parse(c, i) {
                lemma_wrap_parse(c, i);
                lemma_scan_numbered(c.subrange(a, b), 0, reps);
                tr_scan(c.subrange(a, b), 0, reps).1
            } else if let Some((_, _)) = cmd_parse(c, i) {
                lemma_command_numbered(c, i, reps);
                let r = tr_command(c, i, reps).1;
                let r2 = r.push((placeholder(r.len()), tr_command(c, i, reps).0));
                assert(numbered(r2)) by {
                    assert forall|k: int| 0 <= k < r2.len() implies #[trigger] r2[k].0 == placeholder(
                        k as nat,
                    ) by {
                        if k < r.len() {
                            assert(r2[k] == r[k]);
                        }
                    }
                }
                r2
            } else {
                reps
            }
        } else {
            reps
        };
        assert(numbered(r1));
        lemma_scan_numbered(c, next, r1);
    }
}

proof fn lemma_command_numbered(c: Seq<char>, i: int, reps: Reps)
    requires
        numbered(reps),
    ensures
        numbered(tr_command(c, i, reps).1),
    decreases c.len(), 2int, 0int,
{
    if 0 <= i < c.len() {
        lemma_cmd_parse(c, i);
        match cmd_parse(c, i) {
            Some((CmdShape::Sized(size, a, b), _)) => {
                lemma_content_numbered(c.subrange(a, b), 0, reps);
            },
            Some((CmdShape::One(name, a, b), _)) => {
                let arg = c.subrange(a, b);
                lemma_scan_numbered(arg, 0, reps);
                lemma_content_numbered(arg, 0, reps);
            },
            Some((CmdShape::Two(name, a0, b0, a1, b1), _)) => {
                lemma_content_numbered(c.subrange(a1, b1), 0, reps);
            },
            _ => {},
        }
    }
}

proof fn lemma_content_numbered(c: Seq<char>, i: int, reps: Reps)
    requires
        numbered(reps),
    ensures
        numbered(tr_content(c, i, reps).1),
    decreases c.len(), 3int, c.len() - i,
{
    if 0 <= i < c.len() {
        lemma_content_next(c, i);
        let next = content_next(c, i);
        if c[i] == '\\' {
            if let Some((_, _)) = cmd_parse(c, i) {
                lemma_command_numbered(c, i, reps);
                lemma_content_numbered(c, next, tr_command(c, i, reps).1);
            } else {
                lemma_content_numbered(c, next, reps);
            }
        } else {
            lemma_content_numbered(c, next, reps);
        }
    }
}

/// `protect_markdown` numbers its placeholders in the order it makes them:
/// the `k`-th entry of its table holds the `k`-th placeholder.
pub proof fn lemma_placeholders_numbered(markdown: Seq<char>)
    ensures
        numbered(tr_scan(markdown, 0, Seq::empty()).1),
{
    lemma_scan_numbered(markdown, 0, Seq::empty());
}

/// Different numbers give different placeholders.
pub proof fn lemma_placeholders_distinct(n: nat, m: nat)
    requires
        n != m,
    ensures
        placeholder(n) != placeholder(m),
{
    let p = "SOMADOCLATEXCMD"@;
    let q = "Q7F3A"@;
    if placeholder(n) == placeholder(m) {
        let dn = decimal(n);
        let dm = decimal(m);
        assert(placeholder(n).len() == p.len() + dn.len() + q.len());
        assert(dn.len() == dm.len());
        assert(placeholder(n).subrange(p.len() as int, (p.len() + dn.len()) as int) =~= dn);
        assert(placeholder(m).subrange(p.len() as int, (p.len() + dm.len()) as int) =~= dm);
        crate::text::lemma_decimal_injective(n, m);
    }
}

/// A `\name` command is translated exactly when its name is known: a name
/// with neither a size nor an arity is left as it is, a known command with no
/// argument is translated, and one with arguments is when its braced groups
/// are there.
pub proof fn lemma_known_commands(c: Seq<char>, i: int)
    requires
        0 <= i < c.len(),
        name_end(c, i + 1) > i + 1,
    ensures
        ({
            let j = name_end(c, i + 1);
            let name = c.subrange(i + 1, j);
            &&& (size_pt(name) is None && command_arity(name) is None) ==> cmd_parse(c, i) is None
            &&& size_pt(name) is Some ==> (cmd_parse(c, i) is Some <== !(first_non_ws_from(c, j)
                < c.len() && c[first_non_ws_from(c, j)] == '{') || braced(
                c,
                first_non_ws_from(c, j),
            ) is Some)
            &&& (size_pt(name) is None && command_arity(name) == Some(0u8)) ==> cmd_parse(c, i) is Some
            &&& (size_pt(name) is None && command_arity(name) == Some(1u8)) ==> (cmd_parse(c, i) is Some
                <==> braced(c, j) is Some)
            &&& (size_pt(name) is None && command_arity(name) == Some(2u8)) ==> (cmd_parse(c, i) is Some
                <==> (braced(c, j) matches Some((a0, b0)) && braced(c, b0 + 1) is Some))
        }),
{
}


/// The text of the command `\name` followed by its arguments, each in braces.
pub open spec fn command_text(name: Seq<char>, args: Seq<Seq<char>>) -> Seq<char>
    decreases args.len(),
{
    if args.len() == 0 {
        seq!['\\'] + name
    } else {
        command_text(name, args.drop_last()) + seq!['{'] + args.last() + seq!['}']
    }
}

/// An argument with no brace in it.
pub open spec fn brace_free(a: Seq<char>) -> bool {
    forall|k: int| 0 <= k < a.len() ==> #[trigger] a[k] != '{' && a[k] != '}'
}

proof fn lemma_name_end_at(c: Seq<char>, j: int, e: int)
    requires
        0 <= j <= e <= c.len(),
        forall|k: int| j <= k < e ==> is_ascii_alpha(#[trigger] c[k]),
        e == c.len() || !is_ascii_alpha(c[e]),
    ensures
        name_end(c, j) == e,
    decreases e - j,
{
    if j < e {
        lemma_name_end_at(c, j + 1, e);
    }
}

proof fn lemma_match_close_plain(c: Seq<char>, j: int, e: int)
    requires
        0 <= j <= e < c.len(),
        forall|k: int| j <= k < e ==> #[trigger] c[k] != '{' && c[k] != '}',
        c[e] == '}',
    ensures
        match_close(c, j, 1) == Some(e),
    decreases e - j,
{
    if j < e {
        lemma_match_close_plain(c, j + 1, e);
    }
}

/// A braced argument with no brace inside, at `j`, is found by `braced`.
proof fn lemma_braced_plain(c: Seq<char>, j: int, a: Seq<char>)
    requires
        0 <= j,
        j + a.len() + 2 <= c.len(),
        c[j] == '{',
        c.subrange(j + 1, j + 1 + a.len()) == a,
        c[j + 1 + a.len()] == '}',
        brace_free(a),
    ensures
        braced(c, j) == Some((j + 1, j + 1 + a.len())),
{
    assert(!crate::text::is_ws(c[j]));
    assert forall|k: int| j + 1 <= k < j + 1 + a.len() implies #[trigger] c[k] != '{' && c[k] != '}' by {
        assert(c[k] == a[k - j - 1]);
    }
    lemma_match_close_plain(c, j + 1, j + 1 + a.len());
}

/// The command table: a command `\name{…}…` (a name of ASCII letters, plain
/// arguments, not a size command) is translated when its name is known and it
/// is given as many arguments as its arity, and a command whose name is not
/// known is not translated.
pub proof fn lemma_command_table(name: Seq<char>, args: Seq<Seq<char>>)
    requires
        name.len() > 0,
        forall|k: int| 0 <= k < name.len() ==> is_ascii_alpha(#[trigger] name[k]),
        size_pt(name) is None,
        forall|k: int| 0 <= k < args.len() ==> brace_free(#[trigger] args[k]),
    ensures
        (command_arity(name) matches Some(n) && n == args.len()) ==> cmd_parse(
            command_text(name, args),
            0,
        ) is Some,
        command_arity(name) is None ==> cmd_parse(command_text(name, args), 0) is None,
{
    let c = command_text(name, args);
    let head = seq!['\\'] + name;
    let e: int = (name.len() + 1) as int;
    // the text starts with `\name`, then a brace or nothing
    assert(c.len() >= e && c.subrange(0, e) == head && (c.len() == e || c[e] == '{')) by {
        lemma_command_text_head(name, args);
    }
    assert forall|k: int| 1 <= k < e implies is_ascii_alpha(#[trigger] c[k]) by {
        assert(c[k] == c.subrange(0, e)[k]);
        assert(head[k] == name[k - 1]);
    }
    lemma_name_end_at(c, 1, e);
    assert(c.subrange(1, e) =~= name) by {
        assert forall|k: int| 0 <= k < name.len() implies c.subrange(1, e)[k] == name[k] by {
            assert(c[k + 1] == c.subrange(0, e)[k + 1]);
            assert(head[k + 1] == name[k]);
        }
    }
    if command_arity(name) is None {
        lemma_known_commands(c, 0);
    }
    if command_arity(name) matches Some(n) && n == args.len() {
        if args.len() == 1 {
            let a0 = args[0];
            assert(args.drop_last() =~= Seq::<Seq<char>>::empty());
            assert(command_text(name, args.drop_last()) == head);
            assert(args.last() == a0);
            assert(c =~= head + seq!['{'] + a0 + seq!['}']);
            assert(c.subrange(e + 1, e + 1 + a0.len()) =~= a0);
            lemma_braced_plain(c, e, a0);
        } else if args.len() == 2 {
            let a0 = args[0];
            let a1 = args[1];
            let d1 = args.drop_last();
            assert(d1.drop_last() =~= Seq::<Seq<char>>::empty());
            assert(command_text(name, d1.drop_last()) == head);
            assert(d1.len() == 1 && d1.last() == a0);
            assert(command_text(name, d1) =~= head + seq!['{'] + a0 + seq!['}']);
            assert(args.last() == a1);
            assert(c =~= head + seq!['{'] + a0 + seq!['}'] + seq!['{'] + a1 + seq!['}']);
            assert(c.subrange(e + 1, e + 1 + a0.len()) =~= a0);
            lemma_braced_plain(c, e, a0);
            let s1: int = e + a0.len() + 2;
            assert(c.subrange(s1 + 1, s1 + 1 + a1.len()) =~= a1);
            lemma_braced_plain(c, s1, a1);
        } else {
            assert(args.len() == 0);
        }
    }
}

proof fn lemma_command_text_head(name: Seq<char>, args: Seq<Seq<char>>)
    ensures
        ({
            let c = command_text(name, args);
            let e: int = (name.len() + 1) as int;
            c.len() >= e && c.subrange(0, e) == seq!['\\'] + name && (c.len() == e || c[e] == '{')
        }),
    decreases args.len(),
{
    if args.len() > 0 {
        lemma_command_text_head(name, args.drop_last());
        let p = command_text(name, args.drop_last());
        let e: int = (name.len() + 1) as int;
        let c = command_text(name, args);
        assert(c.subrange(0, e) =~= p.subrange(0, e));
        if p.len() == e {
            assert(c[e] == '{');
        } else {
            assert(c[e] == p[e]);
        }
    }
}


/// In a command argument's plain text, each Typst markup character
/// (`\ # [ ] { } * _ $ ` @ < >`) comes out behind a backslash, and every other
/// character comes out as it is; no placeholder is made.
pub proof fn lemma_argument_escapes(ch: char, reps: Reps)
    ensures
        (ch == '\\' || ch == '#' || ch == '[' || ch == ']' || ch == '{' || ch == '}' || ch == '*'
            || ch == '_' || ch == '$' || ch == '`' || ch == '@' || ch == '<' || ch == '>')
            ==> tr_content(seq![ch], 0, reps) == (seq!['\\', ch], reps),
        !(ch == '\\' || ch == '#' || ch == '[' || ch == ']' || ch == '{' || ch == '}' || ch == '*'
            || ch == '_' || ch == '$' || ch == '`' || ch == '@' || ch == '<' || ch == '>')
            ==> tr_content(seq![ch], 0, reps) == (seq![ch], reps),
{
    let c = seq![ch];
    lemma_content_next(c, 0);
    if ch == '\\' {
        assert(name_end(c, 1) == 1);
        assert(cmd_parse(c, 0) is None);
        reveal_strlit("\\\\");
        assert("\\\\"@ =~= seq!['\\', '\\']);
    }
    assert(tr_content(c, 1, reps) == (Seq::<char>::empty(), reps));
    assert(seq!['\\', ch] + Seq::<char>::empty() =~= seq!['\\', ch]);
    assert(seq![ch] + Seq::<char>::empty() =~= seq![ch]);
}

} // verus!
