//! The calls into `mdxport` (Markdown → Typst conversion and frontmatter
//! splitting), with the document data they exchange held as plain values.

use vstd::prelude::*;
use crate::text::{
    chars_of, is_ascii_alnum, is_ascii_alnum_char, is_ascii_alpha, is_ascii_alpha_char, matches_at,
    matches_at_exec,
};

verus! {

/// The frontmatter fields that `mdxport` reads (`mdxport::FrontMatter`).
#[derive(Debug)]
pub struct MdFrontMatter {
    pub title: Option<String>,
    pub author: Option<String>,
    pub authors: Vec<String>,
    pub lang: Option<String>,
    pub toc: Option<bool>,
}

/// The result of a Markdown → Typst conversion (`mdxport::ConvertedDocument`).
#[derive(Debug)]
pub struct ConvertedDoc {
    pub title: Option<String>,
    pub authors: Vec<String>,
    pub lang: String,
    pub body: String,
    pub toc: bool,
}

impl MdFrontMatter {
    pub open spec fn fields(
        &self,
    ) -> (Option<Seq<char>>, Option<Seq<char>>, Seq<Seq<char>>, Option<Seq<char>>, Option<bool>) {
        (
            self.title.deep_view(),
            self.author.deep_view(),
            self.authors.deep_view(),
            self.lang.deep_view(),
            self.toc,
        )
    }

    /// `FrontMatter::default()`.
    pub fn empty() -> (r: MdFrontMatter)
        ensures
            r.fields() == empty_frontmatter(),
    {
        MdFrontMatter { title: None, author: None, authors: Vec::new(), lang: None, toc: None }
    }
}

pub open spec fn empty_frontmatter() -> (
    Option<Seq<char>>,
    Option<Seq<char>>,
    Seq<Seq<char>>,
    Option<Seq<char>>,
    Option<bool>,
) {
    (None, None, Seq::<Seq<char>>::empty(), None, None)
}

impl ConvertedDoc {
    pub open spec fn fields(&self) -> (Option<Seq<char>>, Seq<Seq<char>>, Seq<char>, Seq<char>, bool) {
        (self.title.deep_view(), self.authors.deep_view(), self.lang@, self.body@, self.toc)
    }
}

/// What `mdxport::convert::convert_markdown_to_typst` returns for a Markdown
/// body and frontmatter fields, under the default conversion options: the
/// converted document's (title, authors, lang, body, toc), or the error's text.
pub uninterp spec fn mdxport_convert(
    markdown: Seq<char>,
    fm: (Option<Seq<char>>, Option<Seq<char>>, Seq<Seq<char>>, Option<Seq<char>>, Option<bool>),
) -> Result<(Option<Seq<char>>, Seq<Seq<char>>, Seq<char>, Seq<char>, bool), Seq<char>>;

/// What `mdxport::frontmatter::split_frontmatter` returns for a document: its
/// frontmatter fields and body, or the error's text.
pub uninterp spec fn mdxport_split_frontmatter(input: Seq<char>) -> Result<
    ((Option<Seq<char>>, Option<Seq<char>>, Seq<Seq<char>>, Option<Seq<char>>, Option<bool>), Seq<char>),
    Seq<char>,
>;

/// Calls `mdxport::convert::convert_markdown_to_typst` with the default
/// options. The contract claims only that the result is the one
/// `mdxport_convert` names for the same Markdown and frontmatter fields.
/// `mdxport` hands every math span to `tex2typst_rs::tex2typst`, which panics
/// on some LaTeX (a prime after a superscript, a `\begin` without its `\end`,
/// a `\sqrt` at the end of a group); `requires` admits only Markdown in which
/// no math span can hold such LaTeX (`math_convertible`).
#[verifier::external_body]
pub(crate) fn convert_markdown(markdown: &str, fm: &MdFrontMatter) -> (r: Result<ConvertedDoc, String>)
    requires
        math_convertible(markdown@),
    ensures
        match r {
            Ok(d) => mdxport_convert(markdown@, fm.fields()) == Ok::<_, Seq<char>>(d.fields()),
            Err(e) => mdxport_convert(markdown@, fm.fields()) == Err::<(Option<Seq<char>>, Seq<Seq<char>>, Seq<char>, Seq<char>, bool), _>(e@),
        },
{
    let front = mdxport::frontmatter::FrontMatter {
        title: fm.title.clone(), author: fm.author.clone(), authors: fm.authors.clone(),
        lang: fm.lang.clone(), toc: fm.toc,
    };
    let opts = mdxport::convert::ConvertOptions::default();
    match mdxport::convert::convert_markdown_to_typst(markdown, &front, &opts) {
        Ok(d) => Ok(ConvertedDoc { title: d.title, authors: d.authors, lang: d.lang, body: d.body, toc: d.toc }),
        Err(e) => Err(e.to_string()),
    }
}

// ---------------------------------------------------------------------------
// Which Markdown the LaTeX math converter accepts
// ---------------------------------------------------------------------------

/// A blank line starts right after index `k`: a line feed followed by another
/// line ending. No paragraph, and so no math span, runs across it.
pub open spec fn is_block_break(s: Seq<char>, k: int) -> bool {
    0 <= k && k + 1 < s.len() && s[k] == '\n' && (s[k + 1] == '\n' || s[k + 1] == '\r')
}

/// No blank line starts in `[x, y)`.
pub open spec fn within_block(s: Seq<char>, x: int, y: int) -> bool {
    forall|k: int| x <= k < y ==> !is_block_break(s, k)
}

/// `\sqrt` at `p` is followed by the start of its argument: `{`, `[`, or an
/// ASCII letter or digit.
pub open spec fn sqrt_has_arg(s: Seq<char>, p: int) -> bool {
    let q = p + "\\sqrt"@.len();
    q < s.len() && (s[q] == '{' || s[q] == '[' || is_ascii_alnum(s[q]))
}

/// A `$` with no `$` on either side and no backslash before it. A
/// single-dollar math span that reaches it ends there (or is no math span).
pub open spec fn lone_dollar(s: Seq<char>, k: int) -> bool {
    &&& 0 <= k < s.len()
    &&& s[k] == '$'
    &&& !(k > 0 && (s[k - 1] == '\\' || s[k - 1] == '$'))
    &&& !(k + 1 < s.len() && s[k + 1] == '$')
}

/// `$$` or `` $` `` at `k`: how a display or code math span opens.
pub open spec fn math_fence_at(s: Seq<char>, k: int) -> bool {
    0 <= k && k + 1 < s.len() && s[k] == '$' && (s[k + 1] == '$' || s[k + 1] == '`')
}

/// A display or code math span may have opened, in the same paragraph, before `i`.
pub open spec fn fence_before(s: Seq<char>, i: int) -> bool {
    exists|k: int| k < i && #[trigger] math_fence_at(s, k) && within_block(s, k, i)
}

/// A lone `$` stands between `i` and `j`.
pub open spec fn separated(s: Seq<char>, i: int, j: int) -> bool {
    exists|k: int| i < k < j && #[trigger] lone_dollar(s, k)
}

/// A superscript mark at `i` that a prime at `j` may follow in one math span:
/// no lone `$` between them, unless a display or code span may hold both.
pub open spec fn caret_reaches(s: Seq<char>, i: int, j: int) -> bool {
    s[i] == '^' && (!separated(s, i, j) || fence_before(s, i))
}

/// At index `m` of a math span opened at or after `x` stands LaTeX that the
/// converter cannot take: a prime after a superscript mark, an environment
/// that is not closed as `env_closes` describes, or a `\sqrt` with nothing
/// after it.
pub open spec fn math_hazard_at(s: Seq<char>, x: int, m: int) -> bool {
    ||| (s[m] == '\'' && exists|i: int| x < i < m && caret_reaches(s, i, m))
    ||| (matches_at(s, m, "\\begin"@) && !env_closes(s, m))
    ||| (matches_at(s, m, "\\sqrt"@) && !sqrt_has_arg(s, m))
}

/// The command `\begin` (not the start of a longer name) at `k`.
pub open spec fn begin_cmd_at(s: Seq<char>, k: int) -> bool {
    let q = k + "\\begin"@.len();
    matches_at(s, k, "\\begin"@) && !(q < s.len() && is_ascii_alpha(s[q]))
}

/// The command `\end` (not the start of a longer name) at `k`.
pub open spec fn end_cmd_at(s: Seq<char>, k: int) -> bool {
    let q = k + "\\end"@.len();
    matches_at(s, k, "\\end"@) && !(q < s.len() && is_ascii_alpha(s[q]))
}

/// End of the run of ASCII letters and `*` that starts at `j`.
pub open spec fn env_name_end(s: Seq<char>, j: int) -> int
    decreases s.len() - j,
{
    if j < 0 || j >= s.len() {
        s.len() as int
    } else if is_ascii_alpha(s[j]) || s[j] == '*' {
        env_name_end(s, j + 1)
    } else {
        j
    }
}

/// An environment name in braces, of ASCII letters and `*`, at `j`.
pub open spec fn env_name_at(s: Seq<char>, j: int) -> bool {
    0 <= j < s.len() && s[j] == '{' && env_name_end(s, j + 1) < s.len() && s[env_name_end(s, j + 1)] == '}'
}

/// Environments opened minus environments closed in `s[p..k]`.
pub open spec fn env_depth(s: Seq<char>, p: int, k: int) -> int
    decreases k - p,
{
    if k <= p {
        0
    } else {
        env_depth(s, p, k - 1) + if begin_cmd_at(s, k - 1) {
            1int
        } else if end_cmd_at(s, k - 1) {
            -1int
        } else {
            0int
        }
    }
}

/// Braces opened minus braces closed in `s[p..k]`.
pub open spec fn brace_depth(s: Seq<char>, p: int, k: int) -> int
    decreases k - p,
{
    if k <= p {
        0
    } else {
        brace_depth(s, p, k - 1) + if s[k - 1] == '{' {
            1int
        } else if s[k - 1] == '}' {
            -1int
        } else {
            0int
        }
    }
}

/// A character of an environment's body that the converter reads as written:
/// ASCII other than `~`, `%`, `]` and `$`; no `\text`, `\operatorname` or
/// `\right`; no escaped brace and no `\\` before a letter; and a `\begin` or
/// `\end` followed by its name in braces.
pub open spec fn env_plain_at(s: Seq<char>, k: int) -> bool {
    &&& s[k] < '\u{80}' && s[k] != '~' && s[k] != '%' && s[k] != ']' && s[k] != '$'
    &&& !matches_at(s, k, "\\text"@) && !matches_at(s, k, "\\operatorname"@) && !matches_at(
        s,
        k,
        "\\right"@,
    )
    &&& (s[k] == '\\' && k + 1 < s.len()) ==> (s[k + 1] != '{' && s[k + 1] != '}' && !(s[k + 1]
        == '\\' && k + 2 < s.len() && is_ascii_alpha(s[k + 2])))
    &&& begin_cmd_at(s, k) ==> env_name_at(s, k + "\\begin"@.len())
    &&& end_cmd_at(s, k) ==> env_name_at(s, k + "\\end"@.len())
}

/// The environment opened at `p` is closed by the `\end` at `e`: the first
/// `\end` that brings the count of open environments back to zero, with no
/// brace closed that was opened before `p`, and a body of plain characters.
pub open spec fn env_closed_at(s: Seq<char>, p: int, e: int) -> bool {
    &&& 0 <= p < e < s.len()
    &&& end_cmd_at(s, e)
    &&& env_depth(s, p, e) == 1
    &&& forall|k: int| p < k <= e ==> #[trigger] env_depth(s, p, k) >= 1
    &&& forall|k: int| p <= k <= e ==> #[trigger] brace_depth(s, p, k) >= 0
    &&& forall|k: int| p <= k < e ==> #[trigger] env_plain_at(s, k)
}

/// The environment opened at `p` is closed within the same math span.
pub open spec fn env_closes(s: Seq<char>, p: int) -> bool {
    exists|e: int| env_closed_at(s, p, e)
}

fn env_name_at_exec(v: &[char], j: usize) -> (r: bool)
    ensures
        r == env_name_at(v@, j as int),
{
    if j >= v.len() || v[j] != '{' {
        return false;
    }
    let mut t: usize = j + 1;
    while t < v.len() && (is_ascii_alpha_char(v[t]) || v[t] == '*')
        invariant
            j < t <= v@.len(),
            env_name_end(v@, j + 1) == env_name_end(v@, t as int),
        decreases v.len() - t,
    {
        t += 1;
    }
    t < v.len() && v[t] == '}'
}

fn begin_cmd_exec(v: &[char], k: usize, pat: &[char]) -> (r: bool)
    requires
        pat@ == "\\begin"@,
    ensures
        r == begin_cmd_at(v@, k as int),
{
    if !matches_at_exec(v, k, pat) {
        return false;
    }
    let vl = v.len();
    let pl = pat.len();
    assert(k + pl <= vl);
    let q = k + pl;
    !(q < v.len() && is_ascii_alpha_char(v[q]))
}

fn end_cmd_exec(v: &[char], k: usize, pat: &[char]) -> (r: bool)
    requires
        pat@ == "\\end"@,
    ensures
        r == end_cmd_at(v@, k as int),
{
    if !matches_at_exec(v, k, pat) {
        return false;
    }
    let vl = v.len();
    let pl = pat.len();
    assert(k + pl <= vl);
    let q = k + pl;
    !(q < v.len() && is_ascii_alpha_char(v[q]))
}

/// The literals an environment check looks for.
struct EnvPats {
    begin: Vec<char>,
    end: Vec<char>,
    text: Vec<char>,
    operatorname: Vec<char>,
    right: Vec<char>,
}

impl EnvPats {
    spec fn wf(&self) -> bool {
        &&& self.begin@ == "\\begin"@
        &&& self.end@ == "\\end"@
        &&& self.text@ == "\\text"@
        &&& self.operatorname@ == "\\operatorname"@
        &&& self.right@ == "\\right"@
    }

    fn new() -> (r: EnvPats)
        ensures
            r.wf(),
    {
        EnvPats {
            begin: chars_of("\\begin"),
            end: chars_of("\\end"),
            text: chars_of("\\text"),
            operatorname: chars_of("\\operatorname"),
            right: chars_of("\\right"),
        }
    }
}

fn env_plain_exec(v: &[char], k: usize, pats: &EnvPats) -> (r: bool)
    requires
        k < v@.len(),
        pats.wf(),
    ensures
        r == env_plain_at(v@, k as int),
{
    let c = v[k];
    if !(c < '\u{80}' && c != '~' && c != '%' && c != ']' && c != '$') {
        return false;
    }
    if matches_at_exec(v, k, &pats.text) || matches_at_exec(v, k, &pats.operatorname)
        || matches_at_exec(v, k, &pats.right) {
        return false;
    }
    if c == '\\' && k + 1 < v.len() {
        let d = v[k + 1];
        if d == '{' || d == '}' {
            return false;
        }
        if d == '\\' && k + 2 < v.len() && is_ascii_alpha_char(v[k + 2]) {
            return false;
        }
    }
    if begin_cmd_exec(v, k, &pats.begin) && !env_name_at_exec(v, k + pats.begin.len()) {
        return false;
    }
    if end_cmd_exec(v, k, &pats.end) && !env_name_at_exec(v, k + pats.end.len()) {
        return false;
    }
    true
}

/// Whether the environment opened at `p` is closed within its math span.
fn env_closes_exec(v: &[char], p: usize, pats: &EnvPats) -> (r: bool)
    requires
        p < v@.len(),
        pats.wf(),
    ensures
        r == env_closes(v@, p as int),
{
    let ghost s = v@;
    let len = v.len();
    let mut k: usize = p;
    let mut depth: usize = 0;
    let mut brace: usize = 0;
    while k < len
        invariant
            s == v@,
            len == s.len(),
            pats.wf(),
            p <= k <= len,
            depth as int == env_depth(s, p as int, k as int),
            brace as int == brace_depth(s, p as int, k as int),
            depth <= k - p,
            brace <= k - p,
            forall|j: int| p < j <= k ==> #[trigger] env_depth(s, p as int, j) >= 1,
            forall|j: int| p <= j <= k ==> #[trigger] brace_depth(s, p as int, j) >= 0,
            forall|j: int| p <= j < k ==> #[trigger] env_plain_at(s, j),
            forall|e: int| p <= e < k ==> !#[trigger] env_closed_at(s, p as int, e),
        decreases len - k,
    {
        let is_end = end_cmd_exec(v, k, &pats.end);
        if k > p && is_end && depth == 1 {
            assert(env_closed_at(s, p as int, k as int));
            return true;
        }
        assert(!env_closed_at(s, p as int, k as int));
        if !env_plain_exec(v, k, pats) {
            assert forall|e: int| #[trigger] env_closed_at(s, p as int, e) implies false by {
                if e > k {
                    assert(env_plain_at(s, k as int));
                }
            }
            return false;
        }
        let is_begin = begin_cmd_exec(v, k, &pats.begin);
        if is_begin {
            depth = depth + 1;
        } else if is_end {
            if depth <= 1 {
                assert forall|e: int| #[trigger] env_closed_at(s, p as int, e) implies false by {
                    if e > k {
                        assert(env_depth(s, p as int, k + 1) >= 1);
                    }
                }
                return false;
            }
            depth = depth - 1;
        } else if k == p {
            assert forall|e: int| #[trigger] env_closed_at(s, p as int, e) implies false by {
                if e > k {
                    assert(env_depth(s, p as int, k + 1) >= 1);
                }
            }
            return false;
        }
        let c = v[k];
        if c == '{' {
            brace = brace + 1;
        } else if c == '}' {
            if brace == 0 {
                assert forall|e: int| #[trigger] env_closed_at(s, p as int, e) implies false by {
                    if e > k {
                        assert(brace_depth(s, p as int, k + 1) >= 0);
                    }
                }
                return false;
            }
            brace = brace - 1;
        }
        k = k + 1;
    }
    assert forall|e: int| #[trigger] env_closed_at(s, p as int, e) implies false by {}
    false
}

/// Every math span of a Markdown text lies between two `$` of one paragraph;
/// the text is convertible when no such pair of `$` encloses a hazard. The
/// test is conservative: it can refuse LaTeX that the converter would take
/// (an environment whose body holds `\text` or `]`, a prime after a
/// superscript inside a display span), never the other way round.
pub open spec fn math_convertible(s: Seq<char>) -> bool {
    forall|x: int, m: int, y: int|
        #![trigger math_hazard_at(s, x, m), s[y]]
        0 <= x < m < y < s.len() && s[x] == '$' && s[y] == '$' && within_block(s, x, y)
            ==> !math_hazard_at(s, x, m)
}

/// The error of a Markdown text whose math the converter cannot take.
pub open spec fn unsupported_math() -> Seq<char> {
    "unsupported LaTeX math (a prime after a superscript, an unclosed environment, or an empty \\sqrt)"@
}

/// Markdown → Typst: the `mdxport` conversion of a convertible text, else the
/// error `unsupported_math`.
pub open spec fn markdown_conversion(
    markdown: Seq<char>,
    fm: (Option<Seq<char>>, Option<Seq<char>>, Seq<Seq<char>>, Option<Seq<char>>, Option<bool>),
) -> Result<(Option<Seq<char>>, Seq<Seq<char>>, Seq<char>, Seq<char>, bool), Seq<char>> {
    if math_convertible(markdown) {
        mdxport_convert(markdown, fm)
    } else {
        Err(unsupported_math())
    }
}

spec fn has_caret(s: Seq<char>, f: int, n: int) -> bool {
    exists|i: int| f < i < n && caret_reaches(s, i, n)
}

spec fn has_fenced_caret(s: Seq<char>, f: int, n: int) -> bool {
    exists|i: int| f < i < n && s[i] == '^' && fence_before(s, i)
}

spec fn has_hazard(s: Seq<char>, f: int, n: int) -> bool {
    exists|m: int| f < m < n && math_hazard_at(s, f, m)
}

proof fn lemma_separated_step(s: Seq<char>, i: int, n: int)
    requires
        i < n,
    ensures
        separated(s, i, n + 1) == (separated(s, i, n) || lone_dollar(s, n)),
{
    if separated(s, i, n + 1) && !separated(s, i, n) {
        let k = choose|k: int| i < k < n + 1 && #[trigger] lone_dollar(s, k);
        assert(k == n);
    }
    if separated(s, i, n) {
        let k = choose|k: int| i < k < n && #[trigger] lone_dollar(s, k);
        assert(i < k < n + 1 && lone_dollar(s, k));
    }
    if lone_dollar(s, n) {
        assert(i < n < n + 1 && lone_dollar(s, n));
    }
}

proof fn lemma_caret_step(s: Seq<char>, f: int, n: int)
    requires
        f < n < s.len(),
    ensures
        has_caret(s, f, n + 1) == ((if lone_dollar(s, n) {
            has_fenced_caret(s, f, n)
        } else {
            has_caret(s, f, n)
        }) || s[n] == '^'),
        has_fenced_caret(s, f, n + 1) == (has_fenced_caret(s, f, n) || (s[n] == '^' && fence_before(
            s,
            n,
        ))),
{
    assert forall|i: int| f < i < n implies #[trigger] caret_reaches(s, i, n + 1) == (if lone_dollar(s, n) {
        s[i] == '^' && fence_before(s, i)
    } else {
        caret_reaches(s, i, n)
    }) by {
        lemma_separated_step(s, i, n);
    }
    assert(!separated(s, n, n + 1));
    if s[n] == '^' {
        assert(f < n < n + 1 && caret_reaches(s, n, n + 1));
    }
    let n1 = n + 1;
    if has_caret(s, f, n1) {
        let i = choose|i: int| f < i < n1 && caret_reaches(s, i, n1);
        if i < n {
            if lone_dollar(s, n) {
                assert(f < i < n && s[i] == '^' && fence_before(s, i));
            } else {
                assert(f < i < n && caret_reaches(s, i, n));
            }
        }
    }
    if lone_dollar(s, n) && has_fenced_caret(s, f, n) {
        let i = choose|i: int| f < i < n && s[i] == '^' && fence_before(s, i);
        assert(f < i < n1 && caret_reaches(s, i, n1));
    }
    if !lone_dollar(s, n) && has_caret(s, f, n) {
        let i = choose|i: int| f < i < n && caret_reaches(s, i, n);
        assert(f < i < n1 && caret_reaches(s, i, n1));
    }
    if has_fenced_caret(s, f, n + 1) {
        let i = choose|i: int| f < i < n + 1 && s[i] == '^' && fence_before(s, i);
        if i < n {
            assert(f < i < n && s[i] == '^' && fence_before(s, i));
        }
    }
    if has_fenced_caret(s, f, n) {
        let i = choose|i: int| f < i < n && s[i] == '^' && fence_before(s, i);
        assert(f < i < n + 1 && s[i] == '^' && fence_before(s, i));
    }
    if s[n] == '^' && fence_before(s, n) {
        assert(f < n < n + 1 && s[n] == '^' && fence_before(s, n));
    }
}

/// Within a paragraph that starts at `bs`, a fence before `n + 1` is one
/// before `n` or one at `n`.
proof fn lemma_fence_step(s: Seq<char>, bs: int, n: int)
    requires
        0 <= bs <= n < s.len(),
        within_block(s, bs, n),
        bs == 0 || is_block_break(s, bs - 1),
    ensures
        fence_before(s, n) == (exists|k: int| bs <= k < n && #[trigger] math_fence_at(s, k)),
        !is_block_break(s, n) ==> (fence_before(s, n + 1) == (fence_before(s, n) || math_fence_at(
            s,
            n,
        ))),
{
    if fence_before(s, n) {
        let k = choose|k: int| k < n && #[trigger] math_fence_at(s, k) && within_block(s, k, n);
        if k < bs {
            assert(!is_block_break(s, bs - 1));
        }
    }
    if exists|k: int| bs <= k < n && #[trigger] math_fence_at(s, k) {
        let k = choose|k: int| bs <= k < n && #[trigger] math_fence_at(s, k);
        assert(within_block(s, k, n));
    }
    if !is_block_break(s, n) {
        assert(within_block(s, bs, n + 1));
        if fence_before(s, n + 1) {
            let k = choose|k: int| k < n + 1 && #[trigger] math_fence_at(s, k) && within_block(s, k, n + 1);
            if k < n {
                assert(within_block(s, k, n));
            }
        }
        if fence_before(s, n) {
            let k = choose|k: int| k < n && #[trigger] math_fence_at(s, k) && within_block(s, k, n);
            assert(within_block(s, k, n + 1));
        }
        if math_fence_at(s, n) {
            assert(within_block(s, n, n + 1));
        }
    }
}

proof fn lemma_hazard_step(s: Seq<char>, f: int, n: int)
    requires
        f < n < s.len(),
    ensures
        has_hazard(s, f, n + 1) == (has_hazard(s, f, n) || math_hazard_at(s, f, n)),
{
    if has_hazard(s, f, n + 1) && !has_hazard(s, f, n) {
        let m = choose|m: int| f < m < n + 1 && math_hazard_at(s, f, m);
        assert(m == n);
    }
    if has_hazard(s, f, n) {
        let m = choose|m: int| f < m < n && math_hazard_at(s, f, m);
        assert(f < m < n + 1 && math_hazard_at(s, f, m));
    }
    if math_hazard_at(s, f, n) {
        assert(f < n < n + 1 && math_hazard_at(s, f, n));
    }
}

/// A hazard of a span opened at `x` is one of a span opened earlier at `f`.
proof fn lemma_hazard_earlier(s: Seq<char>, f: int, x: int, m: int)
    requires
        f <= x < m,
        math_hazard_at(s, x, m),
    ensures
        math_hazard_at(s, f, m),
{
    if s[m] == '\'' && exists|i: int| x < i < m && caret_reaches(s, i, m) {
        let i = choose|i: int| x < i < m && caret_reaches(s, i, m);
        assert(f < i < m && caret_reaches(s, i, m));
    }
}

/// Whether the LaTeX math converter accepts every math span of a Markdown text.
pub fn check_math_convertible(markdown: &str) -> (r: bool)
    ensures
        r == math_convertible(markdown@),
{
    let v = chars_of(markdown);
    let begin_pat = chars_of("\\begin");
    let sqrt_pat = chars_of("\\sqrt");
    let pats = EnvPats::new();
    let ghost s = v@;
    let len = v.len();
    let mut n: usize = 0;
    let mut bs: usize = 0;
    let mut fd: Option<usize> = None;
    let mut caret = false;
    let mut fenced = false;
    let mut fence_seen = false;
    let mut armed = false;
    while n < len
        invariant
            s == v@,
            s == markdown@,
            len == s.len(),
            begin_pat@ == "\\begin"@,
            sqrt_pat@ == "\\sqrt"@,
            pats.wf(),
            bs <= n <= len,
            within_block(s, bs as int, n as int),
            bs == 0 || is_block_break(s, bs - 1),
            fence_seen == fence_before(s, n as int),
            match fd {
                Some(f) => bs <= f < n && s[f as int] == '$' && (forall|k: int| bs <= k < f ==> s[k] != '$')
                    && caret == has_caret(s, f as int, n as int) && fenced == has_fenced_caret(
                    s,
                    f as int,
                    n as int,
                ) && armed == has_hazard(s, f as int, n as int),
                None => (forall|k: int| bs <= k < n ==> s[k] != '$') && !caret && !fenced && !armed,
            },
            forall|x: int, m: int, y: int|
                #![trigger math_hazard_at(s, x, m), s[y]]
                0 <= x < m < y < n && s[x] == '$' && s[y] == '$' && within_block(s, x, y)
                    ==> !math_hazard_at(s, x, m),
        decreases len - n,
    {
        let c = v[n];
        if c == '$' && armed {
            proof {
                let f = fd.unwrap() as int;
                let m = choose|m: int| f < m < n && math_hazard_at(s, f, m);
                assert(within_block(s, f, n as int));
                assert(0 <= f < m < n < s.len() && s[f] == '$' && s[n as int] == '$');
                assert(math_hazard_at(s, f, m));
            }
            return false;
        }
        proof {
            assert forall|x: int, m: int|
                0 <= x < m < n && s[x] == '$' && s[n as int] == '$' && within_block(s, x, n as int)
                    implies !#[trigger] math_hazard_at(s, x, m) by {
                if math_hazard_at(s, x, m) {
                    if x < bs {
                        assert(!is_block_break(s, bs - 1));
                    }
                    match fd {
                        Some(f) => {
                            lemma_hazard_earlier(s, f as int, x, m);
                            assert(f < m < n && math_hazard_at(s, f as int, m));
                        },
                        None => {
                            assert(s[x] != '$');
                        },
                    }
                }
            }
        }
        match fd {
            Some(f) => {
                let mut h = c == '\'' && caret;
                if matches_at_exec(&v, n, &begin_pat) && !env_closes_exec(&v, n, &pats) {
                    h = true;
                }
                if matches_at_exec(&v, n, &sqrt_pat) {
                    let q = n + sqrt_pat.len();
                    if !(q < len && (v[q] == '{' || v[q] == '[' || is_ascii_alnum_char(v[q]))) {
                        h = true;
                    }
                }
                let lone = c == '$' && !(n > 0 && (v[n - 1] == '\\' || v[n - 1] == '$')) && !(n + 1
                    < len && v[n + 1] == '$');
                proof {
                    lemma_caret_step(s, f as int, n as int);
                    lemma_hazard_step(s, f as int, n as int);
                    assert(h == math_hazard_at(s, f as int, n as int));
                    assert(lone == lone_dollar(s, n as int));
                }
                armed = armed || h;
                let fenced_next = fenced || (c == '^' && fence_seen);
                caret = (if lone {
                    fenced
                } else {
                    caret
                }) || c == '^';
                fenced = fenced_next;
            },
            None => {
                if c == '$' {
                    fd = Some(n);
                    proof {
                        assert(!has_caret(s, n as int, n + 1));
                        assert(!has_fenced_caret(s, n as int, n + 1));
                        assert(!has_hazard(s, n as int, n + 1));
                    }
                }
            },
        }
        let is_fence = c == '$' && n + 1 < len && (v[n + 1] == '$' || v[n + 1] == '`');
        proof {
            lemma_fence_step(s, bs as int, n as int);
        }
        fence_seen = fence_seen || is_fence;
        let brk = c == '\n' && n + 1 < len && (v[n + 1] == '\n' || v[n + 1] == '\r');
        if brk {
            bs = n + 1;
            fd = None;
            caret = false;
            fenced = false;
            fence_seen = false;
            armed = false;
            proof {
                assert(!fence_before(s, n + 1)) by {
                    if fence_before(s, n + 1) {
                        let k = choose|k: int| k < n + 1 && #[trigger] math_fence_at(s, k) && within_block(
                            s,
                            k,
                            n + 1,
                        );
                        assert(!is_block_break(s, n as int));
                    }
                }
            }
        }
        n = n + 1;
    }
    true
}

/// Markdown → Typst through `mdxport`, after the check that its LaTeX math is
/// convertible.
pub fn convert_markdown_checked(markdown: &str, fm: &MdFrontMatter) -> (r: Result<ConvertedDoc, String>)
    ensures
        match r {
            Ok(d) => markdown_conversion(markdown@, fm.fields()) == Ok::<_, Seq<char>>(d.fields()),
            Err(e) => markdown_conversion(markdown@, fm.fields()) == Err::<(Option<Seq<char>>, Seq<Seq<char>>, Seq<char>, Seq<char>, bool), _>(e@),
        },
{
    if check_math_convertible(markdown) {
        convert_markdown(markdown, fm)
    } else {
        Err(String::from_str("unsupported LaTeX math (a prime after a superscript, an unclosed environment, or an empty \\sqrt)"))
    }
}

/// Calls `mdxport::frontmatter::split_frontmatter`. The contract claims only
/// that the result is the one `mdxport_split_frontmatter` names for the input.
#[verifier::external_body]
pub(crate) fn split_frontmatter(input: &str) -> (r: Result<(MdFrontMatter, String), String>)
    ensures
        match r {
            Ok((fm, body)) => mdxport_split_frontmatter(input@) == Ok::<_, Seq<char>>((fm.fields(), body@)),
            Err(e) => mdxport_split_frontmatter(input@) == Err::<((Option<Seq<char>>, Option<Seq<char>>, Seq<Seq<char>>, Option<Seq<char>>, Option<bool>), Seq<char>), _>(e@),
        },
{
    match mdxport::frontmatter::split_frontmatter(input) {
        Ok(p) => Ok((MdFrontMatter {
            title: p.frontmatter.title, author: p.frontmatter.author, authors: p.frontmatter.authors,
            lang: p.frontmatter.lang, toc: p.frontmatter.toc,
        }, p.body)),
        Err(e) => Err(e.to_string()),
    }
}

} // verus!
