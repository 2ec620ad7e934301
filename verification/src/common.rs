//! Common helpers for the Typst rendering path: slug validation and Markdown
//! frontmatter merging.

use vstd::prelude::*;
use crate::error::CoreError;
use crate::ir::BlockNode;
use crate::text::{
    chars_of, debug_quoted, eq_lit, debug_str, ends_with, first_non_ws, is_ascii_alnum,
    is_ascii_alnum_char, join, lines, lines_of, non_ws_end, pairs_view, push_char, push_joined,
    push_range, starts_with, trim, trim_end, trim_start, trim_str,
};
use crate::to_markdown::{doc_blocks, doc_fits, ir_to_markdown, md_blocks_sep};
use crate::types::{RenderError, RenderRequest};

verus! {

/// A template slug: non-empty, only `[A-Za-z0-9_-]`, not starting or ending with `-`.
pub open spec fn is_valid_slug(s: Seq<char>) -> bool {
    &&& s.len() > 0
    &&& forall|k: int| 0 <= k < s.len() ==> is_ascii_alnum(#[trigger] s[k]) || s[k] == '-' || s[k] == '_'
    &&& s[0] != '-'
    &&& s.last() != '-'
}

/// Validate a template slug: `[A-Za-z0-9_-]` only, to prevent path traversal.
pub fn valid_slug(slug: &str) -> (r: bool)
    ensures
        r == is_valid_slug(slug@),
{
    let v = chars_of(slug);
    if v.len() == 0 {
        return false;
    }
    let mut k: usize = 0;
    while k < v.len()
        invariant
            0 <= k <= v@.len(),
            v@ == slug@,
            forall|m: int| 0 <= m < k ==> is_ascii_alnum(#[trigger] v@[m]) || v@[m] == '-' || v@[m] == '_',
        decreases v.len() - k,
    {
        if !(is_ascii_alnum_char(v[k]) || v[k] == '-' || v[k] == '_') {
            return false;
        }
        k += 1;
    }
    v[0] != '-' && v[v.len() - 1] != '-'
}

/// Frontmatter line of a variable: `key: "value"` (the value Debug-quoted).
pub open spec fn var_line(kv: (Seq<char>, Seq<char>)) -> Seq<char> {
    kv.0 + ": "@ + debug_str(kv.1)
}

pub open spec fn var_lines(vars: Seq<(Seq<char>, Seq<char>)>) -> Seq<Seq<char>> {
    vars.map_values(|kv: (Seq<char>, Seq<char>)| var_line(kv))
}

/// No key occurs twice (the variables are a map).
pub open spec fn distinct_keys(vars: Seq<(Seq<char>, Seq<char>)>) -> bool {
    forall|i: int, j: int| 0 <= i < j < vars.len() ==> vars[i].0 != vars[j].0
}

/// Frontmatter lines merged into `content`: inside an existing frontmatter
/// block (one whose first line is `---`), else in a new block before the
/// content. Injected lines come first.
pub open spec fn merged_lines(content: Seq<char>, fm: Seq<Seq<char>>) -> Seq<char> {
    if fm.len() == 0 {
        content
    } else {
        let block = join(fm, "\n"@);
        let ls = lines(content);
        if ls.len() > 1 && trim(ls[0]) == "---"@ {
            "---\n"@ + block + "\n"@ + join(ls.skip(1), "\n"@)
        } else {
            "---\n"@ + block + "\n---\n\n"@ + content
        }
    }
}

/// Variables merged into the frontmatter of `content`.
pub open spec fn merged(content: Seq<char>, vars: Seq<(Seq<char>, Seq<char>)>) -> Seq<char> {
    merged_lines(content, var_lines(vars))
}

/// The frontmatter line of the `toc` setting, when there is one.
pub open spec fn toc_line(toc: Option<Seq<char>>) -> Seq<Seq<char>> {
    match toc {
        Some(t) => seq!["toc: "@ + t],
        None => Seq::<Seq<char>>::empty(),
    }
}

/// A line without an explicit trailing `\\` when it is a line-block line (`|`-prefixed).
pub open spec fn sanitize_line(l: Seq<char>) -> Seq<char> {
    let ts = trim_start(l);
    if ts.len() > 0 && ts[0] == '|' {
        let t = trim_end(l);
        let u = if ends_with(t, "\\\\"@) {
            t.take(t.len() - 2)
        } else {
            t
        };
        trim_end(u)
    } else {
        l
    }
}

pub open spec fn sanitized(md: Seq<char>) -> Seq<char> {
    let out = join(lines(md).map_values(|l: Seq<char>| sanitize_line(l)), "\n"@);
    if md.len() > 0 && md.last() == '\n' {
        out.push('\n')
    } else {
        out
    }
}

fn var_line_strings(variables: &Vec<(String, String)>) -> (r: Vec<String>)
    ensures
        r@.map_values(|p: String| p@) == var_lines(pairs_view(variables@)),
{
    let ghost target = var_lines(pairs_view(variables@));
    let mut r: Vec<String> = Vec::new();
    let mut k: usize = 0;
    while k < variables.len()
        invariant
            0 <= k <= variables@.len(),
            target == var_lines(pairs_view(variables@)),
            r@.map_values(|p: String| p@) == target.take(k as int),
        decreases variables.len() - k,
    {
        let mut line = String::new();
        line.append(variables[k].0.as_str());
        line.append(": ");
        line.append(debug_quoted(variables[k].1.as_str()).as_str());
        let ghost before = r@.map_values(|p: String| p@);
        assert(line@ == target[k as int]);
        r.push(line);
        assert(r@.map_values(|p: String| p@) =~= before.push(target[k as int]));
        assert(target.take(k + 1) =~= target.take(k as int).push(target[k as int]));
        k += 1;
    }
    assert(target.take(k as int) =~= target);
    r
}

fn merge_lines(content: &str, fm_lines: &Vec<String>) -> (r: String)
    ensures
        r@ == merged_lines(content@, fm_lines@.map_values(|p: String| p@)),
{
    if fm_lines.len() == 0 {
        return String::from_str(content);
    }
    let v = chars_of(content);
    let ls = lines_of(&v);
    let ghost lv = ls@.map_values(|p: String| p@);
    let mut out = String::new();
    out.append("---\n");
    push_joined(&mut out, fm_lines, "\n");
    if ls.len() > 1 && eq_lit(&chars_of(trim_str(ls[0].as_str()).as_str()), "---") {
        out.append("\n");
        let mut rest: Vec<String> = Vec::new();
        let mut k: usize = 1;
        while k < ls.len()
            invariant
                1 <= k <= ls@.len(),
                lv == ls@.map_values(|p: String| p@),
                rest@.map_values(|p: String| p@) == lv.subrange(1, k as int),
            decreases ls.len() - k,
        {
            let ghost before = rest@.map_values(|p: String| p@);
            let line = ls[k].clone();
            assert(line@ == lv[k as int]);
            rest.push(line);
            assert(rest@.map_values(|p: String| p@) =~= before.push(lv[k as int]));
            assert(lv.subrange(1, k + 1) =~= lv.subrange(1, k as int).push(lv[k as int]));
            k += 1;
        }
        assert(lv.subrange(1, k as int) =~= lv.skip(1));
        push_joined(&mut out, &rest, "\n");
    } else {
        out.append("\n---\n\n");
        out.append(content);
    }
    out
}

/// Merge `variables` into the Markdown YAML frontmatter.
///
/// If the content already has a frontmatter block (starting with `---`), the
/// variables are injected inside it; otherwise a new frontmatter block wraps the
/// content. Injected keys come first, so any key already written in the content
/// takes precedence (later wins).
pub fn merge_variables(content: &str, variables: &Vec<(String, String)>) -> (r: String)
    requires
        distinct_keys(pairs_view(variables@)),
    ensures
        r@ == merged(content@, pairs_view(variables@)),
{
    let fm_lines = var_line_strings(variables);
    merge_lines(content, &fm_lines)
}

/// Strip an explicit trailing `\\` from line-block (`|`-prefixed) lines.
pub fn sanitize_line_breaks(md: &str) -> (r: String)
    ensures
        r@ == sanitized(md@),
{
    let v = chars_of(md);
    let ls = lines_of(&v);
    let ghost lv = ls@.map_values(|p: String| p@);
    let mut outs: Vec<String> = Vec::new();
    let mut k: usize = 0;
    while k < ls.len()
        invariant
            0 <= k <= ls@.len(),
            lv == ls@.map_values(|p: String| p@),
            outs@.map_values(|p: String| p@) == lv.take(k as int).map_values(
                |l: Seq<char>| sanitize_line(l),
            ),
        decreases ls.len() - k,
    {
        let l = chars_of(ls[k].as_str());
        let s = first_non_ws(&l, 0, l.len());
        let line = if s < l.len() && l[s] == '|' {
            let e = non_ws_end(&l, 0, l.len());
            let e2 = if e >= 2 && l[e - 1] == '\\' && l[e - 2] == '\\' {
                e - 2
            } else {
                e
            };
            let e3 = non_ws_end(&l, 0, e2);
            let mut t = String::new();
            push_range(&mut t, &l, 0, e3);
            proof {
                let lv_k = l@;
                assert(l@.subrange(0, l@.len() as int) =~= l@);
                let tt = trim_end(lv_k);
                assert(tt =~= l@.subrange(0, e as int));
                let u = if ends_with(tt, "\\\\"@) {
                    tt.take(tt.len() - 2)
                } else {
                    tt
                };
                assert(u =~= l@.subrange(0, e2 as int)) by {
                    reveal_strlit("\\\\");
                    if e >= 2 && l@[e - 1] == '\\' && l@[e - 2] == '\\' {
                        assert(tt.skip(tt.len() - 2) =~= "\\\\"@);
                    } else if tt.len() >= 2 {
                        if tt.skip(tt.len() - 2) == "\\\\"@ {
                            assert(tt.skip(tt.len() - 2)[0] == tt[tt.len() - 2]);
                            assert(tt.skip(tt.len() - 2)[1] == tt[tt.len() - 1]);
                        }
                    }
                };
                assert(trim_end(u) =~= l@.subrange(0, e3 as int));
                assert(trim_start(lv_k) =~= l@.subrange(s as int, l@.len() as int));
            }
            t
        } else {
            proof {
                assert(l@.subrange(0, l@.len() as int) =~= l@);
                assert(trim_start(l@) =~= l@.subrange(s as int, l@.len() as int));
            }
            ls[k].clone()
        };
        let ghost before = outs@.map_values(|p: String| p@);
        assert(line@ == sanitize_line(lv[k as int]));
        outs.push(line);
        assert(outs@.map_values(|p: String| p@) =~= before.push(sanitize_line(lv[k as int])));
        assert(lv.take(k + 1).map_values(|l: Seq<char>| sanitize_line(l)) =~= lv.take(
            k as int,
        ).map_values(|l: Seq<char>| sanitize_line(l)).push(sanitize_line(lv[k as int])));
        k += 1;
    }
    assert(lv.take(k as int) =~= lv);
    let mut out = String::new();
    push_joined(&mut out, &outs, "\n");
    if v.len() > 0 && v[v.len() - 1] == '\n' {
        push_char(&mut out, '\n');
    }
    out
}

/// What `build_markdown` gives for a request's content, IR, variables and
/// `toc`: the final Markdown, or the text of the engine error.
pub open spec fn built_markdown(
    content: Option<Seq<char>>,
    ir: Option<Result<BlockNode, Seq<char>>>,
    vars: Seq<(Seq<char>, Seq<char>)>,
    toc: Option<Seq<char>>,
) -> Result<Seq<char>, Seq<char>> {
    let fm = var_lines(vars) + toc_line(toc);
    match content {
        Some(c) => Ok(sanitized(merged_lines(c, fm))),
        None => match ir {
            Some(Ok(doc)) => {
                let body = md_blocks_sep(doc_blocks(doc), "\n\n"@);
                Ok(
                    sanitized(
                        if fm.len() == 0 {
                            body
                        } else {
                            "---\n"@ + join(fm, "\n"@) + "\n---\n\n"@ + body
                        },
                    ),
                )
            },
            Some(Err(e)) => Err("failed to parse IR: "@ + e),
            None => Err("request missing `content` or `ir`"@),
        },
    }
}

pub open spec fn request_ir(req: RenderRequest) -> Option<Result<BlockNode, Seq<char>>> {
    match req.ir {
        Some(Ok(doc)) => Some(Ok(doc)),
        Some(Err(e)) => Some(Err(e@)),
        None => None,
    }
}

/// The Markdown a request asks for: its `content` with the variables and `toc`
/// merged into the frontmatter, or else the Markdown of its IR with a
/// frontmatter of the variables and `toc`; line-block lines lose an explicit
/// trailing `\\`. No variable name may occur twice.
pub fn build_markdown(req: &RenderRequest) -> (r: Result<String, RenderError>)
    requires
        distinct_keys(pairs_view(req.variables@)),
        req.content is None ==> (req.ir matches Some(Ok(doc)) ==> doc_fits(doc)),
    ensures
        match built_markdown(
            req.content.deep_view(),
            request_ir(*req),
            pairs_view(req.variables@),
            req.toc.deep_view(),
        ) {
            Ok(md) => r matches Ok(s) && s@ == md,
            Err(msg) => r matches Err(RenderError::Engine(m)) && m@ == msg,
        },
{
    let mut fm = var_line_strings(&req.variables);
    let ghost fm0 = fm@.map_values(|p: String| p@);
    match &req.toc {
        Some(t) => {
            let mut line = String::new();
            line.append("toc: ");
            line.append(t.as_str());
            fm.push(line);
            assert(fm@.map_values(|p: String| p@) =~= fm0 + seq!["toc: "@ + t@]);
        },
        None => {
            assert(fm@.map_values(|p: String| p@) =~= fm0 + Seq::<Seq<char>>::empty());
        },
    }
    let merged_md = match &req.content {
        Some(c) => merge_lines(c.as_str(), &fm),
        None => match &req.ir {
            Some(Ok(doc)) => {
                let md_body = ir_to_markdown(doc);
                if fm.len() == 0 {
                    md_body
                } else {
                    let mut out = String::new();
                    out.append("---\n");
                    push_joined(&mut out, &fm, "\n");
                    out.append("\n---\n\n");
                    out.append(md_body.as_str());
                    out
                }
            },
            Some(Err(e)) => {
                let mut msg = String::new();
                msg.append("failed to parse IR: ");
                msg.append(e.as_str());
                return Err(RenderError::Engine(msg));
            },
            None => {
                return Err(RenderError::Engine(String::from_str("request missing `content` or `ir`")));
            },
        },
    };
    Ok(sanitize_line_breaks(merged_md.as_str()))
}


// ---------------------------------------------------------------------------
// Laws
// ---------------------------------------------------------------------------

/// A valid slug cannot leave the template root: it holds no path separator,
/// no dot, no drive or home marker.
pub proof fn lemma_valid_slug_stays_inside(slug: Seq<char>)
    requires
        is_valid_slug(slug),
    ensures
        forall|k: int|
            0 <= k < slug.len() ==> #[trigger] slug[k] != '/' && slug[k] != '\\' && slug[k] != '.'
                && slug[k] != ':' && slug[k] != '~',
{
}

/// Merging no variables leaves the content as it is.
pub proof fn lemma_merge_nothing(content: Seq<char>)
    ensures
        merged(content, Seq::empty()) == content,
{
    assert(var_lines(Seq::<(Seq<char>, Seq<char>)>::empty()).len() == 0);
}

/// Injected variables come first: the merged text opens with the frontmatter
/// fence and the variable lines, before anything of the content, so a key the
/// content itself sets comes later and wins.
pub proof fn lemma_injected_first(content: Seq<char>, vars: Seq<(Seq<char>, Seq<char>)>)
    requires
        vars.len() > 0,
    ensures
        starts_with(merged(content, vars), "---\n"@ + join(var_lines(vars), "\n"@) + "\n"@),
{
    let pre = "---\n"@ + join(var_lines(vars), "\n"@) + "\n"@;
    let ls = lines(content);
    reveal_strlit("\n---\n\n");
    reveal_strlit("\n");
    if ls.len() > 1 && trim(ls[0]) == "---"@ {
        assert(merged(content, vars).take(pre.len() as int) =~= pre);
    } else {
        assert(merged(content, vars).take(pre.len() as int) =~= pre);
    }
}
} // verus!
