//! Common types of the rendering engine.

use vstd::prelude::*;
use crate::error::CoreError;
use crate::ir::BlockNode;

verus! {

/// A render request.
#[derive(Debug)]
pub struct RenderRequest {
    /// Template slug. When set, it must be a directory name under the engine's
    /// template root containing a `template.typ` entry point. When absent, the
    /// engine's built-in default style is used.
    pub template_id: Option<String>,
    /// Full Markdown (including frontmatter); when present, `ir` is ignored.
    pub content: Option<String>,
    /// IR structure (used to generate Markdown when `content` is absent): the
    /// document, or the text of the error that reading it gave.
    pub ir: Option<Result<BlockNode, String>>,
    /// Frontend variables (merged into the Markdown frontmatter; keys already
    /// present in the content take precedence), in order, each name once.
    pub variables: Vec<(String, String)>,
    /// Whether to output a table of contents.
    pub toc: Option<String>,
    /// Live-preview session ID (optional).
    pub session_id: Option<String>,
    /// Inline images, referenced from Markdown as `![alt](/somadoc-img/<id>)`.
    pub images: Vec<InlineImage>,
}

/// An inline image: referenced in Markdown via `![alt](/somadoc-img/<id>)`; the
/// bytes and layout are carried by this struct.
#[derive(Debug)]
pub struct InlineImage {
    /// Virtual path id (without the `/somadoc-img/` prefix).
    pub id: String,
    /// Image bytes (base64-encoded).
    pub data: String,
    /// Layout: `center` (default) / `left` / `right` / `wrap-left` / `wrap-right`.
    pub align: Option<String>,
}

/// Render output.
#[derive(Debug)]
pub struct RenderOutput {
    /// Result bytes: PDF, or a JSON envelope (`{"pages": [...], "anchors": [...]}`) for SVG.
    pub bytes: Vec<u8>,
    /// Duration in milliseconds.
    pub duration_ms: u64,
    /// Engine id that produced this output (e.g. `"typst"`).
    pub engine: String,
}

/// Render error.
#[derive(Debug)]
pub enum RenderError {
    Engine(String),
    Timeout(String),
    Io(std::io::Error),
    Core(CoreError),
}

/// `RenderResult` alias.
pub type RenderResult = Result<RenderOutput, RenderError>;

impl Default for RenderRequest {
    /// A request with nothing set: no template, content, IR, variables, `toc`,
    /// session or images.
    fn default() -> (r: RenderRequest)
        ensures
            r.template_id is None,
            r.content is None,
            r.ir is None,
            r.variables@.len() == 0,
            r.toc is None,
            r.session_id is None,
            r.images@.len() == 0,
    {
        RenderRequest {
            template_id: None,
            content: None,
            ir: None,
            variables: Vec::new(),
            toc: None,
            session_id: None,
            images: Vec::new(),
        }
    }
}

} // verus!
