//! SomaDoc: Markdown (plus handwritten LaTeX) to Typst source, with the
//! document model, Markdown serialization and text extraction it builds on.

pub mod text;
pub mod b64;
pub mod yaml;
pub mod mdx;
pub mod error;
pub mod ir;
pub mod extract;
pub mod to_markdown;
pub mod types;
pub mod latex_commands;
pub mod images;
pub mod common;
pub mod typst;
pub mod svg_out;
