# somadoc

Markdown (plus handwritten LaTeX) to Typst source, verified with Verus.

- `src/` — the verified library: the document model (`ir`), IR → Markdown
  (`to_markdown`), text extraction (`extract`), request handling and
  frontmatter merging (`common`), LaTeX command and inline-image protection
  (`latex_commands`, `images`), the composition of the final Typst source with
  its block anchors (`typst`), and the live-preview session registry
  (`svg_out`). Calls into `mdxport`, `serde_yaml` and `base64` go through small
  trusted wrappers (`mdx`, `yaml`, `b64`). Before Markdown reaches `mdxport`,
  `mdx::check_math_convertible` refuses math that its LaTeX converter cannot
  take (a prime after a superscript, an unclosed environment, an empty
  `\sqrt`); such a document gets an engine error instead of a crash.
- `app/` — what runs around it: the async `RenderEngine` interface, reading
  templates, in-process Typst compilation to PDF / SVG, fonts, and the serde
  forms of the request and IR.
- `tests/` — tests of the library.
