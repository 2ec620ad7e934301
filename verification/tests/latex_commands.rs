use somadoc::latex_commands::{protect_markdown, restore_placeholders};

fn translate(md: &str) -> String {
    let (protected, map) = protect_markdown(md);
    // The protected text stands in for the converted body: placeholders stay literal text.
    restore_placeholders(&protected, &map)
}

#[test]
fn text_style_commands() {
    assert_eq!(translate(r"\textbf{你好}"), "**你好**");
    assert_eq!(translate(r"\textit{x}"), "*x*");
    assert_eq!(translate(r"\underline{x}"), "#underline(evade: false)[x]");
    assert_eq!(translate(r"\textsc{abc}"), "#smallcaps[abc]");
    assert_eq!(translate(r"\texttt{code}"), "`code`");
    assert_eq!(translate(r"\sout{old}"), "~~old~~");
}

#[test]
fn nested_markdown_inside_text_style() {
    assert_eq!(
        translate(r"\underline{例如**强调一段同时含 *斜体* 与`代码`的句子**。}"),
        "#underline(evade: false)[例如*强调一段同时含 _斜体_ 与`代码`的句子*。]"
    );
}

#[test]
fn color_commands() {
    assert_eq!(translate(r"\textcolor{red}{注意}"), "#text(fill: red)[注意]");
    assert_eq!(
        translate(r"\color{#ff70b7}{pink}"),
        "#text(fill: rgb(\"#ff70b7\"))[pink]"
    );
}

#[test]
fn size_commands() {
    assert_eq!(translate(r"\large{大}"), "#text(size: 12pt)[大]");
    assert_eq!(translate(r"\Huge{巨}"), "#text(size: 24.88pt)[巨]");
    // declarative (no braces) → no-op
    assert_eq!(translate(r"a\normalsize b"), "a b");
}

#[test]
fn spacing_and_break_commands() {
    assert_eq!(translate(r"\quad"), "#h(1em)");
    assert_eq!(translate(r"\qquad"), "#h(2em)");
    assert_eq!(translate(r"\,"), "#h(0.1667em)");
    assert_eq!(translate(r"a\\b"), "a#linebreak()b");
    assert_eq!(translate(r"\newpage"), "#pagebreak()");
}

#[test]
fn math_font_commands() {
    assert_eq!(translate(r"\mathsf{A}"), "#math.sans[A]");
    assert_eq!(translate(r"\mathbb{R}"), "#math.bb[R]");
    assert_eq!(translate(r"\utilde{x}"), "#underline[x]");
}

#[test]
fn nested_commands() {
    assert_eq!(
        translate(r"\color{red}{\textbf{hi}}"),
        "#text(fill: red)[#strong[hi]]"
    );
}

#[test]
fn non_breaking_space_preserved_inside_command() {
    assert_eq!(
        translate(r"\color{#f}{a~~b}"),
        "#text(fill: rgb(\"#f\"))[a~~b]"
    );
}

#[test]
fn control_space_becomes_regular_space() {
    assert_eq!(translate(r"a\ b"), "a b");
}

#[test]
fn unknown_command_preserved_as_literal() {
    let out = translate(r"\foo{bar}");
    assert!(out.contains("\\foo"), "unknown command should stay literal: {out}");
}

#[test]
fn plain_markdown_untouched() {
    assert_eq!(
        translate("# 标题\n\n**加粗** 和 `代码`"),
        "# 标题\n\n**加粗** 和 `代码`"
    );
}

#[test]
fn latex_inside_math_is_left_untouched() {
    assert_eq!(translate(r"$e^{-x^2}\,dx$"), r"$e^{-x^2}\,dx$");
    assert_eq!(
        translate("$$\n\\int_0^\\infty e^{-x^2}\\,dx = \\frac{\\sqrt{\\pi}}{2}\n$$"),
        "$$\n\\int_0^\\infty e^{-x^2}\\,dx = \\frac{\\sqrt{\\pi}}{2}\n$$"
    );
}

#[test]
fn commands_outside_math_are_still_translated() {
    assert_eq!(
        translate(r"$\alpha$ 与 \textcolor{red}{红}"),
        r"$\alpha$ 与 #text(fill: red)[红]"
    );
}

#[test]
fn escaped_dollar_is_not_a_math_delimiter() {
    assert_eq!(translate(r"\$5 and \textbf{bold}"), r"\$5 and **bold**");
}

#[test]
fn unterminated_dollar_is_literal() {
    assert_eq!(
        translate(r"price $5 and \textbf{bold}"),
        r"price $5 and **bold**"
    );
}

#[test]
fn full_example() {
    let out = translate(r"\mathsf{\color{#ff70b7}{\normalsize  \utilde{~~~@2025~~linnon~lab~~~}}}");
    assert!(out.contains("rgb(\"#ff70b7\")"), "{out}");
    assert!(out.contains("underline"), "{out}");
}

#[test]
fn placeholders_are_numbered_in_order() {
    let (protected, map) = protect_markdown(r"\quad x \qquad");
    assert_eq!(protected, "SOMADOCLATEXCMD0Q7F3A x SOMADOCLATEXCMD1Q7F3A");
    assert_eq!(map.len(), 2);
    assert_eq!(map[0], ("SOMADOCLATEXCMD0Q7F3A".to_string(), "#h(1em)".to_string()));
    assert_eq!(map[1], ("SOMADOCLATEXCMD1Q7F3A".to_string(), "#h(2em)".to_string()));
}

#[test]
fn nested_placeholder_inside_underline_is_restored() {
    let out = translate(r"\underline{a \quad b}");
    assert!(!out.contains("SOMADOC"), "{out}");
    assert!(out.contains("#h(1em)"), "{out}");
}

#[test]
fn restore_with_empty_table_is_identity() {
    assert_eq!(restore_placeholders("abc SOMADOCLATEXCMD0Q7F3A", &Vec::new()), "abc SOMADOCLATEXCMD0Q7F3A");
}

#[test]
fn href_and_url_links() {
    assert_eq!(translate(r#"\href{https://a.b/"q"}{x}"#), "#link(\"https://a.b/\\\"q\\\"\")[x]");
    assert_eq!(translate(r"\url{https://a.b}"), "#link(\"https://a.b\")[\"https://a.b\"]");
}

#[test]
fn unbalanced_group_keeps_backslash() {
    assert_eq!(translate(r"\textcolor{red}{x"), r"\textcolor{red}{x");
}
