use somadoc::latex_commands::{protect_markdown, restore_placeholders};
use somadoc::mdx::{check_math_convertible, convert_markdown_checked, MdFrontMatter};
use somadoc::typst::{live_preview_source, TypstEngine};
use somadoc::types::RenderError;

const UNSUPPORTED: &str =
    "unsupported LaTeX math (a prime after a superscript, an unclosed environment, or an empty \\sqrt)";

#[test]
fn prime_after_superscript_in_math_is_refused() {
    assert!(!check_math_convertible("$x^2'$"));
    assert!(!check_math_convertible("$$x_1^{n}'$$"));
    assert!(!check_math_convertible("$$x^2$$ isn't $$y$$"));
    assert!(!check_math_convertible("$`x^2`$ isn't $y$"));
}

#[test]
fn primes_outside_any_math_pair_are_accepted() {
    assert!(check_math_convertible("$f'(x) = x^2$"));
    assert!(check_math_convertible("$x^2$ and it's fine"));
    assert!(check_math_convertible("it's $x^2$"));
    assert!(check_math_convertible("$x^2$\n\nit's $y$"));
    assert!(check_math_convertible("$x^2$\n\r\nit's $y$"));
    assert!(check_math_convertible("no math at all: x^2 isn't"));
    assert!(check_math_convertible("$x^2$ isn't $y$"));
}

#[test]
fn closed_environments_in_math_are_accepted() {
    assert!(check_math_convertible("$$\\begin{pmatrix} a & b \\\\ c & d \\end{pmatrix}$$"));
    assert!(check_math_convertible(
        "$$\\begin{aligned} x &= \\begin{cases} 1 \\\\ 2 \\end{cases} \\end{aligned}$$"
    ));
    assert!(check_math_convertible("$\\left(\\begin{matrix} a \\end{matrix}\\right)$"));
    assert!(check_math_convertible("\\begin{itemize} outside math"));
}

#[test]
fn unclosed_environments_in_math_are_refused() {
    assert!(!check_math_convertible("$\\begin{cases} a $"));
    assert!(!check_math_convertible("${\\begin{a}} \\end{a}$"));
    assert!(!check_math_convertible("$\\begin{a} \\text{\\end{a}}$"));
    assert!(!check_math_convertible("$\\begin{a} \\\\end{a}$"));
    assert!(!check_math_convertible("$\\begin x{a} \\end{a}$"));
}

#[test]
fn sqrt_needs_an_argument() {
    assert!(check_math_convertible("$\\sqrt{2}$"));
    assert!(check_math_convertible("$\\sqrt[3]{x}$"));
    assert!(check_math_convertible("$\\sqrt2$"));
    assert!(!check_math_convertible("$\\sqrt$"));
    assert!(!check_math_convertible("$\\sqrt x$"));
    assert!(!check_math_convertible("${\\sqrt}$"));
}

#[test]
fn checked_conversion_refuses_unsupported_math() {
    let fm = MdFrontMatter::empty();
    match convert_markdown_checked("$x^2'$", &fm) {
        Err(e) => assert_eq!(e, UNSUPPORTED),
        Ok(_) => panic!("expected the math to be refused"),
    }
    let ok = convert_markdown_checked("Energy $E = mc^2$.", &fm).expect("convertible");
    assert!(ok.body.contains("m c^2") || ok.body.contains("c^2"));
}

#[test]
fn typst_source_reports_unsupported_math() {
    let template = "#let article(title: none, authors: (), lang: \"en\", toc: false, body) = body\n";
    match TypstEngine::build_typst_source("Derivative $y^2'$ here.\n", template, &[]) {
        Err(RenderError::Engine(m)) => {
            assert_eq!(m, format!("markdown → typst conversion failed: {}", UNSUPPORTED))
        }
        _ => panic!("expected an engine error"),
    }
    match live_preview_source("$\\begin{matrix} a$\n", Some(template), &[]) {
        Err(RenderError::Engine(m)) => {
            assert_eq!(m, format!("markdown → typst conversion failed: {}", UNSUPPORTED))
        }
        _ => panic!("expected an engine error"),
    }
}

#[test]
fn latex_argument_with_unsupported_math_is_kept() {
    let (protected, map) = protect_markdown("\\underline{$x^2'$}");
    let out = restore_placeholders(&protected, &map);
    assert_eq!(out, "#underline(evade: false)[$x^2'$]");
}

#[test]
fn accepted_math_converts_through_mdxport() {
    let fm = MdFrontMatter::empty();
    let samples = [
        "$$\\begin{pmatrix} a & b \\\\ c & d \\end{pmatrix}$$\n",
        "$$\\begin{aligned} x &= \\begin{cases} 1 \\\\ 2 \\end{cases} \\end{aligned}$$\n",
        "$\\left(\\begin{matrix} a \\end{matrix}\\right)$ and $x_1'$ and $f'(x)$\n",
        "$\\sqrt2 + \\sqrt[3]{x} + \\sqrt{y}$\n",
        "$x^2$ and it's fine\n\nthat's $y'$\n",
        "$x^2$ and it's fine, $e^{-x^2}$ too\n",
    ];
    for md in samples {
        assert!(check_math_convertible(md), "should be accepted: {md}");
        assert!(convert_markdown_checked(md, &fm).is_ok(), "should convert: {md}");
    }
}
