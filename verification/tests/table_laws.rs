use somadoc::images::{protect_images, restore_images};
use somadoc::latex_commands::protect_markdown;
use somadoc::types::InlineImage;

#[test]
fn known_command_with_its_arguments_is_translated() {
    let (_, two) = protect_markdown(r"\colorbox{red}{x}");
    assert_eq!(two.len(), 1);
    assert_eq!(two[0].1, "#highlight(fill: red)[x]");
    let (_, zero) = protect_markdown(r"\hfill");
    assert_eq!(zero.len(), 1);
    assert_eq!(zero[0].1, "#h(1fr)");
    let (_, one) = protect_markdown(r"\mathbb{R}");
    assert_eq!(one.len(), 1);
    assert_eq!(one[0].1, "#math.bb[R]");
}

#[test]
fn command_missing_an_argument_or_unknown_is_not_translated() {
    let (text, reps) = protect_markdown(r"\colorbox{red}");
    assert!(reps.is_empty());
    assert_eq!(text, r"\colorbox{red}");
    let (text, reps) = protect_markdown(r"\unknowncmd{x}");
    assert!(reps.is_empty());
    assert_eq!(text, r"\unknowncmd{x}");
}

#[test]
fn restore_without_replacements_gives_markdown_back() {
    let md = "text ![pic](/somadoc-img/missing) and ![b](other.png)";
    let unused = InlineImage { id: "x".to_string(), data: "AAAA".to_string(), align: None };
    let (protected, inject) = protect_images(md, &[unused]);
    assert!(inject.replacements.is_empty());
    assert_eq!(restore_images(&protected, &inject.replacements), md);
}
