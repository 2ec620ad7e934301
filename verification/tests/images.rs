use base64::Engine;
use somadoc::images::{protect_images, restore_images};
use somadoc::types::InlineImage;

fn img(id: &str, align: &str) -> InlineImage {
    InlineImage {
        id: id.to_string(),
        data: base64::engine::general_purpose::STANDARD.encode(b"\x89PNG\r\n"),
        align: Some(align.to_string()),
    }
}

#[test]
fn rewrites_image_to_center_by_default() {
    let md = "前文\n\n![示意](/somadoc-img/a1)\n\n后文";
    let (protected, inject) = protect_images(md, &[img("a1", "center")]);
    assert!(!protected.contains("![示意]"));
    assert!(protected.contains("SOMADOCIMG0K2M8X"));
    let restored = restore_images(&protected, &inject.replacements);
    assert!(restored.contains("#align(center, image(\"/somadoc-img/a1\", alt: \"示意\"))"));
    assert_eq!(inject.bytes.len(), 1);
    assert_eq!(inject.bytes[0].0, "/somadoc-img/a1");
}

#[test]
fn leaves_ordinary_images_as_is() {
    let md = "![外部](https://example.com/x.png)";
    let (protected, inject) = protect_images(md, &[]);
    assert_eq!(protected, md);
    assert!(inject.replacements.is_empty());
}

#[test]
fn image_bytes_are_decoded() {
    let (_, inject) = protect_images("![a](/somadoc-img/x)", &[img("x", "left")]);
    assert_eq!(inject.bytes[0].1, b"\x89PNG\r\n".to_vec());
}

#[test]
fn layouts_map_to_typst_snippets() {
    let md = "![l](/somadoc-img/l) ![r](/somadoc-img/r) ![wl](/somadoc-img/wl) ![wr](/somadoc-img/wr) ![o](/somadoc-img/o)";
    let images = [
        img("l", "left"),
        img("r", "right"),
        img("wl", "wrap-left"),
        img("wr", "wrap-right"),
        img("o", "diagonal"),
    ];
    let (protected, inject) = protect_images(md, &images);
    assert_eq!(
        protected,
        "SOMADOCIMG0K2M8X SOMADOCIMG1K2M8X SOMADOCIMG2K2M8X SOMADOCIMG3K2M8X SOMADOCIMG4K2M8X"
    );
    let restored = restore_images(&protected, &inject.replacements);
    assert_eq!(
        restored,
        "#align(left, image(\"/somadoc-img/l\", alt: \"l\")) \
         #align(right, image(\"/somadoc-img/r\", alt: \"r\")) \
         #figure(image(\"/somadoc-img/wl\", alt: \"wl\"), placement: left) \
         #figure(image(\"/somadoc-img/wr\", alt: \"wr\"), placement: right) \
         #align(center, image(\"/somadoc-img/o\", alt: \"o\"))"
    );
}

#[test]
fn alt_text_is_escaped_and_missing_align_centers() {
    let mut i = img("q", "");
    i.align = None;
    let (protected, inject) = protect_images("![say \"hi\"](/somadoc-img/q)", &[i]);
    let restored = restore_images(&protected, &inject.replacements);
    assert_eq!(restored, "#align(center, image(\"/somadoc-img/q\", alt: \"say \\\"hi\\\"\"))");
}

#[test]
fn undecodable_or_unknown_images_stay_literal() {
    let bad = InlineImage { id: "b".to_string(), data: "!!not base64!!".to_string(), align: None };
    let md = "![x](/somadoc-img/b) ![y](/somadoc-img/missing) ![z](/somadoc-img/b";
    let (protected, inject) = protect_images(md, &[bad]);
    assert_eq!(protected, md);
    assert!(inject.replacements.is_empty());
    assert!(inject.bytes.is_empty());
}
