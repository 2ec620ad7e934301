//! Inline images: Markdown `![alt](/somadoc-img/<id>)` → Typst `image`.
//!
//! The same placeholder protection as `latex_commands`: `protect_images`
//! replaces each reference to a supplied image with an alphanumeric placeholder
//! and collects the Typst snippet and the image bytes; after conversion,
//! `restore_images` puts the snippets back.
//!
//! Layout (`InlineImage.align`): `center` (default) → `#align(center, image(...))`;
//! `left` / `right` → `#align(left|right, image(...))`; `wrap-left` / `wrap-right`
//! → `#figure(image(...), placement: left|right)`.

use vstd::prelude::*;
use crate::text::{
    chars_of, decimal, eq_lit, find_char_exec, find_char_from, lemma_find_char_from, push_char,
    push_decimal, replace_all, replace_str, starts_with, string_of_range,
};
use crate::b64::{base64_standard_decode, decode_base64};
use crate::latex_commands::{restore_all, reps_view, restore_placeholders, Reps};
use crate::types::InlineImage;

verus! {

/// Image injection result: placeholder → Typst snippet (in the order made);
/// virtual path → image bytes.
pub struct ImageInject {
    pub replacements: Vec<(String, String)>,
    pub bytes: Vec<(String, Vec<u8>)>,
}

/// The `n`-th image placeholder.
pub open spec fn image_placeholder(n: nat) -> Seq<char> {
    "SOMADOCIMG"@ + decimal(n) + "K2M8X"@
}

/// Layout → Typst snippet template (`{path}` = virtual path, `{alt}` = escaped alt text).
pub open spec fn layout_template(align: Seq<char>) -> Seq<char> {
    if align == "left"@ {
        "#align(left, image(\"{path}\", alt: \"{alt}\"))"@
    } else if align == "right"@ {
        "#align(right, image(\"{path}\", alt: \"{alt}\"))"@
    } else if align == "wrap-left"@ {
        "#figure(image(\"{path}\", alt: \"{alt}\"), placement: left)"@
    } else if align == "wrap-right"@ {
        "#figure(image(\"{path}\", alt: \"{alt}\"), placement: right)"@
    } else {
        "#align(center, image(\"{path}\", alt: \"{alt}\"))"@
    }
}

/// A Typst double-quoted string literal's content: `\` and `"` escaped.
pub open spec fn escape_typst_string(s: Seq<char>) -> Seq<char> {
    replace_all(replace_all(s, "\\"@, "\\\\"@), "\""@, "\\\""@)
}

/// `![alt](url)` at `c[start]`: alt text, url and the index after it. Neither
/// supports nested brackets or parentheses.
pub open spec fn scan_md_image(c: Seq<char>, start: int) -> Option<(Seq<char>, Seq<char>, int)> {
    let j = find_char_from(c, ']', start + 2);
    if j >= c.len() || j + 1 >= c.len() || c[j + 1] != '(' {
        None
    } else {
        let k = find_char_from(c, ')', j + 2);
        if k >= c.len() {
            None
        } else {
            Some((c.subrange(start + 2, j), c.subrange(j + 2, k), k + 1))
        }
    }
}

/// The last image with id `id` (later entries win, as when collected into a map).
pub open spec fn last_image_with_id(images: Seq<InlineImage>, id: Seq<char>) -> Option<int>
    decreases images.len(),
{
    if images.len() == 0 {
        None
    } else if images.last().id@ == id {
        Some(images.len() - 1)
    } else {
        last_image_with_id(images.drop_last(), id)
    }
}

pub proof fn lemma_last_image_with_id(images: Seq<InlineImage>, id: Seq<char>)
    ensures
        last_image_with_id(images, id) matches Some(k) ==> 0 <= k < images.len() && images[k].id@
            == id,
    decreases images.len(),
{
    if images.len() > 0 && images.last().id@ != id {
        lemma_last_image_with_id(images.drop_last(), id);
    }
}

pub open spec fn img_prefix() -> Seq<char> {
    "/somadoc-img/"@
}

/// An image reference at `c[i]` that names a supplied image whose data decodes:
/// (alt, image index, decoded bytes, index after the reference).
pub open spec fn image_ref_at(c: Seq<char>, i: int, images: Seq<InlineImage>) -> Option<
    (Seq<char>, int, Seq<u8>, int),
> {
    if 0 <= i && i + 1 < c.len() && c[i] == '!' && c[i + 1] == '[' {
        match scan_md_image(c, i) {
            Some((alt, url, end)) => if starts_with(url, img_prefix()) {
                match last_image_with_id(images, url.skip(img_prefix().len() as int)) {
                    Some(k) => match base64_standard_decode(images[k].data@) {
                        Some(data) => Some((alt, k, data, end)),
                        None => None,
                    },
                    None => None,
                }
            } else {
                None
            },
            None => None,
        }
    } else {
        None
    }
}

/// The Typst snippet for an image reference.
pub open spec fn image_snippet(img: InlineImage, alt: Seq<char>) -> Seq<char> {
    let align = match img.align {
        Some(a) => a@,
        None => "center"@,
    };
    replace_all(
        replace_all(layout_template(align), "{path}"@, img_prefix() + img.id@),
        "{alt}"@,
        escape_typst_string(alt),
    )
}

/// Scan of `c[i..]`: output, placeholder table and image bytes after it.
pub open spec fn img_scan(
    c: Seq<char>,
    i: int,
    images: Seq<InlineImage>,
    reps: Reps,
    bytes: Seq<(Seq<char>, Seq<u8>)>,
) -> (Seq<char>, Reps, Seq<(Seq<char>, Seq<u8>)>)
    decreases c.len() - i,
{
    if i < 0 || i >= c.len() {
        (Seq::<char>::empty(), reps, bytes)
    } else {
        match image_ref_at(c, i, images) {
            Some((alt, k, data, end)) => {
                let ph = image_placeholder(reps.len());
                let img = images[k];
                if end > i {
                    let rest = img_scan(
                        c,
                        end,
                        images,
                        reps.push((ph, image_snippet(img, alt))),
                        bytes.push((img_prefix() + img.id@, data)),
                    );
                    (ph + rest.0, rest.1, rest.2)
                } else {
                    (Seq::<char>::empty(), reps, bytes)
                }
            },
            None => {
                let rest = img_scan(c, i + 1, images, reps, bytes);
                (seq![c[i]] + rest.0, rest.1, rest.2)
            },
        }
    }
}

pub proof fn lemma_scan_md_image(c: Seq<char>, start: int)
    requires
        0 <= start,
        start + 2 <= c.len(),
    ensures
        scan_md_image(c, start) matches Some((_, _, end)) ==> start + 2 < end <= c.len(),
{
    lemma_find_char_from(c, ']', start + 2);
    let j = find_char_from(c, ']', start + 2);
    if j + 2 <= c.len() {
        lemma_find_char_from(c, ')', j + 2);
    }
}

fn layout_template_exec(align: &[char]) -> (r: &'static str)
    ensures
        r@ == layout_template(align@),
{
    if eq_lit(align, "left") {
        "#align(left, image(\"{path}\", alt: \"{alt}\"))"
    } else if eq_lit(align, "right") {
        "#align(right, image(\"{path}\", alt: \"{alt}\"))"
    } else if eq_lit(align, "wrap-left") {
        "#figure(image(\"{path}\", alt: \"{alt}\"), placement: left)"
    } else if eq_lit(align, "wrap-right") {
        "#figure(image(\"{path}\", alt: \"{alt}\"), placement: right)"
    } else {
        "#align(center, image(\"{path}\", alt: \"{alt}\"))"
    }
}

fn escape_typst_string_exec(s: &str) -> (r: String)
    ensures
        r@ == escape_typst_string(s@),
{
    let a = replace_str(s, "\\", "\\\\");
    replace_str(a.as_str(), "\"", "\\\"")
}

fn scan_md_image_exec(c: &[char], start: usize) -> (r: Option<(String, String, usize)>)
    requires
        start + 2 <= c@.len(),
    ensures
        match r {
            Some((alt, url, end)) => scan_md_image(c@, start as int) == Some(
                (alt@, url@, end as int),
            ),
            None => scan_md_image(c@, start as int) is None,
        },
{
    let n: usize = c.len();
    let j = find_char_exec(c, ']', start + 2);
    if j >= n || j + 1 >= n || c[j + 1] != '(' {
        return None;
    }
    let k = find_char_exec(c, ')', j + 2);
    if k >= n {
        return None;
    }
    Some((string_of_range(c, start + 2, j), string_of_range(c, j + 2, k), k + 1))
}

fn last_image_with_id_exec(images: &[InlineImage], id: &str) -> (r: Option<usize>)
    ensures
        match r {
            Some(k) => last_image_with_id(images@, id@) == Some(k as int),
            None => last_image_with_id(images@, id@) is None,
        },
{
    let idv = chars_of(id);
    let mut k: usize = images.len();
    assert(images@.take(k as int) =~= images@);
    while k > 0
        invariant
            0 <= k <= images@.len(),
            idv@ == id@,
            last_image_with_id(images@, id@) == last_image_with_id(images@.take(k as int), id@),
        decreases k,
    {
        let ghost pre = images@.take(k as int);
        assert(pre.drop_last() =~= images@.take(k - 1));
        assert(pre.last() == images@[k - 1]);
        if eq_lit(&idv, images[k - 1].id.as_str()) {
            return Some(k - 1);
        }
        k -= 1;
    }
    None
}

fn image_snippet_exec(img: &InlineImage, alt: &str) -> (r: String)
    ensures
        r@ == image_snippet(*img, alt@),
{
    let tpl = match &img.align {
        Some(a) => layout_template_exec(&chars_of(a.as_str())),
        None => layout_template_exec(&chars_of("center")),
    };
    let mut vpath = String::new();
    vpath.append("/somadoc-img/");
    vpath.append(img.id.as_str());
    let a = replace_str(tpl, "{path}", vpath.as_str());
    let esc = escape_typst_string_exec(alt);
    replace_str(a.as_str(), "{alt}", esc.as_str())
}

/// View of the image byte list.
pub open spec fn bytes_view(v: Seq<(String, Vec<u8>)>) -> Seq<(Seq<char>, Seq<u8>)> {
    v.map_values(|p: (String, Vec<u8>)| (p.0@, p.1@))
}

/// Scan the Markdown body and replace each `![alt](/somadoc-img/<id>)` that names
/// a supplied image (the last one with that id) whose data decodes with a
/// placeholder; collect the Typst snippets and the image bytes.
pub fn protect_images(markdown: &str, images: &[InlineImage]) -> (r: (String, ImageInject))
    ensures
        ({
            let s = img_scan(markdown@, 0, images@, Seq::empty(), Seq::empty());
            &&& r.0@ == s.0
            &&& reps_view(r.1.replacements@) == s.1
            &&& bytes_view(r.1.bytes@) == s.2
        }),
{
    let c = chars_of(markdown);
    let ghost s0 = img_scan(c@, 0, images@, Seq::empty(), Seq::empty());
    let mut out = String::new();
    let mut inject = ImageInject { replacements: Vec::new(), bytes: Vec::new() };
    assert(reps_view(inject.replacements@) =~= Seq::<(Seq<char>, Seq<char>)>::empty());
    assert(bytes_view(inject.bytes@) =~= Seq::<(Seq<char>, Seq<u8>)>::empty());
    let mut i: usize = 0;
    while i < c.len()
        invariant
            0 <= i <= c@.len(),
            s0 == img_scan(c@, 0, images@, Seq::empty(), Seq::empty()),
            s0.0 == out@ + img_scan(
                c@,
                i as int,
                images@,
                reps_view(inject.replacements@),
                bytes_view(inject.bytes@),
            ).0,
            s0.1 == img_scan(
                c@,
                i as int,
                images@,
                reps_view(inject.replacements@),
                bytes_view(inject.bytes@),
            ).1,
            s0.2 == img_scan(
                c@,
                i as int,
                images@,
                reps_view(inject.replacements@),
                bytes_view(inject.bytes@),
            ).2,
        decreases c.len() - i,
    {
        let ghost reps = reps_view(inject.replacements@);
        let ghost bts = bytes_view(inject.bytes@);
        let ghost o = out@;
        if c[i] == '!' && i + 1 < c.len() && c[i + 1] == '[' {
            proof {
                lemma_scan_md_image(c@, i as int);
            }
            match scan_md_image_exec(&c, i) {
                Some((alt, url, end)) => {
                    let u = chars_of(url.as_str());
                    let pre = chars_of("/somadoc-img/");
                    if u.len() >= pre.len() && eq_lit(&crate::text::slice_vec(&u, 0, pre.len()), "/somadoc-img/") {
                        proof {
                            assert(u@.subrange(0, pre@.len() as int) =~= u@.take(pre@.len() as int));
                        }
                        let id = string_of_range(&u, pre.len(), u.len());
                        assert(id@ =~= url@.skip(img_prefix().len() as int));
                        match last_image_with_id_exec(images, id.as_str()) {
                            Some(k) => {
                                proof {
                                    lemma_last_image_with_id(images@, id@);
                                }
                                match decode_base64(images[k].data.as_str()) {
                                    Some(data) => {
                                        let mut vpath = String::new();
                                        vpath.append("/somadoc-img/");
                                        vpath.append(images[k].id.as_str());
                                        let mut ph = String::new();
                                        ph.append("SOMADOCIMG");
                                        push_decimal(&mut ph, inject.replacements.len() as u128);
                                        ph.append("K2M8X");
                                        let typst = image_snippet_exec(&images[k], alt.as_str());
                                        out.append(ph.as_str());
                                        let ph2 = String::from_str(ph.as_str());
                                        inject.replacements.push((ph2, typst));
                                        inject.bytes.push((vpath, data));
                                        assert(reps_view(inject.replacements@) =~= reps.push(
                                            (image_placeholder(reps.len()), image_snippet(images@[k as int], alt@)),
                                        ));
                                        assert(bytes_view(inject.bytes@) =~= bts.push(
                                            (img_prefix() + images@[k as int].id@, data@),
                                        ));
                                        i = end;
                                        continue;
                                    },
                                    None => {},
                                }
                            },
                            None => {},
                        }
                    }
                },
                None => {},
            }
        }
        push_char(&mut out, c[i]);
        i += 1;
    }
    (out, inject)
}

/// Restore image placeholders in the Typst body into Typst snippets (last entry first).
pub fn restore_images(body: &str, replacements: &Vec<(String, String)>) -> (r: String)
    ensures
        r@ == restore_all(body@, reps_view(replacements@)),
{
    restore_placeholders(body, replacements)
}


proof fn lemma_scan_without_images(
    c: Seq<char>,
    i: int,
    reps: Reps,
    bytes: Seq<(Seq<char>, Seq<u8>)>,
)
    requires
        0 <= i <= c.len(),
    ensures
        img_scan(c, i, Seq::empty(), reps, bytes) == (c.skip(i), reps, bytes),
    decreases c.len() - i,
{
    if i < c.len() {
        lemma_scan_without_images(c, i + 1, reps, bytes);
        assert(c.skip(i) =~= seq![c[i]] + c.skip(i + 1));
    } else {
        assert(c.skip(i) =~= Seq::<char>::empty());
    }
}

/// With no inline images supplied, `protect_images` leaves the Markdown as it
/// is and collects nothing.
pub proof fn lemma_protect_without_images(markdown: Seq<char>)
    ensures
        img_scan(markdown, 0, Seq::empty(), Seq::empty(), Seq::empty()) == (
            markdown,
            Seq::<(Seq<char>, Seq<char>)>::empty(),
            Seq::<(Seq<char>, Seq<u8>)>::empty(),
        ),
{
    lemma_scan_without_images(markdown, 0, Seq::empty(), Seq::empty());
    assert(markdown.skip(0) =~= markdown);
}

/// A placeholder table whose `k`-th entry is the `k`-th image placeholder.
pub open spec fn images_numbered(reps: Reps) -> bool {
    forall|k: int| 0 <= k < reps.len() ==> #[trigger] reps[k].0 == image_placeholder(k as nat)
}

proof fn lemma_scan_numbered(
    c: Seq<char>,
    i: int,
    images: Seq<InlineImage>,
    reps: Reps,
    bytes: Seq<(Seq<char>, Seq<u8>)>,
)
    requires
        images_numbered(reps),
    ensures
        images_numbered(img_scan(c, i, images, reps, bytes).1),
    decreases c.len() - i,
{
    if 0 <= i < c.len() {
        match image_ref_at(c, i, images) {
            Some((alt, k, data, end)) => {
                if end > i {
                    let ph = image_placeholder(reps.len());
                    let r2 = reps.push((ph, image_snippet(images[k], alt)));
                    assert(images_numbered(r2)) by {
                        assert forall|m: int| 0 <= m < r2.len() implies #[trigger] r2[m].0
                            == image_placeholder(m as nat) by {
                            if m < reps.len() {
                                assert(r2[m] == reps[m]);
                            }
                        }
                    }
                    lemma_scan_numbered(
                        c,
                        end,
                        images,
                        r2,
                        bytes.push((img_prefix() + images[k].id@, data)),
                    );
                }
            },
            None => {
                lemma_scan_numbered(c, i + 1, images, reps, bytes);
            },
        }
    }
}

/// `protect_images` numbers its placeholders in the order it makes them, and
/// different numbers give different placeholders: each image snippet is
/// restored at its own placeholder.
pub proof fn lemma_image_placeholders(markdown: Seq<char>, images: Seq<InlineImage>, n: nat, m: nat)
    ensures
        images_numbered(img_scan(markdown, 0, images, Seq::empty(), Seq::empty()).1),
        n != m ==> image_placeholder(n) != image_placeholder(m),
{
    lemma_scan_numbered(markdown, 0, images, Seq::empty(), Seq::empty());
    if n != m && image_placeholder(n) == image_placeholder(m) {
        let p = "SOMADOCIMG"@;
        let dn = decimal(n);
        let dm = decimal(m);
        assert(image_placeholder(n).len() == p.len() + dn.len() + "K2M8X"@.len());
        assert(dn.len() == dm.len());
        assert(image_placeholder(n).subrange(p.len() as int, (p.len() + dn.len()) as int) =~= dn);
        assert(image_placeholder(m).subrange(p.len() as int, (p.len() + dm.len()) as int) =~= dm);
        crate::text::lemma_decimal_injective(n, m);
    }
}

proof fn lemma_scan_keeps_text(
    c: Seq<char>,
    i: int,
    images: Seq<InlineImage>,
    reps: Reps,
    bytes: Seq<(Seq<char>, Seq<u8>)>,
)
    requires
        0 <= i <= c.len(),
    ensures
        img_scan(c, i, images, reps, bytes).1.len() >= reps.len(),
        img_scan(c, i, images, reps, bytes).1.len() == reps.len() ==> img_scan(
            c,
            i,
            images,
            reps,
            bytes,
        ).0 == c.skip(i),
    decreases c.len() - i,
{
    if i < c.len() {
        match image_ref_at(c, i, images) {
            Some((alt, k, data, end)) => {
                lemma_scan_md_image(c, i);
                if end > i {
                    let r2 = reps.push((image_placeholder(reps.len()), image_snippet(images[k], alt)));
                    lemma_scan_keeps_text(c, end, images, r2, bytes.push((img_prefix() + images[k].id@, data)));
                }
            },
            None => {
                lemma_scan_keeps_text(c, i + 1, images, reps, bytes);
                assert(c.skip(i) =~= seq![c[i]] + c.skip(i + 1));
            },
        }
    } else {
        assert(c.skip(i) =~= Seq::<char>::empty());
    }
}

/// When `protect_images` replaces no reference, restoring gives the Markdown
/// back as it was.
pub proof fn lemma_restore_without_replacements(markdown: Seq<char>, images: Seq<InlineImage>)
    ensures
        ({
            let (p, reps, _) = img_scan(markdown, 0, images, Seq::empty(), Seq::empty());
            reps.len() == 0 ==> restore_all(p, reps) == markdown
        }),
{
    lemma_scan_keeps_text(markdown, 0, images, Seq::empty(), Seq::empty());
    assert(markdown.skip(0) =~= markdown);
}

} // verus!
