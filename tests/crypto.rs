use epub_core::decrypt::{build_decrypted_filename, has_invalid_chars, strip_slim_suffix};
use epub_core::encrypt::{
    build_encrypted_filename, classify_item, generate_encrypted_name, FileCategory,
};
use epub_core::mapping::{build_decrypt_path_map, build_path_map, PathMap};
use epub_core::parser::{Manifest, ManifestItem};
use epub_core::paths::resolve_book_path;
use epub_core::rewrite::{rewrite_css, rewrite_xhtml, try_rewrite_href};

fn item(id: &str, href: &str, media_type: &str) -> ManifestItem {
    ManifestItem {
        id: id.into(),
        href: href.into(),
        media_type: media_type.into(),
        properties: None,
    }
}

#[test]
fn test_build_decrypted_filename_with_ext() {
    let name = build_decrypted_filename("chapter1.xhtml", "Text/chapter1.xhtml");
    assert_eq!(name, "chapter1.xhtml");
}

#[test]
fn test_build_decrypted_filename_no_ext() {
    let name = build_decrypted_filename("chapter1", "Text/chapter1.xhtml");
    assert_eq!(name, "chapter1.xhtml");
}

#[test]
fn test_build_decrypted_filename_slim() {
    let name = build_decrypted_filename("cover_slim.jpg", "Images/cover_slim.jpg");
    assert!(name.contains("~slim"));
    assert!(name.ends_with(".jpg"));
}

#[test]
fn test_build_decrypted_filename_invalid_chars() {
    let name = build_decrypted_filename("bad:name*.xhtml", "Text/bad.xhtml");
    assert!(name.ends_with(".xhtml"));
    assert!(!has_invalid_chars(&name));
}

#[test]
fn test_strip_slim_suffix() {
    assert_eq!(strip_slim_suffix("chapter1~slim"), "chapter1");
    assert_eq!(strip_slim_suffix("chapter1-slim"), "chapter1");
    assert_eq!(strip_slim_suffix("chapter1_slim"), "chapter1");
    assert_eq!(strip_slim_suffix("chapter1slim"), "chapter1");
    assert_eq!(strip_slim_suffix("chapter1"), "chapter1");
}

#[test]
fn test_has_invalid_chars() {
    assert!(has_invalid_chars("a:b"));
    assert!(has_invalid_chars("a*b"));
    assert!(!has_invalid_chars("normal_name"));
}

#[test]
fn test_generate_encrypted_name() {
    let name = generate_encrypted_name("chapter1");
    assert_eq!(name.len(), 128);
    assert!(name.chars().all(|c| c == '*' || c == ':'));
}

#[test]
fn test_generate_encrypted_name_deterministic() {
    let a = generate_encrypted_name("test_id");
    let b = generate_encrypted_name("test_id");
    assert_eq!(a, b);
}

#[test]
fn test_generate_encrypted_name_different_inputs() {
    let a = generate_encrypted_name("chapter1");
    let b = generate_encrypted_name("chapter2");
    assert_ne!(a, b);
}

#[test]
fn test_build_encrypted_filename() {
    let name = build_encrypted_filename("chapter1.xhtml", "Text/chapter1.xhtml");
    assert!(name.starts_with('_'));
    assert!(name.ends_with(".xhtml"));
    assert_eq!(name.len(), 1 + 128 + 6);
}

#[test]
fn test_build_encrypted_filename_slim() {
    let name = build_encrypted_filename("chapter1slim.css", "Styles/chapter1slim.css");
    assert!(name.contains("~slim"));
    assert!(name.ends_with(".css"));
}

#[test]
fn test_resolve_book_path() {
    assert_eq!(
        resolve_book_path("../Images/cover.jpg", "OEBPS/Text/ch1.xhtml"),
        "OEBPS/Images/cover.jpg"
    );
}

#[test]
fn test_resolve_book_path_same_dir() {
    assert_eq!(
        resolve_book_path("style.css", "OEBPS/Text/ch1.xhtml"),
        "OEBPS/Text/style.css"
    );
}

#[test]
fn test_resolve_book_path_up_two_levels() {
    assert_eq!(
        resolve_book_path("../../Images/img.png", "OEBPS/Text/sub/ch1.xhtml"),
        "OEBPS/Images/img.png"
    );
}

#[test]
fn test_classify_item() {
    let text_item = item("ch1", "Text/ch1.xhtml", "application/xhtml+xml");
    assert_eq!(classify_item(&text_item), FileCategory::Text);

    let css_item = item("style", "Styles/main.css", "text/css");
    assert_eq!(classify_item(&css_item), FileCategory::Css);

    let img_item = item("cover", "Images/cover.jpg", "image/jpeg");
    assert_eq!(classify_item(&img_item), FileCategory::Image);

    let font_item = item("font1", "Fonts/myfont.ttf", "font/ttf");
    assert_eq!(classify_item(&font_item), FileCategory::Font);
}

#[test]
fn test_rewrite_xhtml_href() {
    let mut path_map = PathMap::new();
    path_map.insert(
        "OEBPS/Styles/main.css".to_string(),
        ("_encrypted.css".to_string(), FileCategory::Css),
    );

    let xhtml = r#"<link href="../Styles/main.css" type="text/css"/>"#;
    let result = rewrite_xhtml(xhtml, "OEBPS/Text/ch1.xhtml", &path_map);
    assert!(result.contains("../Styles/_encrypted.css"));
}

#[test]
fn test_rewrite_xhtml_src() {
    let mut path_map = PathMap::new();
    path_map.insert(
        "OEBPS/Images/cover.jpg".to_string(),
        ("_encrypted.jpg".to_string(), FileCategory::Image),
    );

    let xhtml = r#"<img src="../Images/cover.jpg" alt="cover"/>"#;
    let result = rewrite_xhtml(xhtml, "OEBPS/Text/ch1.xhtml", &path_map);
    assert!(result.contains("../Images/_encrypted.jpg"));
}

#[test]
fn test_rewrite_ignores_external_urls() {
    let path_map = PathMap::new();
    let xhtml = r#"<a href="https://example.com">link</a>"#;
    let result = rewrite_xhtml(xhtml, "OEBPS/Text/ch1.xhtml", &path_map);
    assert_eq!(result, xhtml);
}

const CHAPTER1_GLYPHS: &str = ":::*:****::::*::*::*:*::**:*:***::***:*::*:::::*****:*****:*:**:*:::***:*:::::::****:**:*::::*:*::**::*::*::**:*::**:**::**:::*:";

#[test]
fn obfuscated_body_is_md5_bits() {
    assert_eq!(generate_encrypted_name("chapter1"), CHAPTER1_GLYPHS);
}

#[test]
fn obfuscated_name_hashes_id_without_extension() {
    let name = build_encrypted_filename("chapter1.xhtml", "Text/chapter1.XHTML");
    assert_eq!(name, format!("_{}.xhtml", CHAPTER1_GLYPHS));
}

#[test]
fn obfuscated_name_strips_slim_marker_before_hashing() {
    let name = build_encrypted_filename("chapter1_slim.css", "Styles/chapter1_slim.css");
    assert_eq!(name, format!("_{}~slim.css", CHAPTER1_GLYPHS));
}

#[test]
fn obfuscated_name_without_extension() {
    let name = build_encrypted_filename("chapter1", "Text/chapter1");
    assert_eq!(name, format!("_{}.", CHAPTER1_GLYPHS));
}

#[test]
fn revealed_slim_name() {
    assert_eq!(
        build_decrypted_filename("cover_slim.jpg", "Images/cover_slim.jpg"),
        "cover~slim.jpg"
    );
}

#[test]
fn revealed_name_hashes_invalid_characters() {
    assert_eq!(
        build_decrypted_filename("bad:name*.xhtml", "Text/bad.xhtml"),
        "fe17d2619d197199de1715f1fd2459cb.xhtml"
    );
}

#[test]
fn revealed_name_takes_href_extension() {
    assert_eq!(
        build_decrypted_filename("image01.png", "Images/image01.JPG"),
        "image01.jpg"
    );
}

#[test]
fn classify_by_font_extension_of_any_case() {
    let f = item("f", "Fonts/X.TTF", "application/octet-stream");
    assert_eq!(classify_item(&f), FileCategory::Font);
    let a = item("a", "Audio/a.mp3", "audio/mpeg");
    assert_eq!(classify_item(&a), FileCategory::Audio);
    let v = item("v", "Video/v.mp4", "video/mp4");
    assert_eq!(classify_item(&v), FileCategory::Video);
    let o = item("o", "Misc/x.bin", "application/octet-stream");
    assert_eq!(classify_item(&o), FileCategory::Other);
}

#[test]
fn category_directories() {
    assert_eq!(FileCategory::Text.dir_name(), "Text");
    assert_eq!(FileCategory::Css.dir_name(), "Styles");
    assert_eq!(FileCategory::Image.dir_name(), "Images");
    assert_eq!(FileCategory::Font.dir_name(), "Fonts");
    assert_eq!(FileCategory::Audio.dir_name(), "Audio");
    assert_eq!(FileCategory::Video.dir_name(), "Video");
    assert_eq!(FileCategory::Other.dir_name(), "Misc");
}

#[test]
fn resolve_drops_excess_parent_segments() {
    assert_eq!(resolve_book_path("../../../a.png", "OEBPS/Text/ch1.xhtml"), "a.png");
    assert_eq!(resolve_book_path("./b.css", "OEBPS/Text/ch1.xhtml"), "OEBPS/Text/b.css");
    assert_eq!(resolve_book_path("x.png", "ch1.xhtml"), "x.png");
}

#[test]
fn rewrite_keeps_external_and_unknown_references() {
    let mut path_map = PathMap::new();
    path_map.insert(
        "OEBPS/Images/a.png".to_string(),
        ("_x.png".to_string(), FileCategory::Image),
    );
    for href in ["mailto:someone@example.com", "data:image/png;base64,AAAA", "http://e.com/a.png", "../Images/b.png", ""] {
        assert_eq!(try_rewrite_href(href, "OEBPS/Text/c.xhtml", &path_map), None);
    }
    assert_eq!(
        try_rewrite_href("../Images/a.png#frag", "OEBPS/Text/c.xhtml", &path_map),
        Some("../Images/_x.png#frag".to_string())
    );
    assert_eq!(
        try_rewrite_href("../Images/%61.png", "OEBPS/Text/c.xhtml", &path_map),
        Some("../Images/_x.png".to_string())
    );
}

#[test]
fn rewrite_css_urls() {
    let mut path_map = PathMap::new();
    path_map.insert(
        "OEBPS/Fonts/f.ttf".to_string(),
        ("_f.ttf".to_string(), FileCategory::Font),
    );
    let css = "@font-face { src: url( \"../Fonts/f.ttf\" ); } a { background: url(http://x/y.png) }";
    assert_eq!(
        rewrite_css(css, "OEBPS/Styles/s.css", &path_map),
        "@font-face { src: url(../Fonts/_f.ttf); } a { background: url(http://x/y.png) }"
    );
}

#[test]
fn rewrite_inline_style_and_poster() {
    let mut path_map = PathMap::new();
    path_map.insert(
        "OEBPS/Images/p.jpg".to_string(),
        ("_p.jpg".to_string(), FileCategory::Image),
    );
    let xhtml = r#"<video poster="../Images/p.jpg"/><div style="background:url('../Images/p.jpg')"/>"#;
    assert_eq!(
        rewrite_xhtml(xhtml, "OEBPS/Text/c.xhtml", &path_map),
        r#"<video poster="../Images/_p.jpg"/><div style="background:url(../Images/_p.jpg)"/>"#
    );
}

#[test]
fn path_map_later_entry_wins() {
    let mut m = PathMap::new();
    m.insert("a".to_string(), ("x".to_string(), FileCategory::Text));
    m.insert("a".to_string(), ("y".to_string(), FileCategory::Css));
    let got = m.get(&"a".to_string()).unwrap();
    assert_eq!(got.0, "y");
    assert_eq!(got.1, FileCategory::Css);
    assert!(m.get(&"b".to_string()).is_none());
}

fn collision_manifest() -> Manifest {
    let mut m = Manifest::new();
    m.insert(item("ch.xhtml", "Text/x.xhtml", "application/xhtml+xml"));
    m.insert(item("ch.html", "Text/y.xhtml", "application/xhtml+xml"));
    m.insert(item("ncx", "toc.ncx", "application/x-dtbncx+xml"));
    m
}

#[test]
fn colliding_names_are_made_unique() {
    let m = collision_manifest();
    let (paths, hrefs) = build_path_map(&m, "ncx", "OEBPS");
    let a = paths.get(&"OEBPS/Text/x.xhtml".to_string()).unwrap().0.clone();
    let b = paths.get(&"OEBPS/Text/y.xhtml".to_string()).unwrap().0.clone();
    assert_ne!(a, b);
    assert!(a.ends_with(".xhtml") && b.ends_with(".xhtml"));
    assert!(a.contains("_1.") || b.contains("_1."));
    assert!(paths.get(&"OEBPS/toc.ncx".to_string()).is_none());
    assert_eq!(hrefs.get(&"Text/x.xhtml".to_string()).unwrap(), &a);
}

#[test]
fn reveal_map_names_and_toc_path() {
    let m = collision_manifest();
    let (paths, _, toc) = build_decrypt_path_map(&m, "ncx", "OEBPS");
    assert_eq!(toc, Some("OEBPS/toc.ncx".to_string()));
    let a = paths.get(&"OEBPS/Text/x.xhtml".to_string()).unwrap();
    let b = paths.get(&"OEBPS/Text/y.xhtml".to_string()).unwrap();
    assert_eq!(a.0, "ch.xhtml");
    assert_eq!(b.0, "ch_1.xhtml");
    assert_eq!(a.1, FileCategory::Text);
}

#[test]
fn manifest_insert_replaces_same_id() {
    let mut m = Manifest::new();
    m.insert(item("a", "1.xhtml", "application/xhtml+xml"));
    m.insert(item("b", "2.xhtml", "application/xhtml+xml"));
    m.insert(item("a", "3.xhtml", "application/xhtml+xml"));
    assert_eq!(m.len(), 2);
    assert_eq!(m.get("a").unwrap().href, "3.xhtml");
    assert_eq!(m.items()[0].id, "a");
    assert!(m.contains_key("b"));
    assert!(!m.contains_key("c"));
}

#[test]
fn resolve_walks_every_segment() {
    assert_eq!(resolve_book_path("a/../b.png", "OEBPS/Text/ch1.xhtml"), "OEBPS/Text/b.png");
    assert_eq!(resolve_book_path("x/./y/../z.css", "OEBPS/ch1.xhtml"), "OEBPS/x/z.css");
    assert_eq!(resolve_book_path("a/..", "x.css"), "");
}

#[test]
fn untouched_url_arguments_keep_their_spacing() {
    let path_map = PathMap::new();
    assert_eq!(rewrite_css("url( a )", "x.css", &path_map), "url( a )");
    let xhtml = r#"<p style="background:url( http://a )">x</p>"#;
    assert_eq!(rewrite_xhtml(xhtml, "OEBPS/Text/c.xhtml", &path_map), xhtml);
}
