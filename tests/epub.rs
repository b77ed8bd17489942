use std::io::{Cursor, Read, Write};

use epub_core::container::parse_epub_bytes;
use epub_core::encrypt::build_encrypted_filename;
use epub_core::decrypt::build_decrypted_filename;
use epub_core::error::EpubError;
use epub_core::fallback::fallback_parse_opf;
use epub_core::mapping::build_path_map;
use epub_core::parser::{extract_opf_path, local_name, parse_opf};
use epub_core::text::percent_encoding_decode;
use epub_core::writer::{build_epub_bytes, EpubEntry, WriteOptions};
use epub_core::xml_utils::{
    cipher_uris, decode_xml_bytes, detect_encryption, parse_xml_safe, sanitize_xml_attr_text,
};

fn zip_of(files: &[(&str, &[u8])]) -> Vec<u8> {
    let mut writer = zip::ZipWriter::new(Cursor::new(Vec::new()));
    let opts = zip::write::SimpleFileOptions::default();
    for (name, data) in files {
        writer.start_file(*name, opts).unwrap();
        writer.write_all(data).unwrap();
    }
    writer.finish().unwrap().into_inner()
}

#[test]
fn test_extract_opf_path() {
    let xml = r#"<?xml version="1.0" encoding="UTF-8"?>
        <container version="1.0" xmlns="urn:oasis:names:tc:opendocument:xmlns:container">
          <rootfiles>
            <rootfile full-path="OEBPS/content.opf" media-type="application/oebps-package+xml"/>
          </rootfiles>
        </container>"#;
    let path = extract_opf_path(xml).unwrap();
    assert_eq!(path, "OEBPS/content.opf");
}

#[test]
fn test_extract_opf_path_no_dir() {
    let xml = r#"<?xml version="1.0"?>
        <container xmlns="urn:oasis:names:tc:opendocument:xmlns:container">
          <rootfiles>
            <rootfile full-path="content.opf" media-type="application/oebps-package+xml"/>
          </rootfiles>
        </container>"#;
    let path = extract_opf_path(xml).unwrap();
    assert_eq!(path, "content.opf");
}

const OPF: &str = r#"<?xml version="1.0" encoding="UTF-8"?>
        <package xmlns="http://www.idpf.org/2007/opf" version="3.0">
          <metadata xmlns:dc="http://purl.org/dc/elements/1.1/">
            <dc:title>Test Book</dc:title>
            <dc:creator>Author Name</dc:creator>
            <dc:language>zh</dc:language>
          </metadata>
          <manifest>
            <item id="ch1" href="Text/ch1.xhtml" media-type="application/xhtml+xml"/>
            <item id="style" href="Styles/main.css" media-type="text/css"/>
            <item id="cover" href="Images/cover.jpg" media-type="image/jpeg"/>
          </manifest>
          <spine>
            <itemref idref="ch1"/>
          </spine>
        </package>"#;

#[test]
fn test_parse_opf_metadata() {
    let (meta, manifest, spine) = parse_opf(OPF).unwrap();
    assert_eq!(meta.title.as_deref(), Some("Test Book"));
    assert_eq!(meta.creator.as_deref(), Some("Author Name"));
    assert_eq!(meta.language.as_deref(), Some("zh"));
    assert_eq!(meta.version, "3.0");
    assert_eq!(manifest.len(), 3);
    assert_eq!(manifest.get("ch1").unwrap().href, "Text/ch1.xhtml");
    assert_eq!(manifest.get("style").unwrap().media_type, "text/css");
    assert_eq!(spine.len(), 1);
    assert_eq!(spine[0].idref, "ch1");
}

#[test]
fn test_local_name() {
    assert_eq!(local_name(b"dc:title"), b"title");
    assert_eq!(local_name(b"package"), b"package");
    assert_eq!(local_name(b"opf:package"), b"package");
}

#[test]
fn test_build_epub_bytes_mimetype_first() {
    let entries = vec![
        EpubEntry {
            path: "META-INF/container.xml".into(),
            data: b"<container/>".to_vec(),
        },
        EpubEntry {
            path: "OEBPS/content.opf".into(),
            data: b"<package/>".to_vec(),
        },
    ];

    let bytes = build_epub_bytes(&entries, &WriteOptions::default()).unwrap();

    let cursor = std::io::Cursor::new(bytes.as_slice());
    let mut archive = zip::ZipArchive::new(cursor).unwrap();
    assert_eq!(archive.by_index(0).unwrap().name(), "mimetype");

    {
        let mut mimetype = archive.by_name("mimetype").unwrap();
        let mut content = String::new();
        std::io::Read::read_to_string(&mut mimetype, &mut content).unwrap();
        assert_eq!(content, "application/epub+zip");
    }

    assert!(archive.by_name("META-INF/container.xml").is_ok());
    assert!(archive.by_name("OEBPS/content.opf").is_ok());
}

#[test]
fn test_mimetype_not_duplicated() {
    let entries = vec![
        EpubEntry {
            path: "mimetype".into(),
            data: b"application/epub+zip".to_vec(),
        },
        EpubEntry {
            path: "OEBPS/content.opf".into(),
            data: b"<package/>".to_vec(),
        },
    ];

    let bytes = build_epub_bytes(&entries, &WriteOptions::default()).unwrap();
    let cursor = std::io::Cursor::new(bytes.as_slice());
    let archive = zip::ZipArchive::new(cursor).unwrap();
    assert_eq!(archive.len(), 2);
}

#[test]
fn mimetype_is_stored_and_others_deflated() {
    let entries = vec![EpubEntry {
        path: "OEBPS/a.xhtml".into(),
        data: vec![b'a'; 2000],
    }];
    let bytes = build_epub_bytes(&entries, &WriteOptions::default()).unwrap();
    let mut archive = zip::ZipArchive::new(Cursor::new(bytes.as_slice())).unwrap();
    assert_eq!(
        archive.by_index(0).unwrap().compression(),
        zip::CompressionMethod::Stored
    );
    let mut f = archive.by_index(1).unwrap();
    assert_eq!(f.compression(), zip::CompressionMethod::Deflated);
    let mut data = Vec::new();
    f.read_to_end(&mut data).unwrap();
    assert_eq!(data, vec![b'a'; 2000]);
}

#[test]
fn test_decode_xml_bytes_utf8() {
    let s = "Hello 你好";
    assert_eq!(decode_xml_bytes(s.as_bytes()), "Hello 你好");
}

#[test]
fn test_decode_xml_bytes_with_bom() {
    let mut data = vec![0xEF, 0xBB, 0xBF];
    data.extend_from_slice("Hello".as_bytes());
    assert_eq!(decode_xml_bytes(&data), "Hello");
}

#[test]
fn test_decode_xml_bytes_strips_control_chars() {
    let data = b"Hello\x01World".to_vec();
    assert_eq!(decode_xml_bytes(&data), "HelloWorld");
}

#[test]
fn decode_gb18030_utf16_and_latin1() {
    assert_eq!(decode_xml_bytes(&[0xC4, 0xE3, 0xBA, 0xC3]), "你好");
    assert_eq!(decode_xml_bytes(&[0xFF, 0xFE, 0x48, 0x00, 0x69, 0x00]), "Hi");
    assert_eq!(decode_xml_bytes(&[0xFE, 0xFF, 0x00, 0x48, 0x00, 0x69]), "Hi");
    assert_eq!(decode_xml_bytes(&[0x41, 0xFF]), "A\u{ff}");
    assert_eq!(decode_xml_bytes(b"a\x00b\x0bc\td\ne\x1f"), "abc\td\ne");
}

#[test]
fn test_sanitize_attr_value_bare_angle_brackets() {
    let xml = r#"<item href="file<1>.xhtml" media-type="text/xml"/>"#;
    let sanitized = sanitize_xml_attr_text(xml);
    assert!(sanitized.contains("&lt;"));
    assert!(sanitized.contains("&gt;"));
    assert!(!sanitized.contains("file<1>"));
}

#[test]
fn test_sanitize_attr_value_no_change_needed() {
    let xml = r#"<item href="file.xhtml" media-type="text/xml"/>"#;
    let sanitized = sanitize_xml_attr_text(xml);
    assert_eq!(sanitized, xml);
}

#[test]
fn sanitize_single_quotes_and_text_outside_tags() {
    assert_eq!(
        sanitize_xml_attr_text("<a b = 'x<y'>1 > 0</a>"),
        "<a b = 'x&lt;y'>1 > 0</a>"
    );
}

#[test]
fn parse_xml_safe_repairs_or_fails() {
    let good = "<a b=\"c\"/>";
    assert_eq!(parse_xml_safe(good).unwrap(), good);
    let text = parse_xml_safe("<a b=\"x<y\"/>").unwrap();
    assert!(text == "<a b=\"x<y\"/>" || text == "<a b=\"x&lt;y\"/>");
    assert!(matches!(parse_xml_safe("<a><b></a>"), Err(EpubError::Xml(_))));
}

#[test]
fn test_fallback_parse_opf_basic() {
    let opf = r#"<?xml version="1.0" encoding="UTF-8"?>
        <package version="3.0" xmlns="http://www.idpf.org/2007/opf">
          <metadata xmlns:dc="http://purl.org/dc/elements/1.1/">
            <dc:title>Test Book</dc:title>
            <dc:creator>Author</dc:creator>
          </metadata>
          <manifest>
            <item id="ch1" href="Text/ch1.xhtml" media-type="application/xhtml+xml"/>
            <item id="style" href="Styles/main.css" media-type="text/css"/>
          </manifest>
          <spine>
            <itemref idref="ch1"/>
          </spine>
        </package>"#;

    let (meta, manifest, spine) = fallback_parse_opf(opf).unwrap();
    assert_eq!(meta.title.as_deref(), Some("Test Book"));
    assert_eq!(meta.creator.as_deref(), Some("Author"));
    assert_eq!(meta.version, "3.0");
    assert_eq!(manifest.len(), 2);
    assert!(manifest.contains_key("ch1"));
    assert!(manifest.contains_key("style"));
    assert_eq!(spine.len(), 1);
    assert_eq!(spine[0].idref, "ch1");
}

#[test]
fn fallback_reads_broken_markup() {
    let opf = "<PACKAGE version='2.0'><metadata><title>  A < B </title></metadata>\
        <manifest><item id=\"x\" href=\"Text/a%20b.xhtml\" media-type=\"application/xhtml+xml\">\
        <item id='y' href='y.css'/><itemref idref='z'/></manifest>\
        <spine toc=\"ncx\"><itemref idref=\"x\" linear=\"no\"/><item id=\"q\"/></spine>";
    let (meta, manifest, spine) = fallback_parse_opf(opf).unwrap();
    assert_eq!(meta.title.as_deref(), Some("A < B"));
    assert_eq!(meta.version, "2.0");
    assert_eq!(manifest.len(), 2);
    assert_eq!(manifest.get("x").unwrap().href, "Text/a b.xhtml");
    assert_eq!(manifest.get("y").unwrap().media_type, "");
    assert_eq!(spine.len(), 1);
    assert_eq!(spine[0].linear.as_deref(), Some("no"));
}

#[test]
fn fallback_defaults_version() {
    let (meta, manifest, spine) = fallback_parse_opf("not xml at all").unwrap();
    assert_eq!(meta.version, "2.0");
    assert_eq!(meta.title, None);
    assert_eq!(manifest.len(), 0);
    assert!(spine.is_empty());
}

#[test]
fn test_encryption_detection_no_file() {
    let data = zip_of(&[("mimetype", b"application/epub+zip")]);
    let info = detect_encryption(&data);
    assert!(!info.has_encryption);
    assert!(!info.encrypted_text_or_css);
}

const ENCRYPTION_XML: &[u8] = br#"<?xml version="1.0" encoding="UTF-8"?>
            <encryption xmlns="urn:oasis:names:tc:opendocument:xmlns:container">
              <EncryptedData>
                <CipherData>
                  <CipherReference URI="Text/chapter1.xhtml"/>
                </CipherData>
              </EncryptedData>
              <EncryptedData>
                <CipherData>
                  <CipherReference URI="Styles/style.css"/>
                </CipherData>
              </EncryptedData>
            </encryption>"#;

#[test]
fn test_encryption_detection_with_encrypted_resources() {
    let data = zip_of(&[
        ("mimetype", b"application/epub+zip"),
        ("META-INF/encryption.xml", ENCRYPTION_XML),
    ]);
    let info = detect_encryption(&data);
    assert!(info.has_encryption);
    assert!(info.encrypted_text_or_css);
    assert_eq!(info.encrypted_count, 2);
}

#[test]
fn encryption_of_fonts_only_does_not_block() {
    let xml = "<cipherreference uri = 'Fonts/a.otf'/><CipherReference URI=\"\"/>";
    assert_eq!(cipher_uris(xml), vec!["Fonts/a.otf".to_string()]);
    let data = zip_of(&[("META-INF/encryption.xml", xml.as_bytes())]);
    let info = detect_encryption(&data);
    assert!(info.has_encryption);
    assert!(!info.encrypted_text_or_css);
    assert_eq!(info.sample_uris, vec!["Fonts/a.otf".to_string()]);
}

#[test]
fn test_percent_decode() {
    assert_eq!(percent_encoding_decode("hello%20world%21"), "hello world!");
    assert_eq!(percent_encoding_decode("no_encoding"), "no_encoding");
}

#[test]
fn percent_decode_utf8_and_invalid() {
    assert_eq!(percent_encoding_decode("caf%C3%A9"), "café");
    assert_eq!(percent_encoding_decode("%FF"), "%FF");
    assert_eq!(percent_encoding_decode("100%"), "100%");
    assert_eq!(percent_encoding_decode("%4a%4A"), "JJ");
}

const CONTAINER: &[u8] = br#"<?xml version="1.0"?><container><rootfiles><rootfile full-path="OEBPS/content.opf"/></rootfiles></container>"#;

#[test]
fn parse_whole_epub() {
    let data = zip_of(&[
        ("mimetype", b"application/epub+zip"),
        ("META-INF/container.xml", CONTAINER),
        ("OEBPS/content.opf", OPF.as_bytes()),
    ]);
    let epub = parse_epub_bytes(data.clone()).unwrap();
    assert_eq!(epub.opf_path, "OEBPS/content.opf");
    assert_eq!(epub.opf_dir, "OEBPS");
    assert_eq!(epub.metadata.title.as_deref(), Some("Test Book"));
    assert_eq!(epub.manifest.len(), 3);
    assert!(!epub.opf_fallback_used);
    assert!(!epub.encryption.has_encryption);
    assert_eq!(epub.zip_data, data);
    assert_eq!(epub.read_zip_text("mimetype").unwrap(), "application/epub+zip");
    assert!(matches!(epub.read_zip_file("nope"), Err(EpubError::Zip(_))));
}

#[test]
fn parse_epub_with_broken_opf_uses_fallback() {
    let opf = "<package version=\"3.0\"><manifest><item id=\"a\" href=\"a.xhtml\" media-type=\"application/xhtml+xml\"/></manifest><spine><itemref idref=\"a\"/></spine>";
    let data = zip_of(&[
        ("META-INF/container.xml", CONTAINER),
        ("OEBPS/content.opf", (opf.to_string() + "</wrong>").as_bytes()),
    ]);
    let epub = parse_epub_bytes(data).unwrap();
    assert!(epub.opf_fallback_used);
    assert_eq!(epub.manifest.len(), 1);
    assert_eq!(epub.metadata.version, "3.0");
}

#[test]
fn parse_epub_errors() {
    assert!(matches!(parse_epub_bytes(b"not a zip".to_vec()), Err(EpubError::Zip(_))));
    let no_container = zip_of(&[("mimetype", b"application/epub+zip")]);
    assert!(matches!(parse_epub_bytes(no_container), Err(EpubError::Structure(_))));
    let no_rootfile = zip_of(&[("META-INF/container.xml", b"<container/>")]);
    assert!(matches!(parse_epub_bytes(no_rootfile), Err(EpubError::Structure(_))));
    let no_opf = zip_of(&[("META-INF/container.xml", CONTAINER)]);
    assert!(matches!(parse_epub_bytes(no_opf), Err(EpubError::Structure(_))));
}

#[test]
fn opf_path_errors() {
    assert!(matches!(extract_opf_path("<container></container>"), Err(EpubError::Structure(_))));
    assert!(matches!(extract_opf_path("<a></b>"), Err(EpubError::Xml(_))));
    assert!(matches!(parse_opf("<package><a></b></package>"), Err(EpubError::Xml(_))));
}

#[test]
fn error_messages() {
    assert_eq!(EpubError::Xml("bad".into()).message(), "XML error: bad");
    assert_eq!(EpubError::Structure("s".into()).message(), "EPUB structure error: s");
    assert_eq!(EpubError::Other("o".into()).message(), "o");
}

#[test]
fn end_to_end_chapter_names() {
    let opf = r#"<package version="3.0"><manifest><item id="chapter1.xhtml" href="Text/chapter1.xhtml" media-type="application/xhtml+xml"/></manifest></package>"#;
    let (_, manifest, _) = parse_opf(opf).unwrap();
    let (paths, _) = build_path_map(&manifest, "", "OEBPS");
    let (name, cat) = paths.get(&"OEBPS/Text/chapter1.xhtml".to_string()).unwrap().clone();
    assert_eq!(cat.dir_name(), "Text");
    assert_eq!(name.len(), 1 + 128 + 6);
    assert!(name.starts_with('_') && name.ends_with(".xhtml"));
    assert!(name[1..129].chars().all(|c| c == '*' || c == ':'));
    assert_eq!(name, build_encrypted_filename("chapter1.xhtml", "Text/chapter1.xhtml"));
    assert_eq!(build_decrypted_filename("chapter1.xhtml", "Text/chapter1.xhtml"), "chapter1.xhtml");
}

#[test]
fn items_written_with_end_tags_are_taken() {
    let opf = r#"<package version="3.0"><manifest><item id="a" href="a.xhtml" media-type="application/xhtml+xml"></item><item id="b" href="b.css" media-type="text/css"/></manifest><spine><itemref idref="a"></itemref></spine></package>"#;
    let (_, manifest, spine) = parse_opf(opf).unwrap();
    assert_eq!(manifest.len(), 2);
    assert_eq!(manifest.get("a").unwrap().href, "a.xhtml");
    assert_eq!(spine.len(), 1);
    assert_eq!(spine[0].idref, "a");
}

#[test]
fn first_title_is_kept() {
    let opf = r#"<package version="3.0"><metadata><dc:title>A</dc:title><dc:title>B</dc:title></metadata></package>"#;
    let (meta, _, _) = parse_opf(opf).unwrap();
    assert_eq!(meta.title.as_deref(), Some("A"));
}
