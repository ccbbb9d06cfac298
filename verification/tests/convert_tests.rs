use std::io::Write;

use markforge::archive::{docx_archive_to_markdown, hwpx_archive_to_markdown, NO_SECTIONS};
use markforge::docx::docx_xml_to_markdown;
use markforge::hwpx::{hwpx_section_names, hwpx_section_to_text};

fn zip_of(members: &[(&str, &str)]) -> Vec<u8> {
    let mut w = zip::ZipWriter::new(std::io::Cursor::new(Vec::new()));
    let opts = zip::write::SimpleFileOptions::default().compression_method(zip::CompressionMethod::Stored);
    for (name, body) in members {
        w.start_file(*name, opts).unwrap();
        w.write_all(body.as_bytes()).unwrap();
    }
    w.finish().unwrap().into_inner()
}

#[test]
fn docx_headings_and_runs() {
    let xml = r#"<w:document><w:body><w:p><w:pPr><w:pStyle w:val="Heading1"/></w:pPr><w:r><w:t>Intro</w:t></w:r></w:p><w:p><w:r><w:rPr><w:b/></w:rPr><w:t>Bold</w:t></w:r><w:r><w:t> plain &amp; more</w:t></w:r></w:p></w:body></w:document>"#;
    // quick-xml reports `&amp;` as a reference event of its own, which the
    // converter does not take as run text.
    assert_eq!(docx_xml_to_markdown(xml), "# Intro\n\n**Bold**  plain  more\n\n");
}

#[test]
fn docx_lists_and_tables() {
    let xml = r#"<w:body><w:p><w:pPr><w:numPr/></w:pPr><w:r><w:t>one</w:t></w:r></w:p><w:p><w:pPr><w:numPr/></w:pPr><w:r><w:t>two</w:t></w:r></w:p><w:p><w:r><w:t>after</w:t></w:r></w:p><w:tbl><w:tr><w:tc><w:p><w:r><w:t>a</w:t></w:r></w:p></w:tc><w:tc><w:p><w:r><w:t>b|c</w:t></w:r></w:p></w:tc></w:tr><w:tr><w:tc><w:p><w:r><w:t>1</w:t></w:r></w:p></w:tc></w:tr></w:tbl></w:body>"#;
    assert_eq!(
        docx_xml_to_markdown(xml),
        "- one\n- two\n\nafter\n\n| a | b\\|c |\n| --- | --- |\n| 1 |  |\n\n"
    );
}

#[test]
fn docx_breaks_tabs_and_italic() {
    let xml = r#"<w:p><w:r><w:rPr><w:i/></w:rPr><w:t>x</w:t><w:br/><w:t>y</w:t></w:r><w:r><w:tab/><w:t>z</w:t></w:r></w:p>"#;
    assert_eq!(docx_xml_to_markdown(xml), "*x\ny* \tz\n\n");
}

#[test]
fn hwpx_paragraph_text() {
    let mut out = String::new();
    hwpx_section_to_text(
        "<hs:sec><hp:p><hp:run><hp:t>Hello</hp:t></hp:run></hp:p><hp:p><hp:t> </hp:t></hp:p><hp:p><hp:t>World</hp:t><hp:x>skip</hp:x></hp:p></hs:sec>",
        &mut out,
    );
    assert_eq!(out, "Hello\n\nWorld\n\n");
}

#[test]
fn hwpx_sections_in_name_order() {
    let names = vec![
        "Contents/section1.xml".to_string(),
        "Contents/header.xml".to_string(),
        "Contents/section0.xml".to_string(),
        "mimetype".to_string(),
    ];
    assert_eq!(
        hwpx_section_names(names).unwrap(),
        vec!["Contents/section0.xml".to_string(), "Contents/section1.xml".to_string()]
    );
    assert!(hwpx_section_names(vec!["a.xml".to_string()]).is_none());
}

#[test]
fn docx_archive_reads_the_body() {
    let bytes = zip_of(&[("word/document.xml", "<w:p><w:r><w:t>Hi</w:t></w:r></w:p>")]);
    assert_eq!(docx_archive_to_markdown(&bytes).unwrap(), "Hi\n\n");
    let bytes = zip_of(&[("other.xml", "<x/>")]);
    assert!(docx_archive_to_markdown(&bytes).is_err());
    assert!(docx_archive_to_markdown(b"not a zip").is_err());
}

#[test]
fn hwpx_archive_reads_sections_in_order() {
    let bytes = zip_of(&[
        ("Contents/section1.xml", "<hp:p><hp:t>second</hp:t></hp:p>"),
        ("Contents/section0.xml", "<hp:p><hp:t>first</hp:t></hp:p>"),
        ("Contents/content.hpf", "x"),
    ]);
    assert_eq!(hwpx_archive_to_markdown(&bytes).unwrap(), "first\n\nsecond\n\n");
    let bytes = zip_of(&[("mimetype", "application/hwp+zip")]);
    assert_eq!(hwpx_archive_to_markdown(&bytes).unwrap_err(), NO_SECTIONS);
    assert!(hwpx_archive_to_markdown(b"").is_err());
}
