use markforge::import::{
    collapse_blank_lines, doc_kind, ext_lowercase, heading_level, is_imported_doc,
    is_supported_doc, push_markdown_table, styled_run, truncate_converted, DocKind,
    IMPORT_MAX_BYTES, TRUNCATION_NOTE,
};

#[test]
fn ext_lowercase_normalizes() {
    assert_eq!(ext_lowercase("A.PDF").as_deref(), Some("pdf"));
    assert_eq!(ext_lowercase("a.Md").as_deref(), Some("md"));
    assert_eq!(ext_lowercase("noext"), None);
}

#[test]
fn truncate_converted_passes_short_text() {
    let s = "small document".to_string();
    assert_eq!(truncate_converted(s.clone()), s);
}

#[test]
fn truncate_converted_caps_and_notes_long_text() {
    let big = "a".repeat(IMPORT_MAX_BYTES + 5_000);
    let out = truncate_converted(big);
    assert!(out.len() < IMPORT_MAX_BYTES + 200);
    assert!(out.contains("truncated"));
}

#[test]
fn truncate_converted_respects_char_boundaries() {
    // multi-byte chars right at the cap must not panic or split mid-codepoint.
    let big = "가".repeat(IMPORT_MAX_BYTES); // 3 bytes each
    let out = truncate_converted(big);
    assert!(out.contains("truncated"));
}

#[test]
fn styled_run_wraps_emphasis() {
    assert_eq!(styled_run("hi", true, false), "**hi** ");
    assert_eq!(styled_run("hi", false, true), "*hi* ");
    assert_eq!(styled_run("hi", true, true), "***hi*** ");
    assert_eq!(styled_run("hi", false, false), "hi");
    assert_eq!(styled_run("   ", true, true), "   "); // blank passes through
}

#[test]
fn markdown_table_has_header_separator_and_escapes_pipes() {
    let mut out = String::new();
    push_markdown_table(&mut out, &vec![vec!["a".into(), "b|c".into()], vec!["1".into()]]);
    let lines: Vec<&str> = out.lines().collect();
    assert_eq!(lines[0], "| a | b\\|c |"); // pipe escaped, padded to 2 cols
    assert_eq!(lines[1], "| --- | --- |"); // separator after header row
    assert_eq!(lines[2], "| 1 |  |"); // missing cell rendered empty
}

#[test]
fn supported_extensions_accepted() {
    for p in [
        "a.md", "a.markdown", "a.txt", "a.json", "a.rs", "a.tsx", "a.yaml", "a.toml", "a.docx",
        "a.hwpx", "a.pdf",
    ] {
        assert!(is_supported_doc(p), "{p} should be supported");
    }
}

#[test]
fn supported_is_case_insensitive() {
    assert!(is_supported_doc("README.MD"));
    assert!(is_supported_doc("deck.PDF"));
}

#[test]
fn unsupported_extensions_rejected() {
    for p in ["a.exe", "a.png", "a.zip", "noext", "a.docxx"] {
        assert!(!is_supported_doc(p), "{p} should be unsupported");
    }
}

#[test]
fn imported_are_converter_formats_only() {
    for p in ["a.docx", "a.hwpx", "a.pdf", "DECK.PDF"] {
        assert!(is_imported_doc(p), "{p} converts");
    }
    for p in ["a.md", "a.json", "a.txt"] {
        assert!(!is_imported_doc(p), "{p} is read directly");
    }
}

#[test]
fn collapse_blank_lines_caps_at_one_blank() {
    assert_eq!(collapse_blank_lines("a\n\n\n\nb"), "a\n\nb");
    assert_eq!(collapse_blank_lines("a\nb"), "a\nb");
    assert_eq!(collapse_blank_lines("a\n\nb"), "a\n\nb");
}

// ---------------------------------------------------------------- more cases

#[test]
fn truncation_keeps_exact_prefix_and_note() {
    let big = "ab".repeat(IMPORT_MAX_BYTES);
    let out = truncate_converted(big.clone());
    assert_eq!(out, format!("{}{}", &big[..IMPORT_MAX_BYTES], TRUNCATION_NOTE));
}

#[test]
fn truncation_cuts_before_a_split_character() {
    // 3-byte characters: the cap falls inside one, which is left out whole.
    let big = "가".repeat(IMPORT_MAX_BYTES);
    let out = truncate_converted(big);
    let kept = out.strip_suffix(TRUNCATION_NOTE).expect("note at the end");
    assert_eq!(kept.len(), IMPORT_MAX_BYTES - IMPORT_MAX_BYTES % 3);
    assert!(kept.chars().all(|c| c == '가'));
}

#[test]
fn text_exactly_at_the_cap_is_untouched() {
    let s = "x".repeat(IMPORT_MAX_BYTES);
    assert_eq!(truncate_converted(s.clone()), s);
}

#[test]
fn collapsing_twice_changes_nothing() {
    let once = collapse_blank_lines("a\n\n\n\n\nb\n\n\nc\n");
    assert_eq!(once, "a\n\nb\n\nc\n");
    assert_eq!(collapse_blank_lines(&once), once);
    assert!(!once.contains("\n\n\n"));
}

#[test]
fn collapse_keeps_leading_breaks_to_two() {
    assert_eq!(collapse_blank_lines("\n\n\n\nx"), "\n\nx");
    assert_eq!(collapse_blank_lines(""), "");
}

#[test]
fn doc_kinds_follow_extension() {
    assert_eq!(doc_kind("a.DOCX"), DocKind::Docx);
    assert_eq!(doc_kind("b.hwpx"), DocKind::Hwpx);
    assert_eq!(doc_kind("c.Pdf"), DocKind::Pdf);
    assert_eq!(doc_kind("d.md"), DocKind::Text);
    assert_eq!(doc_kind("noext"), DocKind::Text);
}

#[test]
fn heading_levels_from_style_names() {
    assert_eq!(heading_level("Heading1"), 1);
    assert_eq!(heading_level("heading 3"), 3);
    assert_eq!(heading_level("Title"), 1);
    assert_eq!(heading_level("Heading9"), 0);
    assert_eq!(heading_level("TITLE"), 1);
    assert_eq!(heading_level("Normal"), 0);
}

#[test]
fn extension_of_hidden_and_dotted_names() {
    assert_eq!(ext_lowercase(".hidden"), None);
    assert_eq!(ext_lowercase("archive.tar.GZ").as_deref(), Some("gz"));
    assert!(!is_supported_doc("a."));
}

#[test]
fn imported_documents_are_supported() {
    for p in ["x.docx", "Y.HWPX", "z.pdf", "w.md", "noext"] {
        assert!(!is_imported_doc(p) || is_supported_doc(p));
    }
}

#[test]
fn styled_run_keeps_spaces_around_text() {
    assert_eq!(styled_run(" hi ", true, false), "**hi** ");
    assert_eq!(styled_run("", true, true), "");
}

#[test]
fn table_without_rows_is_empty_and_single_row_gets_separator() {
    let mut out = String::from("x");
    push_markdown_table(&mut out, &vec![]);
    assert_eq!(out, "x");
    let mut out = String::new();
    push_markdown_table(&mut out, &vec![vec!["h".into()]]);
    assert_eq!(out, "| h |\n| --- |\n\n");
}
