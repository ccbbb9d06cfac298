use markforge::notes::{
    export_error_message, note_dir_name, note_markdown, parse_folder_names, sanitize,
    sanitize_title, split3, strip_inline_images, unique_stem, NoteExport, RecordReader,
    RecordStep, DENIED_MESSAGE, FIELD, RECORD,
};
use markforge::search::find;

#[test]
fn find_locates_needle() {
    assert_eq!(find(b"hello world", b"world"), Some(6));
    assert_eq!(find(b"abc", b"xyz"), None);
}

#[test]
fn split3_extracts_folder_title_body() {
    let rec = [
        b"Work".as_slice(),
        FIELD.as_bytes(),
        b"My Note".as_slice(),
        FIELD.as_bytes(),
        b"Body text".as_slice(),
    ]
    .concat();
    let (folder, title, body) = split3(&rec).expect("three fields");
    assert_eq!(folder, "Work");
    assert_eq!(title, "My Note");
    assert_eq!(body, "Body text");
}

#[test]
fn split3_needs_two_delimiters() {
    let rec = [b"Work".as_slice(), FIELD.as_bytes(), b"Only one".as_slice()].concat();
    assert!(split3(&rec).is_none());
}

#[test]
fn strip_inline_images_drops_data_uris() {
    let html = r#"<img src="data:image/png;base64,AAAABBBB"> text"#;
    let out = strip_inline_images(html);
    assert!(!out.contains("AAAABBBB"), "base64 payload removed");
    assert!(out.contains("text"), "surrounding text kept");
}

#[test]
fn sanitize_replaces_separators_and_trims_dots() {
    assert_eq!(sanitize("a/b:c"), "a-b-c");
    assert_eq!(sanitize("...hidden"), "hidden");
    assert_eq!(sanitize("   "), "Untitled");
    assert_eq!(sanitize(""), "Untitled");
}

#[test]
fn sanitize_title_takes_first_line_capped() {
    assert_eq!(sanitize_title("Title here\nsecond line"), "Title here");
    assert_eq!(sanitize_title(&"x".repeat(200)).chars().count(), 80);
}

#[test]
fn unique_stem_disambiguates_collisions() {
    let mut used: Vec<String> = Vec::new();
    assert_eq!(unique_stem(&mut used, "note".into()), "note");
    assert_eq!(unique_stem(&mut used, "note".into()), "note-2");
    assert_eq!(unique_stem(&mut used, "note".into()), "note-3");
    assert_eq!(unique_stem(&mut used, String::new()), "Untitled");
}

// ---------------------------------------------------------------- more cases

#[test]
fn stripping_keeps_the_quote_and_drops_unterminated_payloads() {
    assert_eq!(
        strip_inline_images(r#"<img src="data:abc"><img src='data:x'>"#),
        r#"<img src=""><img src=''>"#
    );
    assert_eq!(strip_inline_images("a data:zzz"), "a ");
    assert_eq!(strip_inline_images("plain"), "plain");
    assert!(!strip_inline_images("x data: data:\" data:").contains("data:"));
}

#[test]
fn sanitize_replaces_backslash_and_controls() {
    assert_eq!(sanitize("a\\b\tc"), "a-b-c");
    assert_eq!(sanitize("  Notes  "), "Notes");
    // leading dots go even behind whitespace, so no name is `.` or `..`
    assert_eq!(sanitize(". .x"), "x");
    assert_eq!(sanitize(". .."), "Untitled");
    assert_eq!(sanitize(" ..  .. a.b. "), "a.b.");
}

#[test]
fn sanitize_title_of_blank_is_untitled_and_windows_lines_split() {
    assert_eq!(sanitize_title(""), "Untitled");
    assert_eq!(sanitize_title(".. .hidden title"), "hidden title");
    assert_eq!(sanitize_title("  Plan: v2  \r\nrest"), "Plan- v2");
}

#[test]
fn unique_stem_never_reuses_a_stem() {
    let mut used: Vec<String> = vec!["a".into(), "a-2".into(), "a-4".into()];
    assert_eq!(unique_stem(&mut used, "a".into()), "a-3");
    assert_eq!(unique_stem(&mut used, "a".into()), "a-5");
    assert_eq!(unique_stem(&mut used, "b".into()), "b");
    assert_eq!(used.len(), 6);
}

#[test]
fn split3_keeps_later_delimiters_in_the_body() {
    let rec = ["F", FIELD, "T", FIELD, "B", FIELD, "C"].concat();
    let (f, t, b) = split3(rec.as_bytes()).unwrap();
    assert_eq!((f.as_str(), t.as_str()), ("F", "T"));
    assert_eq!(b, format!("B{FIELD}C"));
}

#[test]
fn split3_decodes_invalid_utf8_lossily() {
    let rec = [b"\xffW".as_slice(), FIELD.as_bytes(), b"t".as_slice(), FIELD.as_bytes()].concat();
    let (f, t, b) = split3(&rec).unwrap();
    assert_eq!(f, "\u{fffd}W");
    assert_eq!(t, "t");
    assert_eq!(b, "");
}

fn drain(reader: &mut RecordReader) -> (Vec<Vec<u8>>, bool) {
    let mut out = Vec::new();
    loop {
        match reader.next_record() {
            RecordStep::Record(r) => out.push(r),
            RecordStep::NeedInput => return (out, false),
            RecordStep::Done => return (out, true),
        }
    }
}

fn records_in_chunks(data: &[u8], size: usize) -> Vec<Vec<u8>> {
    let mut reader = RecordReader::new();
    let mut all = Vec::new();
    for chunk in data.chunks(size) {
        reader.supply(chunk);
        let (got, done) = drain(&mut reader);
        assert!(!done);
        all.extend(got);
    }
    reader.supply(&[]);
    let (got, done) = drain(&mut reader);
    assert!(done);
    all.extend(got);
    all
}

#[test]
fn record_reader_is_independent_of_chunking() {
    let data = ["one", RECORD, RECORD, "two", RECORD, "three", RECORD, "tail"].concat();
    let expected: Vec<Vec<u8>> = vec![b"one".to_vec(), b"two".to_vec(), b"three".to_vec()];
    for size in [1, 2, 5, 12, 13, 14, 64, 1000] {
        assert_eq!(records_in_chunks(data.as_bytes(), size), expected, "chunk size {size}");
    }
}

#[test]
fn record_reader_needs_input_then_finishes() {
    let mut reader = RecordReader::new();
    assert!(matches!(reader.next_record(), RecordStep::NeedInput));
    reader.supply(b"partial");
    assert!(matches!(reader.next_record(), RecordStep::NeedInput));
    reader.supply(&[]);
    assert!(matches!(reader.next_record(), RecordStep::Done));
}

#[test]
fn folder_names_are_trimmed_lines() {
    assert_eq!(parse_folder_names("Notes\n  Other  \n\n"), vec!["Notes", "Other"]);
    assert!(parse_folder_names("").is_empty());
}

#[test]
fn default_folder_maps_to_inbox() {
    let defaults = vec!["Notes".to_string()];
    assert_eq!(note_dir_name(&defaults, " Notes "), "_Inbox");
    assert_eq!(note_dir_name(&defaults, "Work/Q1"), "Work-Q1");
}

#[test]
fn export_errors_explain_denied_access() {
    assert_eq!(export_error_message("execution error: Not authorized (-1743)"), DENIED_MESSAGE);
    assert_eq!(export_error_message("osascript: not allowed"), DENIED_MESSAGE);
    assert_eq!(export_error_message("  boom \n"), "Notes export failed: boom");
}

#[test]
fn note_markdown_converts_html() {
    let md = note_markdown("<h1>Title</h1><p>Some <b>bold</b> text</p>");
    assert!(md.contains("Title"));
    assert!(md.contains("**bold**"));
    assert!(!md.contains("<p>"));
}

#[test]
fn export_plan_names_each_note_once() {
    let defaults = vec!["Notes".to_string()];
    let mut export = NoteExport::new();
    let rec = |f: &str, t: &str, b: &str| [f, FIELD, t, FIELD, b].concat();
    let a = export.plan(&defaults, rec("Notes", "Todo", "<p>x</p>").as_bytes()).unwrap();
    assert_eq!((a.dir.as_str(), a.file.as_str()), ("_Inbox", "Todo.md"));
    let b = export.plan(&defaults, rec("Notes", "Todo", "<p>y</p>").as_bytes()).unwrap();
    assert_eq!((b.dir.as_str(), b.stem.as_str(), b.file.as_str()), ("_Inbox", "Todo-2", "Todo-2.md"));
    let c = export.plan(&defaults, rec("Work", "Todo", "").as_bytes()).unwrap();
    assert_eq!((c.dir.as_str(), c.file.as_str()), ("Work", "Todo.md"));
    assert!(export.plan(&defaults, b"no fields here").is_none());
    let d = export.plan(&defaults, rec("Work", "", "").as_bytes()).unwrap();
    assert_eq!(d.file, "Untitled.md");
}

#[test]
fn stripping_leaves_plain_html_alone_and_cuts_at_the_quote() {
    assert_eq!(strip_inline_images("<p>plain</p>"), "<p>plain</p>");
    assert_eq!(strip_inline_images(r#"<img src="data:xyz">"#), r#"<img src="">"#);
    assert_eq!(strip_inline_images("a data:tail"), "a ");
}
