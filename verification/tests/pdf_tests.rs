use markforge::pdf::{
    content_span, crop_rgba, ink_counts, page_file, page_png, page_png_path, pages_markdown,
    pages_to_show, MAX_PAGES,
};

#[test]
fn span_covers_the_main_block() {
    // lines 2..5 inked, a gap of 1 bridged, line 6 inked
    let ink = [0, 0, 9, 9, 9, 0, 9, 0, 0, 0];
    assert_eq!(content_span(&ink, 3, 1), Some((2, 7)));
    // with no gap allowed the blocks split but both are dense enough
    assert_eq!(content_span(&ink, 3, 0), Some((2, 7)));
}

#[test]
fn light_blocks_are_strays() {
    // a dense block and a faint footer line far below it
    let mut ink = vec![0u32; 100];
    for v in ink.iter_mut().take(40).skip(10) {
        *v = 500;
    }
    ink[95] = 4;
    assert_eq!(content_span(&ink, 3, 6), Some((10, 40)));
}

#[test]
fn blank_axis_has_no_span() {
    assert_eq!(content_span(&[0, 1, 2], 3, 5), None);
    assert_eq!(content_span(&[], 3, 5), None);
}

#[test]
fn gap_bridging_joins_blocks() {
    let ink = [5, 0, 0, 5];
    assert_eq!(content_span(&ink, 1, 2), Some((0, 4)));
    assert_eq!(content_span(&ink, 1, 1), Some((0, 4)));
}

fn image(w: usize, h: usize, inked: &[(usize, usize)]) -> Vec<u8> {
    let mut buf = vec![255u8; w * h * 4];
    for &(x, y) in inked {
        let i = (y * w + x) * 4;
        buf[i] = 0;
        buf[i + 1] = 0;
        buf[i + 2] = 0;
    }
    buf
}

#[test]
fn ink_counts_per_row_and_column() {
    let buf = image(3, 2, &[(0, 0), (2, 0), (2, 1)]);
    let (cols, rows) = ink_counts(&buf, 3, 2);
    assert_eq!(cols, vec![1, 0, 2]);
    assert_eq!(rows, vec![2, 1]);
}

#[test]
fn transparent_and_near_white_pixels_are_blank() {
    let mut buf = image(2, 1, &[(0, 0)]);
    buf[3] = 7; // alpha too low
    buf[4] = 248;
    buf[5] = 250;
    buf[6] = 255; // near white
    let (cols, rows) = ink_counts(&buf, 2, 1);
    assert_eq!(cols, vec![0, 0]);
    assert_eq!(rows, vec![0]);
}

#[test]
fn crop_copies_the_region_rows() {
    let w = 4;
    let full: Vec<u8> = (0..(w * 3 * 4) as u32).map(|v| v as u8).collect();
    let out = crop_rgba(&full, w, 1, 1, 2, 2);
    let mut expected = Vec::new();
    expected.extend_from_slice(&full[(w + 1) * 4..(w + 3) * 4]);
    expected.extend_from_slice(&full[(2 * w + 1) * 4..(2 * w + 3) * 4]);
    assert_eq!(out, expected);
    assert!(crop_rgba(&full, w, 0, 0, 0, 3).is_empty());
}

#[test]
fn page_names_are_zero_padded() {
    assert_eq!(page_file(1), "page-001.png");
    assert_eq!(page_file(42), "page-042.png");
    assert_eq!(page_file(100), "page-100.png");
    assert_eq!(page_png_path("/tmp/c", 7), "/tmp/c/page-007.png");
}

#[test]
fn page_counts() {
    assert!(pages_to_show(0).is_err());
    assert_eq!(pages_to_show(0).unwrap_err(), "PDF has no pages");
    assert_eq!(pages_to_show(3), Ok(3));
    assert_eq!(pages_to_show(500), Ok(MAX_PAGES));
}

#[test]
fn pages_markdown_lists_images_and_notes_the_cut() {
    assert_eq!(
        pages_markdown("/c", 2, 2),
        "![Page 1](/c/page-001.png)\n\n![Page 2](/c/page-002.png)\n\n"
    );
    assert_eq!(
        pages_markdown("/c", 1, 90),
        "![Page 1](/c/page-001.png)\n\n> ⚠️ *Showing the first 1 of 90 pages.*\n"
    );
}

#[test]
fn png_encoding_round_trips_the_signature() {
    let bytes = page_png(2, 1, &[0, 0, 0, 255, 255, 255, 255, 255]).unwrap();
    assert_eq!(&bytes[..8], b"\x89PNG\r\n\x1a\n");
    assert!(page_png(2, 2, &[0; 4]).is_err());
    assert!(page_png(0, 0, &[]).is_err());
}
