use papyrus_pdf::canvas::{Color, DisplayItem};
use papyrus_pdf::document::Document;
use papyrus_pdf::edit_model::EditError;
use papyrus_pdf::number::Real;
use papyrus_pdf::render_cache::{cache_key, RenderCache};
use papyrus_pdf::session::Session;

const HELVETICA: &str =
    "<< /Type /Font /Subtype /Type1 /BaseFont /Helvetica /Encoding /WinAnsiEncoding >>";

fn r(n: i64) -> Real {
    Real::from_int(n)
}

/// A file of objects with the numbers from 1 on; the first is the catalog.
fn build(objects: &[Vec<u8>]) -> Vec<u8> {
    let mut out = b"%PDF-1.7\n".to_vec();
    let mut offsets = Vec::new();
    for (i, body) in objects.iter().enumerate() {
        offsets.push(out.len());
        out.extend_from_slice(format!("{} 0 obj\n", i + 1).as_bytes());
        out.extend_from_slice(body);
        out.extend_from_slice(b"\nendobj\n");
    }
    let xref = out.len();
    out.extend_from_slice(format!("xref\n0 {}\n0000000000 65535 f \n", objects.len() + 1).as_bytes());
    for o in &offsets {
        out.extend_from_slice(format!("{o:010} 00000 n \n").as_bytes());
    }
    out.extend_from_slice(
        format!("trailer\n<< /Size {} /Root 1 0 R >>\nstartxref\n{xref}\n%%EOF", objects.len() + 1)
            .as_bytes(),
    );
    out
}

fn stream(dict: &str, data: &[u8]) -> Vec<u8> {
    let mut out = format!("<< {dict} /Length {} >>\nstream\n", data.len()).into_bytes();
    out.extend_from_slice(data);
    out.extend_from_slice(b"\nendstream");
    out
}

fn obj(text: &str) -> Vec<u8> {
    text.as_bytes().to_vec()
}

/// A document with pages that each say which they are.
fn multipage(count: usize) -> Vec<u8> {
    let kids: Vec<String> = (0..count).map(|i| format!("{} 0 R", 4 + 2 * i)).collect();
    let mut objects = vec![
        obj("<< /Type /Catalog /Pages 2 0 R >>"),
        obj(&format!(
            "<< /Type /Pages /Kids [{}] /Count {count} /MediaBox [0 0 612 792] >>",
            kids.join(" ")
        )),
        obj(HELVETICA),
    ];
    for i in 0..count {
        objects.push(obj(&format!(
            "<< /Type /Page /Parent 2 0 R /Resources << /Font << /F1 3 0 R >> >> /Contents {} 0 R >>",
            5 + 2 * i
        )));
        objects.push(stream(
            "",
            format!("BT /F1 24 Tf 72 720 Td (Page {} - Hello, PDF Manager!) Tj ET", i + 1).as_bytes(),
        ));
    }
    build(&objects)
}

/// A document with a form of one text field.
fn form_pdf() -> Vec<u8> {
    build(&[
        obj("<< /Type /Catalog /Pages 2 0 R /AcroForm << /Fields [5 0 R] >> >>"),
        obj("<< /Type /Pages /Kids [3 0 R] /Count 1 >>"),
        obj("<< /Type /Page /Parent 2 0 R /MediaBox [0 0 612 792] /Annots [5 0 R] /Contents 4 0 R >>"),
        stream("", b"0 0 1 1 re n"),
        obj("<< /Type /Annot /Subtype /Widget /FT /Tx /T (name_field) /V () /Rect [100 600 300 620] >>"),
    ])
}

/// A document with one page in a TrueType font of its own, whose letter A is glyph 36.
fn truetype_pdf() -> Vec<u8> {
    let mut head = vec![0u8; 54];
    head[1] = 1;
    head[12..16].copy_from_slice(&[0x5F, 0x0F, 0x3C, 0xF5]);
    head[18] = 4;
    let mut hhea = vec![0u8; 36];
    hhea[1] = 1;
    let maxp = vec![0, 0, 0x50, 0, 0, 100];
    let cmap = vec![0, 0, 0, 1, 0, 1, 0, 0, 0, 0, 0, 12, 0, 6, 0, 12, 0, 0, 0, 65, 0, 1, 0, 36];
    let tables = [(b"cmap", cmap), (b"head", head), (b"hhea", hhea), (b"maxp", maxp)];
    let mut font = vec![0, 1, 0, 0, 0, 4, 0, 0, 0, 0, 0, 0];
    let mut offset = 12 + 16 * tables.len() as u32;
    for (tag, data) in &tables {
        font.extend_from_slice(*tag);
        font.extend_from_slice(&[0; 4]);
        font.extend_from_slice(&offset.to_be_bytes());
        font.extend_from_slice(&(data.len() as u32).to_be_bytes());
        offset += data.len() as u32;
    }
    for (_, data) in &tables {
        font.extend_from_slice(data);
    }
    build(&[
        obj("<< /Type /Catalog /Pages 2 0 R >>"),
        obj("<< /Type /Pages /Kids [3 0 R] /Count 1 >>"),
        obj("<< /Type /Page /Parent 2 0 R /MediaBox [0 0 612 792] /Resources << /Font << /F 5 0 R >> >> /Contents 4 0 R >>"),
        stream("", b"BT /F 12 Tf 72 720 Td (A) Tj ET"),
        obj("<< /Type /Font /Subtype /TrueType /BaseFont /Own /FontDescriptor 6 0 R >>"),
        obj("<< /Type /FontDescriptor /FontFile2 7 0 R >>"),
        stream("", &font),
    ])
}

fn millionths(list: [i64; 4]) -> [i64; 4] {
    [list[0] * 1_000_000, list[1] * 1_000_000, list[2] * 1_000_000, list[3] * 1_000_000]
}

const BLACK: [i64; 3] = [0, 0, 0];
const WHITE: [i64; 3] = [1_000_000, 1_000_000, 1_000_000];
const YELLOW: [i64; 3] = [1_000_000, 1_000_000, 0];
const RED: [i64; 3] = [1_000_000, 0, 0];
/// A JPEG image of one gray, with 8 by 8 pixels to a block.
fn jpeg(width: u16, height: u16, components: u8) -> Vec<u8> {
    let mut out = vec![0xFF, 0xD8, 0xFF, 0xDB, 0, 67, 0];
    out.extend_from_slice(&[1; 64]);
    out.extend_from_slice(&[0xFF, 0xC0, 0, 8 + 3 * components, 8]);
    out.extend_from_slice(&height.to_be_bytes());
    out.extend_from_slice(&width.to_be_bytes());
    out.push(components);
    for c in 0..components {
        out.extend_from_slice(&[c + 1, 0x11, 0]);
    }
    for class in [0x00, 0x10] {
        out.extend_from_slice(&[0xFF, 0xC4, 0, 20, class, 1]);
        out.extend_from_slice(&[0; 16]);
    }
    out.extend_from_slice(&[0xFF, 0xDA, 0, 6 + 2 * components, components]);
    for c in 0..components {
        out.extend_from_slice(&[c + 1, 0]);
    }
    out.extend_from_slice(&[0, 63, 0]);
    let blocks = (width as usize + 7) / 8 * ((height as usize + 7) / 8) * components as usize;
    out.extend_from_slice(&vec![0; blocks / 4 + 1]);
    out.extend_from_slice(&[0xFF, 0xD9]);
    out
}

fn open(data: Vec<u8>) -> Session {
    Session::open(&data).unwrap()
}

#[test]
fn open_reports_page_count_and_starts_at_first_page() {
    let session = open(multipage(5));
    assert_eq!(session.page_count(), 5);
    assert_eq!(session.page_index(), 0);
}

#[test]
fn what_is_no_document_cannot_be_opened() {
    assert!(matches!(Session::open(b"nothing"), Err(EditError::Pdf(_))));
}

#[test]
fn navigation_clamps_at_document_bounds() {
    let mut session = open(multipage(5));
    session.prev_page();
    assert_eq!(session.page_index(), 0);
    for _ in 0..10 {
        session.next_page();
    }
    assert_eq!(session.page_index(), session.page_count() - 1);
    session.goto_page(2);
    assert_eq!(session.page_index(), 2);
    session.goto_page(999);
    assert_eq!(session.page_index(), 2);
}

#[test]
fn extract_current_page_text_follows_navigation() {
    let mut session = open(multipage(5));
    assert_eq!(session.extract_current_page_text().unwrap(), "Page 1 - Hello, PDF Manager!");
    session.goto_page(2);
    assert_eq!(session.extract_current_page_text().unwrap(), "Page 3 - Hello, PDF Manager!");
}

#[test]
fn find_pages_containing_is_case_insensitive_and_searches_every_page() {
    let session = open(multipage(5));
    assert_eq!(session.find_pages_containing("hello").unwrap(), vec![0, 1, 2, 3, 4]);
    assert_eq!(session.find_pages_containing("Page 3").unwrap(), vec![2]);
    assert_eq!(session.find_pages_containing("nonexistent").unwrap(), Vec::<usize>::new());
    assert_eq!(session.find_pages_containing("").unwrap(), Vec::<usize>::new());
}

#[test]
fn find_matches_on_current_page_locates_the_search_term() {
    let session = open(multipage(5));
    let matches = session.find_matches_on_current_page("hello").unwrap();
    assert_eq!(matches.len(), 1);
    assert!(matches[0].x0.is_below(&matches[0].x1));
    assert!(session.find_matches_on_current_page("nonexistent").unwrap().is_empty());
}

#[test]
fn repeated_renders_of_the_same_page_and_scale_reuse_the_cache() {
    let mut cache: RenderCache<u32> = RenderCache::new();
    cache.put(cache_key(0, &r(1)), 7);
    assert_eq!(cache.get(cache_key(0, &r(1))), Some(&7));
    assert_eq!(cache.get(cache_key(0, &r(2))), None);
    assert_eq!(cache.get(cache_key(1, &r(1))), None);
    // Scales are told apart by thousandths.
    assert_eq!(cache.get(cache_key(0, &Real::from_scaled(10004, 4))), Some(&7));
    assert_eq!(cache.get(cache_key(0, &Real::from_scaled(1001, 3))), None);
    for i in 1..=32 {
        cache.put(cache_key(i, &r(1)), i as u32);
    }
    assert_eq!(cache.get(cache_key(0, &r(1))), None);
    assert_eq!(cache.get(cache_key(32, &r(1))), Some(&32));
    cache.clear();
    assert_eq!(cache.get(cache_key(32, &r(1))), None);
}

#[test]
fn current_page_media_box_matches_the_fixture_page_size() {
    let session = open(multipage(5));
    assert_eq!(session.current_page_media_box().unwrap(), [0, 0, 612, 792]);
}

#[test]
fn outline_is_read_and_cached() {
    let mut objects = vec![
        obj("<< /Type /Catalog /Pages 2 0 R /Outlines 7 0 R >>"),
        obj("<< /Type /Pages /Kids [3 0 R 4 0 R 5 0 R 6 0 R] /Count 4 >>"),
    ];
    for _ in 0..4 {
        objects.push(obj("<< /Type /Page /Parent 2 0 R >>"));
    }
    objects.push(obj("<< /Type /Outlines /First 8 0 R /Last 11 0 R /Count 4 >>"));
    for i in 0..4 {
        let next = if i < 3 { format!("/Next {} 0 R", 9 + i) } else { String::new() };
        objects.push(obj(&format!("<< /Title (Section {}) /Dest [{} 0 R /Fit] {next} >>", i + 1, 3 + i)));
    }
    let session = open(build(&objects));
    let outline = session.outline().unwrap();
    assert_eq!(outline.len(), 4);
    assert_eq!(outline[2].title, "Section 3");
    assert_eq!(outline[2].page_index, Some(2));
    // A second call gives the same outline.
    let outline_again = session.outline().unwrap();
    assert_eq!(outline_again, outline);
}

#[test]
fn outline_is_empty_for_a_document_without_one() {
    assert!(open(multipage(5)).outline().unwrap().is_empty());
}

#[test]
fn selection_on_current_page_returns_the_requested_text_and_rects() {
    let session = open(multipage(5));
    let (text, rects) = session.selection_on_current_page(&(9..14)).unwrap();
    assert_eq!(text, "Hello");
    assert_eq!(rects.len(), 5);
    let (text, rects) = session.selection_on_current_page(&(20..99)).unwrap();
    assert_eq!(text, "Manager!");
    assert_eq!(rects.len(), 8);
    let (text, rects) = session.selection_on_current_page(&(99..200)).unwrap();
    assert_eq!((text.as_str(), rects.len()), ("", 0));
}

#[test]
fn char_index_at_on_current_page_hits_a_known_character() {
    let session = open(multipage(5));
    let (_, rects) = session.selection_on_current_page(&(0..1)).unwrap();
    let first_char_rect = &rects[0];
    let half = Real::from_scaled(5, 1);
    let center = (
        first_char_rect.x0.plus(&first_char_rect.x1).times(&half),
        first_char_rect.y0.plus(&first_char_rect.y1).times(&half),
    );
    assert_eq!(session.char_index_at_on_current_page(&center).unwrap(), Some(0));
    // Far to the right the last character is the nearest.
    assert_eq!(session.char_index_at_on_current_page(&(r(600), r(0))).unwrap(), Some(27));
}

#[test]
fn words_and_lines_around_a_character() {
    let data = build(&[
        obj("<< /Type /Catalog /Pages 2 0 R >>"),
        obj("<< /Type /Pages /Kids [3 0 R] /Count 1 >>"),
        obj("<< /Type /Page /Resources << /Font << /F1 5 0 R >> >> /Contents 4 0 R >>"),
        stream("", b"BT /F1 10 Tf 72 720 Td (one two) Tj 0 -20 Td (three) Tj ET"),
        obj(HELVETICA),
    ]);
    let session = open(data);
    assert_eq!(session.extract_current_page_text().unwrap(), "one two\nthree");
    assert_eq!(session.word_range_at_on_current_page(5).unwrap(), 4..7);
    assert_eq!(session.word_range_at_on_current_page(3).unwrap(), 0..3);
    assert_eq!(session.word_range_at_on_current_page(99).unwrap(), 8..13);
    assert_eq!(session.line_range_at_on_current_page(2).unwrap(), 0..7);
    assert_eq!(session.line_range_at_on_current_page(7).unwrap(), 0..7);
    assert_eq!(session.line_range_at_on_current_page(8).unwrap(), 8..13);
    // A break of lines has a character and no rectangle.
    let (text, rects) = session.selection_on_current_page(&(6..9)).unwrap();
    assert_eq!((text.as_str(), rects.len()), ("o\nt", 2));
}

#[test]
fn highlight_is_visible_in_render_before_any_save() {
    let mut session = open(multipage(5));
    let alpha_of_yellow = |session: &Session| {
        session.page_display(0).unwrap().1.items.iter().find_map(|item| match item {
            DisplayItem::Path { fill_color, fill_alpha, .. }
                if *fill_color == Color::Rgb(r(1), r(1), r(0)) =>
            {
                Some(fill_alpha.clone())
            }
            _ => None,
        })
    };
    assert_eq!(alpha_of_yellow(&session), None);
    session
        .add_highlight_on_current_page(millionths([100, 600, 300, 630]), YELLOW)
        .unwrap();
    assert_eq!(alpha_of_yellow(&session), Some(Real::from_scaled(4, 1)));
}

#[test]
fn undo_and_redo_refresh_the_render() {
    let mut session = open(multipage(5));
    assert!(!session.can_undo_edit());
    session
        .add_highlight_on_current_page(millionths([100, 600, 300, 630]), YELLOW)
        .unwrap();
    assert!(session.can_undo_edit());
    let paths = |session: &Session| {
        let (_, display) = session.page_display(0).unwrap();
        display.items.iter().filter(|i| matches!(i, DisplayItem::Path { .. })).count()
    };
    assert_eq!(paths(&session), 1);
    assert!(session.undo_edit().unwrap());
    assert_eq!(paths(&session), 0);
    assert!(session.can_redo_edit());
    assert!(session.redo_edit().unwrap());
    assert_eq!(paths(&session), 1);
    assert!(!session.redo_edit().unwrap());
}

#[test]
fn save_edits_in_place_persists_to_the_original_path() {
    let mut session = open(multipage(5));
    session
        .add_highlight_on_current_page(millionths([100, 600, 300, 630]), YELLOW)
        .unwrap();
    let reopened = Document::open(session.current_bytes().unwrap()).unwrap();
    let page = reopened.page(0).unwrap();
    assert_eq!(page.dict.get("Annots").and_then(|o| o.as_array()).map_or(0, |a| a.len()), 1);
}

#[test]
fn insert_blank_page_at_increases_page_count_and_refreshes_render() {
    let mut session = open(multipage(5));
    session.insert_blank_page_at(0).unwrap();
    assert_eq!(session.page_count(), 6);
    let (page, display) = session.page_display(0).unwrap();
    assert_eq!(display.items.len(), 0);
    assert_eq!(page.media_box, [0, 0, 612, 792]);
}

#[test]
fn insert_image_page_at_shows_the_image() {
    let mut session = open(multipage(1));
    session.insert_image_page_at(1, &jpeg(16, 8, 1)).unwrap();
    assert_eq!(session.page_count(), 2);
    assert_eq!(session.page_media_box(1).unwrap(), [0, 0, 16, 8]);
}

#[test]
fn delete_page_at_decreases_page_count_and_undo_restores_it() {
    let mut session = open(multipage(5));
    session.delete_page_at(2).unwrap();
    assert_eq!(session.page_count(), 4);
    assert!(session.undo_edit().unwrap());
    assert_eq!(session.page_count(), 5);
}

#[test]
fn the_page_that_is_looked_at_stays_within_the_document() {
    let mut session = open(multipage(2));
    session.goto_page(1);
    session.delete_page_at(0).unwrap();
    assert_eq!((session.page_index(), session.page_count()), (0, 1));
}

#[test]
fn move_page_reorders_pages() {
    let mut session = open(multipage(5));
    let before = session.extract_all_text().unwrap();
    session.move_page(0, 4).unwrap();
    let after = session.extract_all_text().unwrap();
    assert_ne!(before, after);
    assert_eq!(session.page_count(), 5);
}

#[test]
fn rotate_page_at_persists_after_save_and_reopen() {
    let mut session = open(multipage(5));
    session.rotate_page_at(0, 90).unwrap();
    let reopened = Document::open(session.current_bytes().unwrap()).unwrap();
    assert_eq!(reopened.page(0).unwrap().rotate, 90);
}

#[test]
fn merge_document_from_path_appends_all_pages_of_the_source() {
    let mut session = open(multipage(5));
    session.merge_document(&Document::open(truetype_pdf()).unwrap()).unwrap();
    assert_eq!(session.page_count(), 6);
    assert!(session.page_display(5).is_ok());
}

#[test]
fn extract_pages_to_file_produces_a_standalone_document() {
    let session = open(multipage(5));
    let extracted = Document::open(session.extract_pages(&[1, 3]).unwrap()).unwrap();
    assert_eq!(extracted.page_count().unwrap(), 2);
}

#[test]
fn annotations_on_current_page_lists_added_annotations_and_survives_removal() {
    let mut session = open(multipage(5));
    assert!(session.annotations_on_current_page().unwrap().is_empty());
    session
        .add_highlight_on_current_page(millionths([100, 600, 300, 630]), YELLOW)
        .unwrap();
    session.add_underline_on_current_page(millionths([100, 500, 300, 530]), RED).unwrap();
    let annots = session.annotations_on_current_page().unwrap();
    assert_eq!(annots.len(), 2);
    assert_eq!(annots[0].subtype, "Highlight");
    assert_eq!(annots[0].rect, [r(100), r(600), r(300), r(630)]);
    assert_eq!(annots[1].subtype, "Underline");
    session.remove_annotation_on_current_page(annots[0].index).unwrap();
    let after_removal = session.annotations_on_current_page().unwrap();
    assert_eq!(after_removal.len(), 1);
    assert_eq!(after_removal[0].subtype, "Underline");
    session.add_strikeout_on_current_page(millionths([1, 1, 2, 2]), RED).unwrap();
    session
        .add_free_text_on_current_page(millionths([1, 1, 90, 20]), "x", 9_000_000, BLACK)
        .unwrap();
    let all = session.annotations_on_current_page().unwrap();
    let kinds: Vec<&str> = all.iter().map(|a| a.subtype.as_str()).collect();
    assert_eq!(kinds, vec!["Underline", "StrikeOut", "FreeText"]);
}

#[test]
fn form_fields_on_current_page_lists_and_fills_field() {
    let mut session = open(form_pdf());
    let fields = session.form_fields_on_current_page().unwrap();
    assert_eq!(fields.len(), 1);
    assert_eq!(fields[0].name, "name_field");
    assert_eq!(fields[0].value, "");
    session.set_form_field_value_on_current_page("name_field", "Ada Lovelace").unwrap();
    let fields = session.form_fields_on_current_page().unwrap();
    assert_eq!(fields[0].value, "Ada Lovelace");
}

#[test]
fn replace_text_on_current_page_keeps_original_text_extractable() {
    let mut session = open(multipage(5));
    session
        .replace_text_on_current_page(
            millionths([72, 715, 400, 735]),
            "Titre remplace",
            18_000_000,
            BLACK,
            WHITE,
        )
        .unwrap();
    let text = session.extract_current_page_text().unwrap();
    assert!(text.contains("Page 1 - Hello, PDF Manager!"));
    assert!(text.contains("Titre remplace"));
}

#[test]
fn export_optimized_produces_a_reopenable_document_with_all_pages() {
    let mut session = open(multipage(5));
    session
        .add_highlight_on_current_page(millionths([100, 600, 300, 630]), YELLOW)
        .unwrap();
    let optimized = session.export_optimized().unwrap();
    let reopened = Document::open(optimized).unwrap();
    assert_eq!(reopened.page_count().unwrap(), 5);
    let page = reopened.page(0).unwrap();
    assert_eq!(page.dict.get("Annots").and_then(|o| o.as_array()).map_or(0, |a| a.len()), 1);
}
