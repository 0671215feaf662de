use papyrus_pdf::affine::matrices;
use papyrus_pdf::canvas::{Bounds, Color, DisplayItem, DisplayList, Matrix, PathSegment, Point, Step, StepNode};
use papyrus_pdf::content::parse_content_stream;
use papyrus_pdf::display::{FillRule, PaintOp};
use papyrus_pdf::document::Document;
use papyrus_pdf::error::PdfError;
use papyrus_pdf::geometry::{build_events, page_device, page_pixels, place_segments, to_rgb, PathEvent, PlacedSegment};
use papyrus_pdf::interp::{find_operator, Interpreter, Operator};
use papyrus_pdf::number::Real;
use papyrus_pdf::object::{Dictionary, ObjRef, Object};
use papyrus_pdf::painting::{clip_outlines, paint_jobs, Ink, Job};
use papyrus_pdf::page_text::{extract_page_text, extract_text};
use papyrus_pdf::search::text_contains;
use papyrus_pdf::summary::summarize;

fn r(n: i64) -> Real {
    Real::from_int(n)
}

fn tenths(n: i128) -> Real {
    Real::from_scaled(n, 1)
}

/// A file of objects with the numbers from 1 on; the first is the catalog.
fn build(objects: &[Vec<u8>]) -> Vec<u8> {
    let mut out = b"%PDF-1.7\n".to_vec();
    let mut offsets = Vec::new();
    for (i, body) in objects.iter().enumerate() {
        offsets.push(out.len());
        out.extend_from_slice(format!("{} 0 obj\n", i + 1).as_bytes());
        out.extend_from_slice(body);
        out.extend_from_slice(b"\nendobj\n");
    }
    let xref = out.len();
    out.extend_from_slice(format!("xref\n0 {}\n0000000000 65535 f \n", objects.len() + 1).as_bytes());
    for o in &offsets {
        out.extend_from_slice(format!("{o:010} 00000 n \n").as_bytes());
    }
    out.extend_from_slice(
        format!("trailer\n<< /Size {} /Root 1 0 R >>\nstartxref\n{xref}\n%%EOF", objects.len() + 1)
            .as_bytes(),
    );
    out
}

fn stream(dict: &str, data: &[u8]) -> Vec<u8> {
    let mut out = format!("<< {dict} /Length {} >>\nstream\n", data.len()).into_bytes();
    out.extend_from_slice(data);
    out.extend_from_slice(b"\nendstream");
    out
}

fn obj(text: &str) -> Vec<u8> {
    text.as_bytes().to_vec()
}

/// A document with one page that has some resources and a content, and more objects from 5 on.
fn one_page(resources: &str, content: &str, more: &[Vec<u8>]) -> Document {
    let mut objects = vec![
        obj("<< /Type /Catalog /Pages 2 0 R >>"),
        obj("<< /Type /Pages /Kids [3 0 R] /Count 1 >>"),
        obj(&format!(
            "<< /Type /Page /Parent 2 0 R /MediaBox [0 0 612 792] /Resources << {resources} >> /Contents 4 0 R >>"
        )),
        stream("", content.as_bytes()),
    ];
    objects.extend_from_slice(more);
    Document::open(build(&objects)).unwrap()
}

fn run(doc: &Document) -> DisplayList {
    let page = doc.page(0).unwrap();
    let content = doc.page_content(&page).unwrap();
    Interpreter::run_page(doc, &page.resources, &content).unwrap()
}

fn clip_depth(display: &DisplayList, mut clip: usize) -> usize {
    let mut n = 0;
    while clip > 0 {
        n += 1;
        clip = display.clips[clip - 1].below;
    }
    n
}

fn placed(display: &DisplayList, item: usize) -> Vec<PlacedSegment> {
    let all = matrices(display);
    match &display.items[item] {
        DisplayItem::Path { segments, .. } => place_segments(display, &all, segments),
        _ => panic!("expected a path"),
    }
}

#[test]
fn parses_simple_instructions() {
    let data = b"q 1 0 0 1 72 720 cm 0 0 1 rg 100 200 50 50 re f Q";
    let instrs = parse_content_stream(data).unwrap();
    let ops: Vec<&str> = instrs.iter().map(|i| i.operator.as_str()).collect();
    assert_eq!(ops, vec!["q", "cm", "rg", "re", "f", "Q"]);
    assert_eq!(instrs[1].operands.len(), 6);
    assert_eq!(instrs[3].operands.len(), 4);
}

#[test]
fn parses_text_showing_operators() {
    let data = b"BT /F1 24 Tf 72 720 Td (Hello) Tj ET";
    let instrs = parse_content_stream(data).unwrap();
    let ops: Vec<&str> = instrs.iter().map(|i| i.operator.as_str()).collect();
    assert_eq!(ops, vec!["BT", "Tf", "Td", "Tj", "ET"]);
    assert_eq!(instrs[3].operands[0], Object::String(b"Hello".to_vec()));
}

#[test]
fn parses_tj_array_with_adjustments() {
    let data = b"[(A) -120 (B)] TJ";
    let instrs = parse_content_stream(data).unwrap();
    assert_eq!(instrs.len(), 1);
    assert_eq!(instrs[0].operator, "TJ");
    let Object::Array(items) = &instrs[0].operands[0] else {
        panic!("expected array operand");
    };
    assert_eq!(items.len(), 3);
}

#[test]
fn skips_inline_image_without_length() {
    let mut data = b"BI /W 1 /H 1 /BPC 8 /CS /G ID ".to_vec();
    data.extend_from_slice(&[0xFF, 0x00, 0x7D, 0x28]);
    data.extend_from_slice(b" EI n");
    let instrs = parse_content_stream(&data).unwrap();
    let ops: Vec<&str> = instrs.iter().map(|i| i.operator.as_str()).collect();
    assert_eq!(ops, vec!["n"]);
}

#[test]
fn skips_inline_image_with_explicit_length() {
    let mut data = b"BI /W 1 /H 1 /L 4 ID ".to_vec();
    data.extend_from_slice(&[0xFF, 0x00, 0xFF, 0x00]);
    data.extend_from_slice(b" EI n");
    let instrs = parse_content_stream(&data).unwrap();
    let ops: Vec<&str> = instrs.iter().map(|i| i.operator.as_str()).collect();
    assert_eq!(ops, vec!["n"]);
}

#[test]
fn identity_matrix_is_noop() {
    assert_eq!(Matrix::identity().apply(&r(3), &r(4)), (r(3), r(4)));
}

#[test]
fn translation_then_scale_composes_correctly() {
    let translate = Matrix::translation(r(10), r(20));
    let scale = Matrix::new(r(2), r(0), r(0), r(2), r(0), r(0));
    let combined = translate.followed_by(&scale);
    assert_eq!(combined.apply(&r(1), &r(1)), (r(22), r(42)));
}

#[test]
fn operators_by_name() {
    assert_eq!(find_operator("q"), Operator::Save);
    assert_eq!(find_operator("F"), Operator::Fill);
    assert_eq!(find_operator("\""), Operator::ShowSpaced);
    assert_eq!(find_operator("'"), Operator::ShowOnNextLine);
    assert_eq!(find_operator("scn"), Operator::FillColor);
    assert_eq!(find_operator("ET"), Operator::Other);
    assert_eq!(find_operator("nonsense"), Operator::Other);
}

#[test]
fn rectangle_fill_produces_path_item() {
    let doc = one_page("", "1 0 0 rg 100 200 50 60 re f", &[]);
    let display = run(&doc);
    assert_eq!(display.items.len(), 1);
    match &display.items[0] {
        DisplayItem::Path { segments, paint, fill_color, .. } => {
            assert_eq!(*paint, PaintOp::Fill);
            assert_eq!(*fill_color, Color::Rgb(r(1), r(0), r(0)));
            assert_eq!(segments.len(), 5);
        }
        _ => panic!("expected a path"),
    }
    assert_eq!(placed(&display, 0)[0], PlacedSegment::MoveTo((r(100), r(200))));
    assert_eq!(placed(&display, 0)[2], PlacedSegment::LineTo((r(150), r(260))));
    assert_eq!(placed(&display, 0)[3], PlacedSegment::LineTo((r(100), r(260))));
}

#[test]
fn text_showing_emits_one_glyph_per_byte() {
    let doc = one_page("", "BT /F1 24 Tf 72 720 Td (Hi) Tj ET", &[]);
    let display = run(&doc);
    let glyphs: Vec<&DisplayItem> =
        display.items.iter().filter(|i| matches!(i, DisplayItem::Glyph { .. })).collect();
    assert_eq!(glyphs.len(), 2);
    if let DisplayItem::Glyph { font, code, .. } = glyphs[0] {
        assert_eq!(font, "F1");
        assert_eq!(*code, b'H' as u32);
    } else {
        unreachable!();
    }
    // Without a font every glyph is half as wide as high.
    assert!(summarize(&display).estimated);
}

#[test]
fn text_showing_on_a_composite_font_emits_one_glyph_per_two_byte_cid() {
    let doc = one_page(
        "/Font << /F1 5 0 R >>",
        "BT /F1 24 Tf 72 720 Td <00090041> Tj ET",
        &[
            obj("<< /Type /Font /Subtype /Type0 /Encoding /Identity-H /DescendantFonts [6 0 R] >>"),
            obj("<< /Type /Font /Subtype /CIDFontType2 /DW 1000 /W [9 [600]] >>"),
        ],
    );
    let display = run(&doc);
    let codes: Vec<u32> = display
        .items
        .iter()
        .filter_map(|i| match i {
            DisplayItem::Glyph { code, .. } => Some(*code),
            _ => None,
        })
        .collect();
    assert_eq!(codes, vec![0x0009, 0x0041]);
    // The second stands six tenths of the size behind the first.
    let all = matrices(&display);
    match &display.items[1] {
        DisplayItem::Glyph { text, .. } => {
            assert_eq!(all[*text].e, Real::from_scaled(864, 1));
        }
        _ => panic!("expected a glyph"),
    }
}

#[test]
fn cm_concatenation_transforms_subsequent_points() {
    let doc = one_page("", "2 0 0 2 10 10 cm 0 0 5 5 re f", &[]);
    let display = run(&doc);
    let segments = placed(&display, 0);
    assert_eq!(segments[0], PlacedSegment::MoveTo((r(10), r(10))));
    assert_eq!(segments[1], PlacedSegment::LineTo((r(20), r(10))));
}

#[test]
fn q_q_restores_graphics_state() {
    let doc = one_page("", "1 0 0 rg q 0 1 0 rg Q 10 10 5 5 re f", &[]);
    let display = run(&doc);
    match &display.items[0] {
        DisplayItem::Path { fill_color, .. } => {
            assert_eq!(*fill_color, Color::Rgb(r(1), r(0), r(0)));
        }
        _ => panic!("expected a path"),
    }
}

#[test]
fn clip_operator_attaches_clip_only_to_subsequent_items() {
    let doc = one_page("", "10 10 40 40 re W n 0 0 0 rg 0 0 100 100 re f", &[]);
    let display = run(&doc);
    match &display.items[0] {
        DisplayItem::Path { sets_clip, clip, paint, .. } => {
            assert!(*sets_clip);
            assert_eq!(*paint, PaintOp::Nothing);
            assert_eq!(*clip, 0, "the clip-setting item itself has no clip yet");
        }
        _ => panic!("expected a path"),
    }
    match &display.items[1] {
        DisplayItem::Path { paint, clip, .. } => {
            assert_eq!(*paint, PaintOp::Fill);
            assert_eq!(clip_depth(&display, *clip), 1);
            assert_eq!(display.clips[*clip - 1].fill_rule, FillRule::NonZero);
        }
        _ => panic!("expected a path"),
    }
}

#[test]
fn nested_clips_intersect_and_restore_on_q() {
    let doc = one_page(
        "",
        "0 0 50 50 re W n q 20 20 60 60 re W n 0 0 0 rg 0 0 100 100 re f Q 0 0 0 rg 0 0 1 1 re f",
        &[],
    );
    let display = run(&doc);
    let fills: Vec<usize> = display
        .items
        .iter()
        .filter_map(|i| match i {
            DisplayItem::Path { paint: PaintOp::Fill, clip, .. } => Some(*clip),
            _ => None,
        })
        .collect();
    assert_eq!(fills.len(), 2);
    assert_eq!(clip_depth(&display, fills[0]), 2);
    assert_eq!(clip_depth(&display, fills[1]), 1);
}

#[test]
fn paths_are_made_and_painted_by_their_operators() {
    let doc = one_page(
        "",
        "1 2 m 3 4 l 5 6 7 8 9 10 c 1 1 2 2 v 3 3 4 4 y h b* 0 0 m 1 0 l s 0 0 1 1 re n S",
        &[],
    );
    let display = run(&doc);
    assert_eq!(display.items.len(), 2);
    assert_eq!(
        placed(&display, 0),
        vec![
            PlacedSegment::MoveTo((r(1), r(2))),
            PlacedSegment::LineTo((r(3), r(4))),
            PlacedSegment::CurveTo { c1: (r(5), r(6)), c2: (r(7), r(8)), to: (r(9), r(10)) },
            PlacedSegment::CurveTo { c1: (r(9), r(10)), c2: (r(1), r(1)), to: (r(2), r(2)) },
            PlacedSegment::CurveTo { c1: (r(3), r(3)), c2: (r(4), r(4)), to: (r(4), r(4)) },
            PlacedSegment::ClosePath,
            PlacedSegment::ClosePath,
        ]
    );
    match &display.items[0] {
        DisplayItem::Path { paint, fill_rule, .. } => {
            assert_eq!(*paint, PaintOp::FillStroke);
            assert_eq!(*fill_rule, FillRule::EvenOdd);
        }
        _ => panic!("expected a path"),
    }
}

#[test]
fn colors_are_taken_by_their_number_of_components() {
    let doc = one_page(
        "/ExtGState << /G << /LW 7 /ca 0.4 /CA 1 >> >>",
        "0.5 sc 1 0 0 SCN /G gs 0 0 1 1 re B 1 2 sc 0.1 0.2 0.3 0.4 k 0 0 1 1 re f",
        &[],
    );
    let display = run(&doc);
    match &display.items[0] {
        DisplayItem::Path { fill_color, stroke_color, line_width, fill_alpha, stroke_alpha, .. } => {
            assert_eq!(*fill_alpha, tenths(4));
            assert_eq!(*stroke_alpha, r(1));
            assert_eq!(*fill_color, Color::Gray(tenths(5)));
            assert_eq!(*stroke_color, Color::Rgb(r(1), r(0), r(0)));
            assert_eq!(*line_width, r(7));
        }
        _ => panic!("expected a path"),
    }
    match &display.items[1] {
        DisplayItem::Path { fill_color, .. } => {
            assert_eq!(*fill_color, Color::Cmyk(tenths(1), tenths(2), tenths(3), tenths(4)));
        }
        _ => panic!("expected a path"),
    }
}

const HELVETICA: &str = "<< /Type /Font /Subtype /Type1 /BaseFont /Helvetica /Encoding /WinAnsiEncoding >>";

#[test]
fn text_moves_by_its_operators() {
    let doc = one_page(
        "/Font << /F 5 0 R >>",
        "BT /F 10 Tf 14 TL 100 500 Td (A) Tj T* (B) Tj 2 3 (C) \" [(D) 1000 (E)] TJ 1 0 0 1 7 8 Tm (F) Tj ET",
        &[obj(HELVETICA)],
    );
    let display = run(&doc);
    let all = matrices(&display);
    let places: Vec<(char, Real, Real)> = display
        .items
        .iter()
        .filter_map(|i| match i {
            DisplayItem::Glyph { unicode: Some(c), text, .. } => {
                Some((*c, all[*text].e.clone(), all[*text].f.clone()))
            }
            _ => None,
        })
        .collect();
    assert_eq!(places[0], ('A', r(100), r(500)));
    assert_eq!(places[1], ('B', r(100), r(486)));
    assert_eq!(places[2], ('C', r(100), r(472)));
    // C is 7.22 wide, and each glyph has 3 behind it.
    assert_eq!(places[3], ('D', Real::from_scaled(11022, 2), r(472)));
    // D is 7.22 wide too; the number moves E back by 10.
    assert_eq!(places[4], ('E', Real::from_scaled(11044, 2), r(472)));
    assert_eq!(places[5], ('F', r(7), r(8)));
}

#[test]
fn forms_are_followed_and_leave_the_state_as_it_was() {
    let doc = one_page(
        "/XObject << /X 5 0 R >>",
        "1 0 0 rg /X Do 0 0 1 1 re f",
        &[stream(
            "/Type /XObject /Subtype /Form /Matrix [1 0 0 1 10 20]",
            b"0 1 0 rg 0 0 5 5 re f",
        )],
    );
    let display = run(&doc);
    assert_eq!(display.items.len(), 2);
    assert_eq!(placed(&display, 0)[0], PlacedSegment::MoveTo((r(10), r(20))));
    match &display.items[1] {
        DisplayItem::Path { fill_color, .. } => assert_eq!(*fill_color, Color::Rgb(r(1), r(0), r(0))),
        _ => panic!("expected a path"),
    }
    assert_eq!(placed(&display, 1)[0], PlacedSegment::MoveTo((r(0), r(0))));
}

#[test]
fn a_form_that_shows_itself_is_followed_twelve_deep() {
    let doc = one_page(
        "/XObject << /X 5 0 R >>",
        "/X Do",
        &[stream("/Subtype /Form /Resources << /XObject << /X 5 0 R >> >>", b"0 0 1 1 re f /X Do")],
    );
    assert_eq!(run(&doc).items.len(), 12);
}

#[test]
fn an_image_that_cannot_be_decoded_is_shown_without_pixels() {
    let doc = one_page(
        "/XObject << /I 5 0 R /J 6 0 R >>",
        "/I Do /J Do",
        &[
            stream("/Subtype /Image /Width 1 /Height 1 /ColorSpace /DeviceGray", &[128]),
            stream("/Subtype /Image /Width 1 /Height 1 /ColorSpace [/Indexed /DeviceRGB 1 <000000FFFFFF>]", &[1]),
        ],
    );
    let display = run(&doc);
    match (&display.items[0], &display.items[1]) {
        (DisplayItem::Image { pixels: Some(p), .. }, DisplayItem::Image { pixels: None, .. }) => {
            assert_eq!(p.rgba, vec![128, 128, 128, 255]);
        }
        _ => panic!("expected two images"),
    }
    let s = summarize(&display);
    assert_eq!((s.paths, s.glyphs, s.images), (0, 0, 2));
}

#[test]
fn a_resource_that_is_not_there_is_an_error() {
    let doc = one_page("/XObject << /X 99 0 R >>", "/X Do", &[]);
    let page = doc.page(0).unwrap();
    let content = doc.page_content(&page).unwrap();
    assert!(matches!(
        Interpreter::run_page(&doc, &page.resources, &content),
        Err(PdfError::ObjectNotFound(99, 0))
    ));
}

/// A document with pages that each say which they are.
fn multipage(count: usize) -> Vec<u8> {
    let kids: Vec<String> = (0..count).map(|i| format!("{} 0 R", 4 + 2 * i)).collect();
    let mut objects = vec![
        obj("<< /Type /Catalog /Pages 2 0 R >>"),
        obj(&format!("<< /Type /Pages /Kids [{}] /Count {count} /MediaBox [0 0 612 792] >>", kids.join(" "))),
        obj(HELVETICA),
    ];
    for i in 0..count {
        objects.push(obj(&format!(
            "<< /Type /Page /Parent 2 0 R /Resources << /Font << /F1 3 0 R >> >> /Contents {} 0 R >>",
            5 + 2 * i
        )));
        objects.push(stream(
            "",
            format!("BT /F1 24 Tf 72 720 Td (Page {} - Hello, PDF Manager!) Tj ET", i + 1).as_bytes(),
        ));
    }
    build(&objects)
}

#[test]
fn real_fixture_recovers_unicode_text_and_real_widths() {
    let doc = Document::open(multipage(5)).unwrap();
    let display = run(&doc);
    let s = summarize(&display);
    let text: String = s.text.iter().collect();
    assert_eq!(text, "Page 1 - Hello, PDF Manager!");
    assert!(!s.estimated);
}

#[test]
fn real_fixture_extracts_expected_sentence() {
    let doc = Document::open(multipage(5)).unwrap();
    assert_eq!(extract_text(&run(&doc)), "Page 1 - Hello, PDF Manager!");
}

#[test]
fn opens_real_pdf_with_classic_xref() {
    let doc = Document::open(multipage(5)).unwrap();
    assert_eq!(doc.page_count().unwrap(), 5);
}

#[test]
fn opens_large_multipage_pdf() {
    let doc = Document::open(multipage(60)).unwrap();
    assert_eq!(doc.page_count().unwrap(), 60);
    let last_page = doc.page(59).unwrap();
    assert_eq!(last_page.media_box, [0, 0, 612, 792]);
}

#[test]
fn opens_document_with_differently_sized_pages() {
    let doc = Document::open(build(&[
        obj("<< /Type /Catalog /Pages 2 0 R >>"),
        obj("<< /Type /Pages /Kids [3 0 R 4 0 R 5 0 R] /Count 3 >>"),
        obj("<< /Type /Page /MediaBox [0 0 612 792] >>"),
        obj("<< /Type /Page /MediaBox [0 0 841.89 595.28] >>"),
        obj("<< /Type /Page /MediaBox [0 0 300 300] >>"),
    ]))
    .unwrap();
    assert_eq!(doc.page_count().unwrap(), 3);
    assert_eq!(doc.page(0).unwrap().media_box, [0, 0, 612, 792]);
    assert_eq!(doc.page(1).unwrap().media_box, [0, 0, 841, 595]);
    assert_eq!(doc.page(2).unwrap().media_box, [0, 0, 300, 300]);
}

#[test]
fn opens_pdf_with_rotate_and_exposes_it_on_the_page() {
    let doc = Document::open(build(&[
        obj("<< /Type /Catalog /Pages 2 0 R >>"),
        obj("<< /Type /Pages /Kids [3 0 R] /Count 1 /Rotate 90 >>"),
        obj("<< /Type /Page >>"),
    ]))
    .unwrap();
    assert_eq!(doc.page(0).unwrap().rotate, 90);
}

#[test]
fn recovers_full_stream_content_despite_a_wrong_length_entry() {
    let mut objects = vec![
        obj("<< /Type /Catalog /Pages 2 0 R >>"),
        obj("<< /Type /Pages /Kids [3 0 R] /Count 1 >>"),
        obj("<< /Type /Page /Contents 4 0 R >>"),
    ];
    objects.push(b"<< /Length 5 >>\nstream\nBT (all of this) Tj ET\nendstream".to_vec());
    let doc = Document::open(build(&objects)).unwrap();
    let page = doc.page(0).unwrap();
    let content = doc.page_content(&page).unwrap();
    assert!(String::from_utf8_lossy(&content).contains("all of this"));
}

#[test]
fn indexed_color_space_image_degrades_gracefully_instead_of_crashing() {
    let doc = one_page(
        "/XObject << /I 5 0 R >>",
        "/I Do",
        &[stream("/Subtype /Image /Width 1 /Height 1 /BitsPerComponent 8 /ColorSpace [/Indexed /DeviceRGB 0 <FF0000>]", &[0])],
    );
    let display = run(&doc);
    let images: Vec<&DisplayItem> =
        display.items.iter().filter(|i| matches!(i, DisplayItem::Image { .. })).collect();
    assert_eq!(images.len(), 1);
    assert!(matches!(images[0], DisplayItem::Image { pixels: None, .. }));
}

/// A glyph of some size at a place, and the list of steps with its transform behind it.
fn glyph_at(display: &mut DisplayList, c: char, x: i64, y: i64, size: i64) {
    display.steps.push(StepNode {
        step: Step::Matrix(Matrix::new(r(1), r(0), r(0), r(1), r(x), r(y))),
        below: 0,
    });
    display.items.push(DisplayItem::Glyph {
        font: "F1".to_string(),
        code: c as u32,
        unicode: Some(c),
        size: r(size),
        scale: r(100),
        rise: r(0),
        text: display.steps.len(),
        ctm: 0,
        color: Color::Gray(r(0)),
        alpha: r(1),
        advance_is_estimated: false,
        shape: None,
        font_number: 0,
        clip: 0,
    });
}

fn glyphs(list: &[(char, i64, i64, i64)]) -> DisplayList {
    let mut display = DisplayList::new();
    for (c, x, y, size) in list {
        glyph_at(&mut display, *c, *x, *y, *size);
    }
    display
}

#[test]
fn concatenates_glyphs_on_the_same_baseline_without_break() {
    let display = glyphs(&[('H', 0, 700, 12), ('i', 8, 700, 12)]);
    assert_eq!(extract_text(&display), "Hi");
}

#[test]
fn inserts_newline_on_large_vertical_baseline_jump() {
    let display = glyphs(&[('A', 0, 700, 12), ('B', 0, 680, 12)]);
    assert_eq!(extract_text(&display), "A\nB");
}

#[test]
fn small_baseline_jitter_does_not_trigger_a_line_break() {
    let display = glyphs(&[('x', 0, 700, 12), ('2', 8, 703, 8)]);
    assert_eq!(extract_text(&display), "x2");
}

#[test]
fn a_line_breaks_beyond_half_the_height_and_not_at_it() {
    assert_eq!(extract_text(&glyphs(&[('a', 0, 700, 12), ('b', 0, 694, 12)])), "ab");
    assert_eq!(extract_text(&glyphs(&[('a', 0, 700, 12), ('b', 0, 693, 12)])), "a\nb");
}

#[test]
fn glyphs_without_unicode_are_skipped() {
    let mut display = glyphs(&[('?', 0, 700, 12), ('Y', 8, 700, 12)]);
    if let DisplayItem::Glyph { unicode, .. } = &mut display.items[0] {
        *unicode = None;
    }
    assert_eq!(extract_text(&display), "Y");
}

#[test]
fn find_matches_locates_a_case_insensitive_substring() {
    let display = glyphs(&[('H', 0, 700, 12), ('i', 8, 700, 12)]);
    let page_text = extract_page_text(&display);
    let matches = page_text.find_matches("HI");
    assert_eq!(matches.len(), 1);
    assert_eq!(
        matches[0],
        Bounds { x0: r(0), y0: r(700), x1: tenths(152), y1: tenths(7096) }
    );
}

#[test]
fn find_matches_returns_one_rect_per_occurrence() {
    let display = glyphs(&[
        ('a', 0, 700, 12),
        ('b', 8, 700, 12),
        (' ', 16, 700, 12),
        ('a', 24, 700, 12),
        ('b', 32, 700, 12),
    ]);
    let page_text = extract_page_text(&display);
    assert_eq!(page_text.find_matches("ab").len(), 2);
    assert_eq!(page_text.find_matches("zz").len(), 0);
    assert_eq!(page_text.find_matches("").len(), 0);
}

#[test]
fn find_matches_ignores_line_break_placeholder_positions() {
    let display = glyphs(&[('A', 0, 700, 12), ('B', 0, 680, 12)]);
    let page_text = extract_page_text(&display);
    assert_eq!(page_text.text(), "A\nB");
    let matches = page_text.find_matches("a\nb");
    assert_eq!(matches.len(), 1);
    assert_eq!(matches[0].y0, r(680));
}

#[test]
fn texts_are_searched_without_case_and_accents() {
    assert!(text_contains("Crème brûlée", "CREME BRU"));
    assert!(text_contains("ete", "été"));
    assert!(text_contains("abc", ""));
    assert!(!text_contains("abc", "abcd"));
    assert!(!text_contains("abc", "bd"));
}

#[test]
fn the_page_in_pixels_follows_its_rotation() {
    let bounds = [0, 0, 200, 100];
    assert_eq!(page_pixels(&bounds, 0, &r(1)), (200, 100));
    assert_eq!(page_pixels(&bounds, 90, &r(1)), (100, 200));
    assert_eq!(page_pixels(&bounds, 180, &r(2)), (400, 200));
    assert_eq!(page_pixels(&[0, 0, 5, 3], -90, &tenths(5)), (2, 3));
    assert_eq!(page_pixels(&[0, 0, 0, 0], 0, &r(1)), (1, 1));
    assert_eq!(page_pixels(&bounds, 0, &r(0)), (2, 1));
    let point = |rotate: i32, x: i64, y: i64| page_device(&bounds, rotate, &r(1)).apply(&r(x), &r(y));
    assert_eq!(point(0, 0, 0), (r(0), r(100)));
    assert_eq!(point(90, 0, 0), (r(0), r(0)));
    assert_eq!(point(180, 0, 0), (r(200), r(0)));
    assert_eq!(point(270, 0, 0), (r(100), r(200)));
    assert_eq!(point(90, 0, 100), (r(100), r(0)));
}

#[test]
fn colors_in_red_green_and_blue() {
    assert_eq!(to_rgb(&Color::Gray(tenths(5))), (tenths(5), tenths(5), tenths(5)));
    assert_eq!(to_rgb(&Color::Rgb(r(2), r(-1), tenths(3))), (r(1), r(0), tenths(3)));
    assert_eq!(
        to_rgb(&Color::Cmyk(r(0), tenths(5), r(1), tenths(5))),
        (tenths(5), Real::from_scaled(25, 2), r(0))
    );
}

#[test]
fn path_events_begin_and_end_each_part() {
    let at = |x: i64, y: i64| (r(x), r(y));
    assert_eq!(
        build_events(&vec![
            PlacedSegment::MoveTo(at(0, 0)),
            PlacedSegment::LineTo(at(1, 0)),
            PlacedSegment::MoveTo(at(5, 5)),
            PlacedSegment::ClosePath,
            PlacedSegment::ClosePath,
            PlacedSegment::LineTo(at(6, 6)),
        ]),
        Some(vec![
            PathEvent::Begin(at(0, 0)),
            PathEvent::Line(at(1, 0)),
            PathEvent::End { close: false },
            PathEvent::Begin(at(5, 5)),
            PathEvent::End { close: true },
            PathEvent::Begin(at(6, 6)),
            PathEvent::Line(at(6, 6)),
            PathEvent::End { close: false },
        ])
    );
    assert_eq!(build_events(&vec![PlacedSegment::ClosePath]), None);
}

#[test]
fn points_are_moved_by_all_steps_of_their_transform() {
    let mut display = DisplayList::new();
    display.steps.push(StepNode { step: Step::Shift { right: r(1), up: r(2) }, below: 0 });
    display.steps.push(StepNode {
        step: Step::Matrix(Matrix::new(r(3), r(0), r(0), r(3), r(0), r(0))),
        below: 1,
    });
    display.steps.push(StepNode {
        step: Step::Fit {
            bbox: Bounds { x0: r(0), y0: r(0), x1: r(10), y1: r(4) },
            matrix: Matrix::identity(),
            rect: Bounds { x0: r(30), y0: r(50), x1: r(10), y1: r(42) },
        },
        below: 0,
    });
    let all = matrices(&display);
    let segment = |ctm: usize| {
        vec![PathSegment::MoveTo {
            to: Point { x: r(5), y: r(1), right: r(1), up: r(0) },
            ctm,
        }]
    };
    assert_eq!(
        place_segments(&display, &all, &segment(2)),
        vec![PlacedSegment::MoveTo((r(19), r(5)))]
    );
    // The box is brought into the rectangle, whose sides are twice as long.
    assert_eq!(
        place_segments(&display, &all, &segment(3)),
        vec![PlacedSegment::MoveTo((r(22), r(44)))]
    );
}

#[test]
fn no_outlines_returns_empty_vec() {
    let doc = Document::open(multipage(5)).unwrap();
    assert_eq!(doc.outline().unwrap().len(), 0);
}

#[test]
fn real_fixture_reads_flat_outline_with_resolved_page_indices() {
    let mut objects = vec![
        obj("<< /Type /Catalog /Pages 2 0 R /Outlines 7 0 R >>"),
        obj("<< /Type /Pages /Kids [3 0 R 4 0 R 5 0 R 6 0 R] /Count 4 >>"),
    ];
    for _ in 0..4 {
        objects.push(obj("<< /Type /Page /Parent 2 0 R >>"));
    }
    objects.push(obj("<< /Type /Outlines /First 8 0 R /Last 11 0 R /Count 4 >>"));
    for i in 0..4 {
        let next = if i < 3 { format!("/Next {} 0 R", 9 + i) } else { String::new() };
        objects.push(obj(&format!("<< /Title (Section {}) /Dest [{} 0 R /Fit] {next} >>", i + 1, 3 + i)));
    }
    let doc = Document::open(build(&objects)).unwrap();
    let outline = doc.outline().unwrap();
    assert_eq!(outline.len(), 4);
    for (i, item) in outline.iter().enumerate() {
        assert_eq!(item.title, format!("Section {}", i + 1));
        assert_eq!(item.page_index, Some(i));
        assert!(item.children.is_empty());
    }
}

#[test]
fn nested_outline_children_are_resolved() {
    let doc = Document::open(multipage(5)).unwrap();
    let pages = doc.pages().unwrap();
    let page0_ref = pages[0].object_ref.unwrap();
    let page1_ref = pages[1].object_ref.unwrap();
    let dest = |page: ObjRef| {
        Object::Array(vec![Object::Reference(page), Object::Name("Fit".to_string())])
    };
    let mut child = Dictionary::new();
    child.insert("Title", Object::String(b"Section 1.1".to_vec()));
    child.insert("Dest", dest(page1_ref));
    let mut parent = Dictionary::new();
    parent.insert("Title", Object::String(b"Chapitre 1".to_vec()));
    parent.insert("Dest", dest(page0_ref));
    parent.insert("First", Object::Dictionary(child));
    let mut visited = papyrus_pdf::marks::RefSet::new();
    let items = doc
        .collect_outline_siblings(&Object::Dictionary(parent), &pages, &mut visited)
        .unwrap();
    assert_eq!(items.len(), 1);
    assert_eq!(items[0].title, "Chapitre 1");
    assert_eq!(items[0].page_index, Some(0));
    assert_eq!(items[0].children.len(), 1);
    assert_eq!(items[0].children[0].title, "Section 1.1");
    assert_eq!(items[0].children[0].page_index, Some(1));
}

#[test]
fn opens_pdf_with_embedded_cjk_font_without_crashing() {
    let doc = one_page(
        "/Font << /F 5 0 R >>",
        "BT /F 12 Tf <4E2D6587> Tj ET",
        &[
            obj("<< /Type /Font /Subtype /Type0 /Encoding /Identity-H /DescendantFonts [6 0 R] /ToUnicode 7 0 R >>"),
            obj("<< /Type /Font /Subtype /CIDFontType2 /DW 1000 >>"),
            stream("", b"1 beginbfrange\n<4E00> <9FFF> <4E00>\nendbfrange"),
        ],
    );
    assert_eq!(doc.page_count().unwrap(), 1);
    assert_eq!(extract_text(&run(&doc)), "\u{4E2D}\u{6587}");
}

#[test]
fn lib_rotate_zero_matches_unrotated_dimensions() {
    assert_eq!(page_pixels(&[0, 0, 100, 60], 0, &r(1)), (100, 60));
    assert_eq!(page_pixels(&[0, 0, 100, 60], 360, &r(1)), (100, 60));
}

#[test]
fn rotate_90_swaps_pixmap_dimensions() {
    assert_eq!(page_pixels(&[0, 0, 100, 60], 90, &r(1)), (60, 100));
}

#[test]
fn rotate_90_swaps_dimensions() {
    assert_eq!(page_pixels(&[0, 0, 100, 60], 90, &r(1)), (60, 100));
    assert_eq!(page_pixels(&[0, 0, 100, 60], 270, &r(1)), (60, 100));
}

#[test]
fn what_is_painted_has_its_ink_its_place_and_its_clip() {
    let doc = one_page(
        "/Font << /F 5 0 R >> /XObject << /I 6 0 R /J 7 0 R >> /ExtGState << /G << /ca 0.4 /CA 3 >> >>",
        "0 0 9 9 re W n 2 0 0 2 0 0 cm /G gs 1 0 0 rg 0.01 w 0 0 1 1 re B BT /F 10 Tf (A) Tj ET /I Do /J Do",
        &[
            obj(HELVETICA),
            stream("/Subtype /Image /Width 1 /Height 1 /ColorSpace /DeviceGray", &[128]),
            stream("/Subtype /Image /Width 1 /Height 1 /ColorSpace /Other", &[128]),
        ],
    );
    let display = run(&doc);
    let jobs = paint_jobs(&display);
    // The path that only clips and the image that cannot be decoded are not painted.
    assert_eq!(display.items.len(), 5);
    assert_eq!(jobs.len(), 3);
    let ink = |red: i64, alpha: Real| Ink { red: r(red), green: r(0), blue: r(0), alpha };
    match &jobs[0] {
        Job::Path { segments, fill, stroke, clip } => {
            assert_eq!(segments[2], PlacedSegment::LineTo((r(2), r(2))));
            assert_eq!(*fill, Some((ink(1, tenths(4)), FillRule::NonZero)));
            assert_eq!(*stroke, Some((ink(0, r(1)), tenths(1))));
            let outlines = clip_outlines(&display, *clip);
            assert_eq!(outlines.len(), 1);
            assert_eq!(outlines[0].0[2], PlacedSegment::LineTo((r(9), r(9))));
        }
        _ => panic!("expected a path"),
    }
    match &jobs[1] {
        Job::Glyph { font_number, place, ink: shown, .. } => {
            assert_eq!(display.fonts[*font_number - 1].base_font(), "Helvetica");
            assert_eq!(place.a, r(20));
            assert_eq!(*shown, ink(1, tenths(4)));
        }
        _ => panic!("expected a glyph"),
    }
    match &jobs[2] {
        Job::Image { item, place, alpha, .. } => {
            assert_eq!(*item, 3);
            assert_eq!(place.d, r(2));
            assert_eq!(*alpha, tenths(4));
        }
        _ => panic!("expected an image"),
    }
    assert_eq!(clip_outlines(&display, 0).len(), 0);
}
