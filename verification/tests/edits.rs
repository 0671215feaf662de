use papyrus_pdf::canvas::{Color, DisplayItem, DisplayList};
use papyrus_pdf::display::PaintOp;
use papyrus_pdf::document::Document;
use papyrus_pdf::edit::EditSession;
use papyrus_pdf::edit_model::{EditError, Refusal};
use papyrus_pdf::error::{DecodeProblem, PdfError};
use papyrus_pdf::extract::{export_optimized, extract_pages};
use papyrus_pdf::font::GlyphShape;
use papyrus_pdf::interp::Interpreter;
use papyrus_pdf::jpeg::{jpeg_color, jpeg_decode, jpeg_dimensions, JpegColor};
use papyrus_pdf::number::Real;
use papyrus_pdf::object::{ObjRef, Object};
use papyrus_pdf::page_text::extract_text;

const HELVETICA: &str =
    "<< /Type /Font /Subtype /Type1 /BaseFont /Helvetica /Encoding /WinAnsiEncoding >>";

fn r(n: i64) -> Real {
    Real::from_int(n)
}

/// A file of objects with the numbers from 1 on; the first is the catalog.
fn build(objects: &[Vec<u8>]) -> Vec<u8> {
    let mut out = b"%PDF-1.7\n".to_vec();
    let mut offsets = Vec::new();
    for (i, body) in objects.iter().enumerate() {
        offsets.push(out.len());
        out.extend_from_slice(format!("{} 0 obj\n", i + 1).as_bytes());
        out.extend_from_slice(body);
        out.extend_from_slice(b"\nendobj\n");
    }
    let xref = out.len();
    out.extend_from_slice(format!("xref\n0 {}\n0000000000 65535 f \n", objects.len() + 1).as_bytes());
    for o in &offsets {
        out.extend_from_slice(format!("{o:010} 00000 n \n").as_bytes());
    }
    out.extend_from_slice(
        format!("trailer\n<< /Size {} /Root 1 0 R >>\nstartxref\n{xref}\n%%EOF", objects.len() + 1)
            .as_bytes(),
    );
    out
}

fn stream(dict: &str, data: &[u8]) -> Vec<u8> {
    let mut out = format!("<< {dict} /Length {} >>\nstream\n", data.len()).into_bytes();
    out.extend_from_slice(data);
    out.extend_from_slice(b"\nendstream");
    out
}

fn obj(text: &str) -> Vec<u8> {
    text.as_bytes().to_vec()
}

/// A document with pages that each say which they are.
fn multipage(count: usize) -> Vec<u8> {
    let kids: Vec<String> = (0..count).map(|i| format!("{} 0 R", 4 + 2 * i)).collect();
    let mut objects = vec![
        obj("<< /Type /Catalog /Pages 2 0 R >>"),
        obj(&format!(
            "<< /Type /Pages /Kids [{}] /Count {count} /MediaBox [0 0 612 792] >>",
            kids.join(" ")
        )),
        obj(HELVETICA),
    ];
    for i in 0..count {
        objects.push(obj(&format!(
            "<< /Type /Page /Parent 2 0 R /Resources << /Font << /F1 3 0 R >> >> /Contents {} 0 R >>",
            5 + 2 * i
        )));
        objects.push(stream(
            "",
            format!("BT /F1 24 Tf 72 720 Td (Page {} - Hello, PDF Manager!) Tj ET", i + 1).as_bytes(),
        ));
    }
    build(&objects)
}

/// A document with a form of one text field.
fn form_pdf() -> Vec<u8> {
    build(&[
        obj("<< /Type /Catalog /Pages 2 0 R /AcroForm << /Fields [5 0 R] >> >>"),
        obj("<< /Type /Pages /Kids [3 0 R] /Count 1 >>"),
        obj("<< /Type /Page /Parent 2 0 R /MediaBox [0 0 612 792] /Annots [5 0 R] /Contents 4 0 R >>"),
        stream("", b"0 0 1 1 re n"),
        obj("<< /Type /Annot /Subtype /Widget /FT /Tx /T (name_field) /V () /Rect [100 600 300 620] >>"),
    ])
}

/// A document with one page in a TrueType font of its own, whose letter A is glyph 36.
fn truetype_pdf() -> Vec<u8> {
    let mut head = vec![0u8; 54];
    head[1] = 1;
    head[12..16].copy_from_slice(&[0x5F, 0x0F, 0x3C, 0xF5]);
    head[18] = 4;
    let mut hhea = vec![0u8; 36];
    hhea[1] = 1;
    let maxp = vec![0, 0, 0x50, 0, 0, 100];
    let cmap = vec![0, 0, 0, 1, 0, 1, 0, 0, 0, 0, 0, 12, 0, 6, 0, 12, 0, 0, 0, 65, 0, 1, 0, 36];
    let tables = [(b"cmap", cmap), (b"head", head), (b"hhea", hhea), (b"maxp", maxp)];
    let mut font = vec![0, 1, 0, 0, 0, 4, 0, 0, 0, 0, 0, 0];
    let mut offset = 12 + 16 * tables.len() as u32;
    for (tag, data) in &tables {
        font.extend_from_slice(*tag);
        font.extend_from_slice(&[0; 4]);
        font.extend_from_slice(&offset.to_be_bytes());
        font.extend_from_slice(&(data.len() as u32).to_be_bytes());
        offset += data.len() as u32;
    }
    for (_, data) in &tables {
        font.extend_from_slice(data);
    }
    build(&[
        obj("<< /Type /Catalog /Pages 2 0 R >>"),
        obj("<< /Type /Pages /Kids [3 0 R] /Count 1 >>"),
        obj("<< /Type /Page /Parent 2 0 R /MediaBox [0 0 612 792] /Resources << /Font << /F 5 0 R >> >> /Contents 4 0 R >>"),
        stream("", b"BT /F 12 Tf 72 720 Td (A) Tj ET"),
        obj("<< /Type /Font /Subtype /TrueType /BaseFont /Own /FontDescriptor 6 0 R >>"),
        obj("<< /Type /FontDescriptor /FontFile2 7 0 R >>"),
        stream("", &font),
    ])
}

fn millionths(list: [i64; 4]) -> [i64; 4] {
    [list[0] * 1_000_000, list[1] * 1_000_000, list[2] * 1_000_000, list[3] * 1_000_000]
}

const BLACK: [i64; 3] = [0, 0, 0];
const WHITE: [i64; 3] = [1_000_000, 1_000_000, 1_000_000];
const YELLOW: [i64; 3] = [1_000_000, 1_000_000, 0];
const RED: [i64; 3] = [1_000_000, 0, 0];
const BLUE: [i64; 3] = [0, 0, 1_000_000];

/// A JPEG image of one gray, with 8 by 8 pixels to a block.
fn jpeg(width: u16, height: u16, components: u8) -> Vec<u8> {
    let mut out = vec![0xFF, 0xD8, 0xFF, 0xDB, 0, 67, 0];
    out.extend_from_slice(&[1; 64]);
    out.extend_from_slice(&[0xFF, 0xC0, 0, 8 + 3 * components, 8]);
    out.extend_from_slice(&height.to_be_bytes());
    out.extend_from_slice(&width.to_be_bytes());
    out.push(components);
    for c in 0..components {
        out.extend_from_slice(&[c + 1, 0x11, 0]);
    }
    for class in [0x00, 0x10] {
        out.extend_from_slice(&[0xFF, 0xC4, 0, 20, class, 1]);
        out.extend_from_slice(&[0; 16]);
    }
    out.extend_from_slice(&[0xFF, 0xDA, 0, 6 + 2 * components, components]);
    for c in 0..components {
        out.extend_from_slice(&[c + 1, 0]);
    }
    out.extend_from_slice(&[0, 63, 0]);
    let blocks = (width as usize + 7) / 8 * ((height as usize + 7) / 8) * components as usize;
    out.extend_from_slice(&vec![0; blocks / 4 + 1]);
    out.extend_from_slice(&[0xFF, 0xD9]);
    out
}

fn open(data: Vec<u8>) -> EditSession {
    EditSession::open(data).unwrap()
}

fn reopen(session: &EditSession) -> Document {
    Document::open(session.to_bytes().unwrap()).unwrap()
}

/// What a page shows, without its annotations and with them.
fn shown(doc: &Document, index: usize) -> (DisplayList, DisplayList) {
    let page = doc.page(index).unwrap();
    let content = doc.page_content(&page).unwrap();
    (
        Interpreter::run_page(doc, &page.resources, &content).unwrap(),
        Interpreter::run_page_with_annotations(doc, &page, &content).unwrap(),
    )
}

fn page_texts(doc: &Document) -> Vec<String> {
    (0..doc.page_count().unwrap()).map(|i| extract_text(&shown(doc, i).0)).collect()
}

fn glyph_count(display: &DisplayList) -> usize {
    display.items.iter().filter(|i| matches!(i, DisplayItem::Glyph { .. })).count()
}

fn annotation_count(doc: &Document, index: usize) -> usize {
    doc.page(index).unwrap().dict.get("Annots").and_then(|o| o.as_array()).map_or(0, |a| a.len())
}

fn rgb(a: i64, b: i64, c: i64) -> Color {
    Color::Rgb(r(a), r(b), r(c))
}

#[test]
fn add_highlight_persists_and_renders_after_reopen() {
    let mut session = open(multipage(5));
    session
        .add_highlight_annotation(0, millionths([100, 600, 300, 630]), YELLOW, vec![])
        .unwrap();
    let doc = reopen(&session);
    let display = shown(&doc, 0).1;
    let fill = display.items.iter().find_map(|item| match item {
        DisplayItem::Path { fill_color, fill_alpha, .. } if *fill_color == rgb(1, 1, 0) => {
            Some(fill_alpha)
        }
        _ => None,
    });
    // What lies below shines through.
    assert_eq!(*fill.unwrap(), Real::from_scaled(4, 1));
}

#[test]
fn add_underline_and_strikeout_persist_and_render_as_stroked_lines() {
    let mut session = open(multipage(5));
    session.add_underline_annotation(0, millionths([100, 600, 300, 630]), RED).unwrap();
    session.add_strikeout_annotation(0, millionths([100, 500, 300, 530]), BLUE).unwrap();
    let doc = reopen(&session);
    let display = shown(&doc, 0).1;
    let has_stroked_line = |color: Color| {
        display.items.iter().any(|item| {
            matches!(item, DisplayItem::Path { paint: PaintOp::Stroke, stroke_color, .. }
                if *stroke_color == color)
        })
    };
    assert!(has_stroked_line(rgb(1, 0, 0)));
    assert!(has_stroked_line(rgb(0, 0, 1)));
}

#[test]
fn undo_and_redo_toggle_annotation_visibility() {
    let mut session = open(multipage(5));
    assert!(!session.can_undo());
    session
        .add_highlight_annotation(0, millionths([100, 600, 300, 630]), YELLOW, vec![])
        .unwrap();
    assert!(session.can_undo());
    assert!(!session.can_redo());

    let page_num = session.document().page(0).unwrap().object_ref.unwrap().num;
    let annots = |session: &EditSession| {
        let page = session.current(page_num).unwrap();
        page.as_dict().unwrap().get("Annots").cloned()
    };
    assert!(matches!(annots(&session), Some(Object::Array(items)) if items.len() == 1));
    assert!(session.undo());
    assert!(match annots(&session) {
        None => true,
        Some(Object::Array(items)) => items.is_empty(),
        _ => false,
    });
    assert!(session.can_redo());
    assert!(session.redo());
    assert!(matches!(annots(&session), Some(Object::Array(items)) if items.len() == 1));
    assert!(!session.redo());
}

#[test]
fn an_edit_after_an_undo_leaves_nothing_to_redo() {
    let mut session = open(multipage(2));
    session.add_underline_annotation(0, millionths([1, 1, 2, 2]), RED).unwrap();
    assert!(session.undo());
    assert!(!session.undo());
    session.add_underline_annotation(1, millionths([1, 1, 2, 2]), RED).unwrap();
    assert!(!session.can_redo());
    assert_eq!(session.page_annotation_refs(0).unwrap().len(), 0);
    assert_eq!(session.page_annotation_refs(1).unwrap().len(), 1);
}

#[test]
fn set_form_field_value_persists_and_renders_after_reopen() {
    let mut session = open(form_pdf());
    session.set_form_field_value("name_field", "Ada Lovelace").unwrap();
    let doc = reopen(&session);
    let root = doc.root().unwrap();
    let acroform = doc.get(root.get("AcroForm").unwrap()).unwrap();
    let fields = doc.get(acroform.as_dict().unwrap().get("Fields").unwrap()).unwrap();
    let field_ref = fields.as_array().unwrap()[0].as_reference().unwrap();
    let field = doc.resolve(field_ref).unwrap();
    assert_eq!(
        field.as_dict().unwrap().get("V").and_then(|o| o.as_text_string()),
        Some("Ada Lovelace".to_string())
    );
    assert!(glyph_count(&shown(&doc, 0).1) >= "Ada Lovelace".len());
}

#[test]
fn form_fields_lists_field_and_reflects_pending_value() {
    let mut session = open(form_pdf());
    let fields = session.form_fields().unwrap();
    assert_eq!(fields.len(), 1);
    assert_eq!(fields[0].name, "name_field");
    assert_eq!(fields[0].value, "");
    assert_eq!(fields[0].rect, [r(100), r(600), r(300), r(620)]);
    session.set_form_field_value("name_field", "Ada Lovelace").unwrap();
    let fields = session.form_fields().unwrap();
    assert_eq!(fields[0].value, "Ada Lovelace");
    assert!(session.undo());
    assert_eq!(session.form_fields().unwrap()[0].value, "");
}

#[test]
fn fields_that_are_not_there_are_refused() {
    let mut session = open(form_pdf());
    assert!(matches!(
        session.set_form_field_value("other", "x"),
        Err(EditError::Refused(Refusal::NoSuchField))
    ));
    assert!(!session.can_undo());
    let mut session = open(multipage(1));
    assert!(matches!(
        session.set_form_field_value("other", "x"),
        Err(EditError::Refused(Refusal::NoAcroForm))
    ));
}

#[test]
fn forms_that_are_not_sound_are_refused() {
    let with_form = |catalog: &str, field: &str| {
        let mut session = open(build(&[
            obj(&format!("<< /Type /Catalog /Pages 2 0 R {catalog} >>")),
            obj("<< /Type /Pages /Kids [3 0 R] /Count 1 >>"),
            obj("<< /Type /Page >>"),
            obj(field),
        ]));
        match session.set_form_field_value("f", "x") {
            Err(EditError::Refused(refusal)) => refusal,
            other => panic!("{other:?}"),
        }
    };
    let field = "<< /FT /Tx /T (f) >>";
    assert_eq!(with_form("/AcroForm 7", field), Refusal::AcroFormIsNotADictionary);
    assert_eq!(with_form("/AcroForm << >>", field), Refusal::NoFields);
    assert_eq!(with_form("/AcroForm << /Fields 7 >>", field), Refusal::FieldsAreNotAnArray);
    assert_eq!(with_form("/AcroForm << /Fields [4 0 R] >>", field), Refusal::FieldHasNoRect);
    assert_eq!(with_form("/AcroForm << /Fields [4 0 R] >>", "7"), Refusal::NoSuchField);
}

#[test]
fn insert_delete_move_rotate_survive_save_and_reopen() {
    let mut session = open(multipage(5));
    assert_eq!(session.page_count().unwrap(), 5);
    session.insert_blank_page(0, [r(0), r(0), r(400), r(400)]).unwrap();
    session.delete_page(3).unwrap();
    let last = session.page_count().unwrap() - 1;
    session.move_page(last, 1).unwrap();
    session.rotate_page(0, 90).unwrap();

    let reopened = reopen(&session);
    assert_eq!(reopened.page_count().unwrap(), 5);
    assert_eq!(reopened.page(0).unwrap().rotate, 90);
    assert_eq!(reopened.page(0).unwrap().media_box, [0, 0, 400, 400]);
    assert_eq!(reopened.page(1).unwrap().media_box, [0, 0, 612, 792]);
    let texts = page_texts(&reopened);
    assert!(texts[0].is_empty());
    assert!(texts[1].contains("Page 5"));
    assert!(texts[2].contains("Page 1"));
    assert!(texts[3].contains("Page 2"));
    assert!(texts[4].contains("Page 4"));
    assert!(!texts.iter().any(|t| t.contains("Page 3")));
}

#[test]
fn rotations_add_up_to_a_full_turn() {
    let mut session = open(multipage(2));
    session.rotate_page(1, 270).unwrap();
    session.rotate_page(1, 180).unwrap();
    assert_eq!(reopen(&session).page(1).unwrap().rotate, 90);
    session.rotate_page(1, -90).unwrap();
    assert_eq!(reopen(&session).page(1).unwrap().rotate, 0);
    assert_eq!(reopen(&session).page(0).unwrap().rotate, 0);
}

#[test]
fn undo_restores_page_order_after_delete() {
    let mut session = open(multipage(5));
    session.delete_page(1).unwrap();
    assert_eq!(session.page_count().unwrap(), 4);
    assert!(session.undo());
    assert_eq!(session.page_count().unwrap(), 5);
    assert!(!session.can_undo());
    assert!(page_texts(&reopen(&session))[1].contains("Page 2"));
}

#[test]
fn a_page_moved_back_stands_where_it_stood() {
    let mut session = open(multipage(4));
    session.move_page(0, 3).unwrap();
    assert!(page_texts(&reopen(&session))[3].contains("Page 1"));
    session.move_page(3, 0).unwrap();
    let texts = page_texts(&reopen(&session));
    for i in 0..4 {
        assert!(texts[i].contains(&format!("Page {}", i + 1)));
    }
}

#[test]
fn pages_that_are_not_there_are_refused() {
    let mut session = open(multipage(2));
    let refused = |r: Result<(), EditError>| match r {
        Err(EditError::Refused(Refusal::NoSuchPage { index, count })) => (index, count),
        other => panic!("{other:?}"),
    };
    assert_eq!(refused(session.delete_page(2)), (2, 2));
    assert_eq!(refused(session.move_page(5, 0)), (5, 2));
    assert_eq!(refused(session.move_page(0, 2)), (2, 2));
    assert_eq!(refused(session.rotate_page(7, 90)), (7, 2));
    assert!(session.add_underline_annotation(2, millionths([0, 0, 1, 1]), RED).is_err());
    assert!(!session.can_undo());
}

#[test]
fn merge_document_appends_real_pages_with_their_resources() {
    let other = Document::open(truetype_pdf()).unwrap();
    let mut session = open(multipage(5));
    session.merge_document(&other).unwrap();
    assert_eq!(session.page_count().unwrap(), 6);
    let reopened = reopen(&session);
    assert_eq!(reopened.page_count().unwrap(), 6);
    let display = shown(&reopened, 5).0;
    let shapes: Vec<&GlyphShape> = display
        .items
        .iter()
        .filter_map(|i| match i {
            DisplayItem::Glyph { shape: Some(s), .. } => Some(s),
            _ => None,
        })
        .collect();
    assert_eq!(shapes, vec![&GlyphShape::TrueType(36)]);
    assert_eq!(display.fonts[0].truetype().unwrap(), shown(&other, 0).0.fonts[0].truetype().unwrap());
}

#[test]
fn pages_of_another_document_stand_where_they_are_put() {
    let other = Document::open(multipage(3)).unwrap();
    let mut session = open(multipage(2));
    session.insert_pages_from(&other, &[2, 0], 1).unwrap();
    let texts = page_texts(&reopen(&session));
    assert_eq!(texts.len(), 4);
    assert!(texts[0].contains("Page 1"));
    assert!(texts[1].contains("Page 3"));
    assert!(texts[2].contains("Page 1"));
    assert!(texts[3].contains("Page 2"));
    assert!(session.insert_pages_from(&other, &[3], 0).is_err());
    assert!(session.undo());
    assert_eq!(session.page_count().unwrap(), 2);
    assert!(session.redo());
    assert_eq!(session.page_count().unwrap(), 4);
}

#[test]
fn extract_pages_produces_a_standalone_reopenable_subset() {
    let doc = Document::open(multipage(5)).unwrap();
    let extracted = extract_pages(&doc, &[1, 3]).unwrap();
    let reopened = Document::open(extracted).unwrap();
    assert_eq!(reopened.page_count().unwrap(), 2);
    let texts = page_texts(&reopened);
    assert!(texts[0].contains("Page 2"));
    assert!(texts[1].contains("Page 4"));
    // The catalog, the node of the pages, two pages with a content each, and one font.
    assert_eq!(reopened.object_count(), 7);
    assert!(extract_pages(&doc, &[5]).is_err());
}

#[test]
fn export_optimized_preserves_all_pages_in_order() {
    let doc = Document::open(multipage(5)).unwrap();
    let optimized = export_optimized(&doc).unwrap();
    let reopened = Document::open(optimized).unwrap();
    assert_eq!(reopened.page_count().unwrap(), 5);
    let texts = page_texts(&reopened);
    for (i, text) in texts.iter().enumerate() {
        assert!(text.contains(&format!("Page {}", i + 1)));
    }
}

#[test]
fn what_no_page_leads_to_is_not_exported() {
    let mut session = open(multipage(5));
    session.delete_page(0).unwrap();
    session.add_underline_annotation(0, millionths([0, 0, 1, 1]), RED).unwrap();
    assert!(session.undo());
    let doc = reopen(&session);
    let optimized = Document::open(export_optimized(&doc).unwrap()).unwrap();
    // Four pages with a content each, the font, the catalog and the node of the pages.
    assert_eq!(optimized.object_count(), 11);
    assert!(doc.object_count() > 11);
}

#[test]
fn insert_image_page_persists_and_renders_after_reopen() {
    let mut session = open(multipage(5));
    session.insert_image_page(0, &jpeg(64, 48, 3)).unwrap();
    assert_eq!(session.page_count().unwrap(), 6);
    let reopened = reopen(&session);
    assert_eq!(reopened.page(0).unwrap().media_box, [0, 0, 64, 48]);
    let display = shown(&reopened, 0).0;
    let image = display
        .items
        .iter()
        .find_map(|item| match item {
            DisplayItem::Image { pixels, .. } => pixels.as_ref(),
            _ => None,
        })
        .unwrap();
    assert_eq!((image.width, image.height), (64, 48));
    assert_eq!(image.rgba, [128, 128, 128, 255].repeat(64 * 48));
}

#[test]
fn images_are_read_by_their_headers() {
    assert_eq!(jpeg_dimensions(&jpeg(64, 48, 3)), Ok((64, 48, 3)));
    assert_eq!(jpeg_dimensions(&jpeg(300, 2, 1)), Ok((300, 2, 1)));
    let fault = PdfError::DecodeError(DecodeProblem::Jpeg);
    assert_eq!(jpeg_dimensions(b"not an image"), Err(fault));
    let mut session = open(multipage(1));
    assert!(matches!(
        session.insert_image_page(0, &[0xFF, 0xD8, 0xFF, 0xD9]),
        Err(EditError::Pdf(PdfError::DecodeError(DecodeProblem::Jpeg)))
    ));
    assert_eq!(session.page_count().unwrap(), 1);
}

#[test]
fn images_are_decoded_to_as_many_samples_as_they_have_components() {
    assert_eq!(jpeg_decode(&jpeg(9, 2, 1)).unwrap(), vec![128; 18]);
    assert_eq!(jpeg_decode(&jpeg(16, 8, 3)).unwrap(), vec![128; 384]);
    assert_eq!(jpeg_decode(&jpeg(16, 8, 4)).unwrap(), vec![128; 512]);
    let fault = PdfError::DecodeError(DecodeProblem::Jpeg);
    assert_eq!(jpeg_decode(&jpeg(16, 8, 1)[..40]), Err(fault));
    assert_eq!(jpeg_color(1), Some(JpegColor::Gray));
    assert_eq!(jpeg_color(4), Some(JpegColor::Cmyk));
    assert_eq!(jpeg_color(2), None);
}

/// A page with an image of one color below a mask.
fn masked_image(mask: &str, data: &[u8]) -> Vec<u8> {
    let doc = Document::open(build(&[
        obj("<< /Type /Catalog /Pages 2 0 R >>"),
        obj("<< /Type /Pages /Kids [3 0 R] /Count 1 >>"),
        obj("<< /Type /Page /Resources << /XObject << /I 5 0 R >> >> /Contents 4 0 R >>"),
        stream("", b"/I Do"),
        stream(
            "/Subtype /Image /Width 2 /Height 2 /ColorSpace /DeviceGray /SMask 6 0 R",
            &[10, 20, 30, 40],
        ),
        stream(&format!("/Subtype /Image {mask}"), data),
    ]))
    .unwrap();
    match &shown(&doc, 0).0.items[0] {
        DisplayItem::Image { pixels: Some(p), .. } => p.rgba.clone(),
        _ => panic!("expected pixels"),
    }
}

#[test]
fn real_fixture_decodes_smask_alpha_channel() {
    let rgba = masked_image("/Width 2 /Height 2 /ColorSpace /DeviceGray", &[128, 129, 130, 131]);
    let alphas: Vec<u8> = rgba.chunks_exact(4).map(|p| p[3]).collect();
    assert!(alphas.iter().any(|&a| a < 250));
    assert_eq!(alphas, vec![128, 129, 130, 131]);
    assert_eq!(rgba[4..7], [20, 20, 20]);
}

#[test]
fn masks_of_another_size_cover_the_same_square() {
    let alphas = |mask: &str, data: &[u8]| -> Vec<u8> {
        masked_image(mask, data).chunks_exact(4).map(|p| p[3]).collect()
    };
    assert_eq!(alphas("/Width 1 /Height 1 /ColorSpace /DeviceGray", &[7]), vec![7; 4]);
    assert_eq!(
        alphas("/Width 4 /Height 1 /ColorSpace /DeviceGray", &[1, 2, 3, 4]),
        vec![1, 3, 1, 3]
    );
    // A mask that cannot be decoded hides nothing.
    assert_eq!(alphas("/Width 4 /Height 1 /ColorSpace /Other", &[1, 2, 3, 4]), vec![255; 4]);
}

#[test]
fn real_fixture_decodes_embedded_jpeg_image() {
    let doc = Document::open(build(&[
        obj("<< /Type /Catalog /Pages 2 0 R >>"),
        obj("<< /Type /Pages /Kids [3 0 R] /Count 1 >>"),
        obj("<< /Type /Page /Resources << /XObject << /I 5 0 R >> >> /Contents 4 0 R >>"),
        stream("", b"/I Do"),
        stream(
            "/Subtype /Image /Width 120 /Height 80 /ColorSpace /DeviceRGB /Filter /DCTDecode",
            &jpeg(120, 80, 3),
        ),
    ]))
    .unwrap();
    let display = shown(&doc, 0).0;
    let image = display
        .items
        .iter()
        .find_map(|item| match item {
            DisplayItem::Image { pixels, .. } => pixels.as_ref(),
            _ => None,
        })
        .unwrap();
    assert_eq!(image.width, 120);
    assert_eq!(image.height, 80);
    assert_eq!(image.rgba.len(), 120 * 80 * 4);
}

#[test]
fn add_free_text_annotation_persists_and_renders_after_reopen() {
    let mut session = open(multipage(5));
    session
        .add_free_text_annotation(0, millionths([50, 50, 250, 80]), "Nouvelle note", 14_000_000, BLACK)
        .unwrap();
    let reopened = reopen(&session);
    let (base, all) = shown(&reopened, 0);
    assert_eq!(glyph_count(&all), glyph_count(&base) + "Nouvelle note".len());
}

#[test]
fn replace_text_with_overlay_covers_without_deleting_original_content() {
    let mut session = open(multipage(5));
    session
        .replace_text_with_overlay(
            0,
            millionths([72, 715, 400, 735]),
            "Texte remplacé",
            18_000_000,
            BLACK,
            WHITE,
        )
        .unwrap();
    let reopened = reopen(&session);
    let (base, all) = shown(&reopened, 0);
    assert!(extract_text(&base).contains("Page 1"));
    assert!(all.items.iter().any(|item| {
        matches!(item, DisplayItem::Path { fill_color, .. } if *fill_color == rgb(1, 1, 1))
    }));
    assert!(extract_text(&all).contains("Texte remplac"));
}

#[test]
fn remove_annotation_deletes_the_reference_and_persists() {
    let mut session = open(multipage(5));
    session
        .add_highlight_annotation(0, millionths([100, 600, 300, 630]), YELLOW, vec![])
        .unwrap();
    session
        .add_free_text_annotation(0, millionths([50, 50, 250, 80]), "Note", 14_000_000, BLACK)
        .unwrap();
    assert_eq!(session.page_annotation_refs(0).unwrap().len(), 2);
    session.remove_annotation(0, 0).unwrap();
    assert_eq!(session.page_annotation_refs(0).unwrap().len(), 1);
    assert!(matches!(
        session.remove_annotation(0, 1),
        Err(EditError::Refused(Refusal::NoSuchAnnotation { index: 1, count: 1 }))
    ));
    assert_eq!(annotation_count(&reopen(&session), 0), 1);
}

#[test]
fn what_was_not_edited_is_kept_as_it_was() {
    let data = multipage(3);
    let mut session = open(data.clone());
    session.add_underline_annotation(1, millionths([0, 0, 1, 1]), RED).unwrap();
    let saved = session.to_bytes().unwrap();
    assert_eq!(saved[..data.len()], data[..]);
    let (before, after) = (Document::open(data).unwrap(), Document::open(saved).unwrap());
    assert_eq!(page_texts(&before), page_texts(&after));
    let page = before.page(2).unwrap();
    assert_eq!(page.dict, after.page(2).unwrap().dict);
}

#[test]
fn brackets_and_backslashes_of_a_text_are_shown() {
    let mut session = open(multipage(1));
    session
        .add_free_text_annotation(0, millionths([50, 50, 250, 80]), "a(b)\\c \u{4E2D}", 14_000_000, BLACK)
        .unwrap();
    let text = extract_text(&shown(&reopen(&session), 0).1);
    assert!(text.contains("a(b)\\c ?"));
}

#[test]
fn saving_twice_keeps_what_was_saved_first() {
    let mut session = open(multipage(2));
    session.add_underline_annotation(0, millionths([0, 0, 1, 1]), RED).unwrap();
    let mut again = open(session.to_bytes().unwrap());
    again.add_strikeout_annotation(1, millionths([0, 0, 1, 1]), BLUE).unwrap();
    let doc = reopen(&again);
    assert_eq!(annotation_count(&doc, 0), 1);
    assert_eq!(annotation_count(&doc, 1), 1);
    assert!(page_texts(&doc)[1].contains("Page 2"));
}

/// A JPEG image of one gray with the scans and the sampling given; `frame` is its marker.
fn scanned(frame: u8, sampling: &[u8], first: u8, size: u16, scans: &[&[u8]]) -> Vec<u8> {
    let mut out = vec![0xFF, 0xD8, 0xFF, 0xFE, 0, 4, 1, 2, 0xFF, 0xDB, 0, 67, 0, first];
    out.extend_from_slice(&[1; 63]);
    out.extend_from_slice(&[0xFF, frame, 0, 8 + 3 * sampling.len() as u8, 8]);
    out.extend_from_slice(&size.to_be_bytes());
    out.extend_from_slice(&size.to_be_bytes());
    out.push(sampling.len() as u8);
    for (i, s) in sampling.iter().enumerate() {
        out.extend_from_slice(&[i as u8 + 1, *s, 0]);
    }
    for class in [0x00, 0x10] {
        out.extend_from_slice(&[0xFF, 0xC4, 0, 20, class, 1]);
        out.extend_from_slice(&[0; 16]);
    }
    for scan in scans {
        out.extend_from_slice(&[0xFF, 0xDA]);
        out.extend_from_slice(scan);
        out.extend_from_slice(&[0; 2]);
    }
    out.extend_from_slice(&[0xFF, 0xD9]);
    out
}

#[test]
fn sampled_and_staged_images_are_decoded() {
    let whole: &[u8] = &[0, 12, 3, 1, 0, 2, 0, 3, 0, 0, 63, 0];
    let sampled = scanned(0xC0, &[0x22, 0x11, 0x11], 1, 16, &[whole]);
    assert_eq!(jpeg_decode(&sampled).unwrap(), vec![128; 768]);
    let across = scanned(0xC1, &[0x21, 0x21, 0x11], 1, 16, &[whole]);
    assert_eq!(jpeg_decode(&across).unwrap(), vec![128; 768]);
    let staged = scanned(0xC2, &[0x11, 0x11, 0x11], 1, 8, &[&[0, 12, 3, 1, 0, 2, 0, 3, 0, 0, 0, 0]]);
    assert_eq!(jpeg_decode(&staged).unwrap(), vec![128; 192]);
    let apart = scanned(
        0xC0,
        &[0x11, 0x11, 0x11],
        1,
        8,
        &[&[0, 8, 1, 1, 0, 0, 63, 0], &[0, 8, 1, 2, 0, 0, 63, 0], &[0, 8, 1, 3, 0, 0, 63, 0]],
    );
    assert_eq!(jpeg_decode(&apart).unwrap(), vec![128; 192]);
}

#[test]
fn components_can_be_sampled_up_to_four_times() {
    let whole: &[u8] = &[0, 12, 3, 1, 0, 2, 0, 3, 0, 0, 63, 0];
    for sampling in [[0x41, 0x11, 0x11], [0x42, 0x21, 0x11], [0x13, 0x11, 0x11], [0x11, 0x21, 0x11]] {
        let mut image = scanned(0xC0, &sampling, 1, 8, &[whole]);
        let end = image.len() - 2;
        image.splice(end..end, [0; 4]);
        assert_eq!(jpeg_decode(&image).unwrap(), vec![128; 192]);
    }
    let staged = scanned(
        0xC2,
        &[0x11, 0x21, 0x11],
        1,
        8,
        &[&[0, 12, 3, 1, 0, 2, 0, 3, 0, 0, 0, 0]],
    );
    assert_eq!(jpeg_decode(&staged).unwrap(), vec![128; 192]);
    let gray = scanned(0xC0, &[0x42], 1, 8, &[&[0, 8, 1, 1, 0, 0, 63, 0]]);
    assert_eq!(jpeg_decode(&gray).unwrap(), vec![128; 64]);
    let apart = scanned(0xC0, &[0x44, 0x42, 0x11], 1, 8, &[whole]);
    assert_eq!(jpeg_decode(&apart), Err(PdfError::DecodeError(DecodeProblem::Jpeg)));
}

#[test]
fn images_that_cannot_be_decoded_are_errors() {
    let fault = || Err(PdfError::DecodeError(DecodeProblem::Jpeg));
    let no_table = scanned(
        0xC0,
        &[0x11, 0x11, 0x11],
        1,
        8,
        &[&[0, 8, 1, 1, 0, 0, 63, 0], &[0, 8, 1, 2, 0x33, 0, 63, 0]],
    );
    assert_eq!(jpeg_decode(&no_table), fault());
    let odd = scanned(0xC0, &[0x31, 0x11, 0x11], 1, 8, &[&[0, 12, 3, 1, 0, 2, 0, 3, 0, 0, 63, 0]]);
    assert_eq!(jpeg_decode(&odd), fault());
    let none = scanned(0xC0, &[0x11], 1, 8, &[]);
    assert_eq!(jpeg_decode(&none), fault());
    let lossless = scanned(0xC3, &[0x11], 1, 8, &[&[0, 8, 1, 1, 0, 0, 63, 0]]);
    assert_eq!(jpeg_decode(&lossless), fault());
    let mut far = scanned(0xC0, &[0x11], 255, 16_000, &[&[0, 8, 1, 1, 0, 0, 63, 0]]);
    let size = far.iter().position(|b| *b == 0xC4).unwrap() + 20;
    far[size] = 11;
    assert_eq!(jpeg_decode(&far), fault());
}

/// An image of a million pixels for each of some components, with codes for differences of the
/// sizes given, and segments before and between its scans.
fn large(components: u8, codes: &[u8], before: &[u8], scans: &[Vec<u8>]) -> Vec<u8> {
    let mut out = vec![0xFF, 0xD8, 0xFF, 0xDB, 0, 67, 0, 255];
    out.extend_from_slice(&[1; 63]);
    out.extend_from_slice(&[0xFF, 0xC0, 0, 8 + 3 * components, 8, 3, 232, 3, 232, components]);
    for c in 0..components {
        out.extend_from_slice(&[c + 1, 0x11, 0]);
    }
    out.extend_from_slice(&[0xFF, 0xC4, 0, 19 + codes.len() as u8, 0, 1, codes.len() as u8 - 1]);
    out.extend_from_slice(&[0; 14]);
    out.extend_from_slice(codes);
    out.extend_from_slice(&[0xFF, 0xC4, 0, 20, 0x10, 1]);
    out.extend_from_slice(&[0; 16]);
    out.extend_from_slice(before);
    for scan in scans {
        out.extend_from_slice(scan);
    }
    out.extend_from_slice(&[0xFF, 0xD9]);
    out
}

fn scan_of(component: u8, data: &[u8]) -> Vec<u8> {
    let mut out = vec![0xFF, 0xDA, 0, 8, 1, component, 0, 0, 63, 0];
    out.extend_from_slice(data);
    out
}

#[test]
fn large_images_are_decoded_where_their_coefficients_stay_small() {
    let fault = || Err(PdfError::DecodeError(DecodeProblem::Jpeg));
    let even = large(1, &[0, 11], &[], &[scan_of(1, &[0; 3907])]);
    assert_eq!(jpeg_decode(&even).unwrap(), vec![128; 1_000_000]);
    let sinking = large(1, &[11], &[], &[scan_of(1, &vec![0; 26_000])]);
    assert_eq!(jpeg_decode(&sinking), fault());
    let nearly = large(1, &[0, 11], &[], &[scan_of(1, &[0; 3900])]);
    assert_eq!(jpeg_decode(&nearly).unwrap().len(), 1_000_000);
    let half = large(1, &[0, 11], &[], &[scan_of(1, &[0; 1900])]);
    assert_eq!(jpeg_decode(&half), fault());
}

#[test]
fn restarts_are_followed() {
    let interval = [0xFF, 0xDD, 0, 4, 0, 125];
    let mut rows = Vec::new();
    for row in 0..125u8 {
        rows.extend_from_slice(&[0; 204]);
        if row < 124 {
            rows.extend_from_slice(&[0xFF, 0xD0 + row % 8]);
        }
    }
    let sinking = large(1, &[11], &interval, &[scan_of(1, &rows)]);
    assert_eq!(jpeg_decode(&sinking).unwrap(), vec![0; 1_000_000]);
    let missing = large(1, &[11], &interval, &[scan_of(1, &vec![0; 26_000])]);
    assert_eq!(jpeg_decode(&missing), Err(PdfError::DecodeError(DecodeProblem::Jpeg)));
}

#[test]
fn scans_of_one_component_each_are_followed() {
    let mut second = vec![0xFF, 0xC4, 0, 21, 0, 1, 1];
    second.extend_from_slice(&[0; 14]);
    second.extend_from_slice(&[0, 9]);
    second.extend_from_slice(&scan_of(2, &[0; 3907]));
    let scans = [scan_of(1, &[0; 3907]), second, scan_of(3, &[0; 3907])];
    let even = large(3, &[0, 11], &[], &scans);
    assert_eq!(jpeg_decode(&even).unwrap().len(), 3_000_000);
    let sinking = large(3, &[11], &[], &[scan_of(1, &vec![0; 26_000]), scan_of(2, &[0; 100])]);
    assert_eq!(jpeg_decode(&sinking), Err(PdfError::DecodeError(DecodeProblem::Jpeg)));
}

#[test]
fn scans_of_one_component_can_restart() {
    let interval = [0xFF, 0xDD, 0, 4, 0, 125];
    let mut rows = Vec::new();
    for row in 0..125u8 {
        rows.extend_from_slice(&[0; 204]);
        if row < 124 {
            rows.extend_from_slice(&[0xFF, 0xD0 + row % 8]);
        }
    }
    let scans = [scan_of(1, &rows), scan_of(2, &rows), scan_of(3, &rows)];
    assert_eq!(jpeg_decode(&large(3, &[11], &interval, &scans)).unwrap().len(), 3_000_000);
    let uneven = [0xFF, 0xDD, 0, 4, 0, 124];
    let fault = Err(PdfError::DecodeError(DecodeProblem::Jpeg));
    assert_eq!(jpeg_decode(&large(3, &[11], &uneven, &scans)), fault);
}

#[test]
fn many_scans_wide_tables_and_moving_pictures_are_decoded() {
    let scan: &[u8] = &[0, 8, 1, 1, 0, 0, 63, 0];
    let many = scanned(0xC0, &[0x11], 1, 8, &[scan; 120]);
    assert_eq!(jpeg_decode(&many).unwrap(), vec![128; 64]);
    let mut wide = scanned(0xC0, &[0x11], 1, 8, &[scan]);
    let table = wide.windows(2).position(|w| w == [0xFF, 0xDB]).unwrap();
    let mut entries = vec![0xFF, 0xDB, 0, 131, 16];
    entries.extend_from_slice(&[1, 0].repeat(64));
    wide.splice(table..table + 69, entries);
    assert_eq!(jpeg_decode(&wide).unwrap(), vec![128; 64]);
    let mut moving = vec![0xFF, 0xD8, 0xFF, 0xE0, 0, 8, b'A', b'V', b'I', b'1', 0, 0];
    moving.extend_from_slice(&[0xFF, 0xDB, 0, 67, 0]);
    moving.extend_from_slice(&[1; 64]);
    moving.extend_from_slice(&[0xFF, 0xC0, 0, 11, 8, 0, 8, 0, 8, 1, 1, 0x11, 0]);
    moving.extend_from_slice(&[0xFF, 0xDA, 0, 8, 1, 1, 0, 0, 63, 0, 0x2B, 0xFF, 0xD9]);
    assert_eq!(jpeg_decode(&moving).unwrap(), vec![128; 64]);
}

#[test]
fn a_stream_with_a_wrong_length_is_kept_as_it_was() {
    for length in [2, 30, 9999] {
        let data = build(&[
            obj("<< /Type /Catalog /Pages 2 0 R >>"),
            obj("<< /Type /Pages /Kids [3 0 R] /Count 1 /MediaBox [0 0 612 792] >>"),
            obj("<< /Type /Page /Parent 2 0 R /Contents 4 0 R >>"),
            obj(&format!("<< /Length {length} >>\nstream\n0 0 10 10 re f\nendstream")),
        ]);
        let before = Document::open(data.clone()).unwrap();
        let page = before.page(0).unwrap();
        let content = before.page_content(&page).unwrap();
        assert!(content.starts_with(b"0 0 10 10 re f"));
        let mut session = open(data);
        session.add_underline_annotation(0, millionths([0, 0, 1, 1]), RED).unwrap();
        let after = reopen(&session);
        let page = after.page(0).unwrap();
        assert_eq!(after.page_content(&page).unwrap(), content);
    }
}

#[test]
fn edits_of_all_kinds_are_taken_back_and_made_again() {
    let mut session = open(multipage(3));
    session.rotate_page(0, 90).unwrap();
    session.move_page(0, 2).unwrap();
    session.add_underline_annotation(1, millionths([0, 0, 1, 1]), RED).unwrap();
    session.delete_page(0).unwrap();
    let all = page_texts(&reopen(&session));
    while session.undo() {}
    assert_eq!(session.page_count().unwrap(), 3);
    assert_eq!(page_texts(&reopen(&session))[0], page_texts(&reopen(&open(multipage(3))))[0]);
    while session.redo() {}
    assert_eq!(page_texts(&reopen(&session)), all);
}

#[test]
fn a_new_file_has_the_pages_with_their_boxes_and_turns() {
    let data = build(&[
        obj("<< /Type /Catalog /Pages 2 0 R >>"),
        obj("<< /Type /Pages /Kids [3 0 R 4 0 R 5 0 R] /Count 3 /MediaBox [0 0 100 200] /Rotate 90 >>"),
        obj("<< /Type /Page /Parent 2 0 R >>"),
        obj("<< /Type /Page /Parent 2 0 R /MediaBox [-5 0 300.5 400] >>"),
        obj("<< /Type /Page /Parent 2 0 R /Rotate 180 >>"),
    ]);
    let doc = Document::open(data.clone()).unwrap();
    let new = Document::open(extract_pages(&doc, &[2, 0, 1]).unwrap()).unwrap();
    assert_eq!(new.page_count().unwrap(), 3);
    let boxes: Vec<[i64; 4]> = (0..3).map(|i| new.page(i).unwrap().media_box).collect();
    assert_eq!(boxes, [[0, 0, 100, 200], [0, 0, 100, 200], [-5, 0, 300, 400]]);
    let turns: Vec<i32> = (0..3).map(|i| new.page(i).unwrap().rotate).collect();
    assert_eq!(turns, [180, 90, 90]);
    let mut session = open(data);
    session.rotate_page(1, 90).unwrap();
    session.merge_document(&doc).unwrap();
    let saved = reopen(&session);
    assert_eq!(saved.page_count().unwrap(), 6);
    let turns: Vec<i32> = (0..6).map(|i| saved.page(i).unwrap().rotate).collect();
    assert_eq!(turns, [90, 180, 180, 90, 90, 180]);
    assert_eq!(saved.page(4).unwrap().media_box, [-5, 0, 300, 400]);
}

#[test]
fn numbers_without_an_object_stay_so_when_a_file_is_saved() {
    let mut session = open(multipage(1));
    session.add_underline_annotation(0, millionths([0, 0, 1, 1]), RED).unwrap();
    let (before, after) = (Document::open(multipage(1)).unwrap(), reopen(&session));
    let missing = ObjRef::new(500, 0);
    assert_eq!(before.resolve(missing), Err(PdfError::ObjectNotFound(500, 0)));
    assert_eq!(after.resolve(missing), before.resolve(missing));
}
