use papyrus_pdf::document::Document;
use papyrus_pdf::error::PdfError;
use papyrus_pdf::object::{Dictionary, ObjRef, Object, Stream};
use std::io::Write;

fn offset_of(data: &[u8], needle: &str) -> usize {
    data.windows(needle.len())
        .position(|w| w == needle.as_bytes())
        .unwrap()
}

fn minimal_pdf() -> Vec<u8> {
    let body = concat_all(&[
        "%PDF-1.7\n",
        "1 0 obj\n<< /Type /Catalog /Pages 2 0 R >>\nendobj\n",
        "2 0 obj\n<< /Type /Pages /Kids [3 0 R] /Count 1 >>\nendobj\n",
        "3 0 obj\n<< /Type /Page /Parent 2 0 R /MediaBox [0 0 612 792] >>\nendobj\n",
    ]);
    let mut bytes = body.as_bytes().to_vec();
    let off1 = offset_of(&bytes, "1 0 obj");
    let off2 = offset_of(&bytes, "2 0 obj");
    let off3 = offset_of(&bytes, "3 0 obj");
    let xref_offset = bytes.len();
    let xref = format!(
        "xref\n0 4\n0000000000 65535 f \n{:010} 00000 n \n{:010} 00000 n \n{:010} 00000 n \ntrailer\n<< /Size 4 /Root 1 0 R >>\nstartxref\n{}\n%%EOF",
        off1, off2, off3, xref_offset
    );
    bytes.extend_from_slice(xref.as_bytes());
    bytes
}

fn concat_all(parts: &[&str]) -> String {
    parts.concat()
}

#[test]
fn opens_minimal_pdf_and_resolves_page_count() {
    let doc = Document::open(minimal_pdf()).unwrap();
    assert_eq!(doc.object_count(), 3);
    assert_eq!(doc.page_count().unwrap(), 1);
    let root = doc.root().unwrap();
    assert_eq!(root.get("Type").unwrap().as_name(), Some("Catalog"));
}

#[test]
fn save_incremental_appends_new_and_updated_objects_readable_after_reopen() {
    let original = minimal_pdf();
    let doc = Document::open(original.clone()).unwrap();
    let next_num = doc.next_free_object_num();
    assert_eq!(next_num, 4, "objects 1..3 already used by minimal_pdf()");

    let new_marker = Object::Integer(999);
    let new_ref = ObjRef::new(next_num, 0);

    let mut updated_page = doc
        .resolve(ObjRef::new(3, 0))
        .unwrap()
        .as_dict()
        .unwrap()
        .clone();
    updated_page.insert("Marker", Object::Reference(new_ref));

    let new_bytes = doc
        .save_incremental(&[
            (new_ref, new_marker),
            (ObjRef::new(3, 0), Object::Dictionary(updated_page)),
        ])
        .unwrap();

    assert!(
        new_bytes.starts_with(&original),
        "incremental save must never rewrite the original file bytes, only append"
    );

    let reopened = Document::open(new_bytes).unwrap();
    assert_eq!(reopened.page_count().unwrap(), 1);

    let page = reopened.page(0).unwrap();
    let marker_ref = page.dict.get("Marker").unwrap().as_reference().unwrap();
    assert_eq!(marker_ref, new_ref);
    let marker_value = reopened.resolve(marker_ref).unwrap();
    assert_eq!(marker_value.as_int(), Some(999));
}

#[test]
fn falls_back_to_reconstruction_without_valid_xref() {
    let body = concat_all(&[
        "%PDF-1.7\n",
        "1 0 obj\n<< /Type /Catalog /Pages 2 0 R >>\nendobj\n",
        "2 0 obj\n<< /Type /Pages /Kids [3 0 R] /Count 1 >>\nendobj\n",
    ]);
    let broken = body.as_bytes().to_vec();
    let doc = Document::open(broken).unwrap();
    assert_eq!(doc.object_count(), 2);
    assert_eq!(doc.root().unwrap().get("Type").unwrap().as_name(), Some("Catalog"));
}

#[test]
fn an_object_that_is_not_there_is_named() {
    let doc = Document::open(minimal_pdf()).unwrap();
    assert_eq!(
        doc.resolve(ObjRef::new(9, 1)).unwrap_err(),
        PdfError::ObjectNotFound(9, 1)
    );
}

fn compressed(data: &[u8]) -> Vec<u8> {
    let mut e = flate2::write::ZlibEncoder::new(Vec::new(), flate2::Compression::default());
    e.write_all(data).unwrap();
    e.finish().unwrap()
}

/// A document whose pages are in a compressed object stream, with a compressed table.
fn stream_pdf(count: usize) -> Vec<u8> {
    let kids: Vec<String> = (0..count).map(|i| format!("{} 0 R", 3 + i)).collect();
    let mut bodies = vec![
        "<< /Type /Catalog /Pages 2 0 R >>".to_string(),
        format!("<< /Type /Pages /Kids [{}] /Count {count} >>", kids.join(" ")),
    ];
    for _ in 0..count {
        bodies.push("<< /Type /Page /Parent 2 0 R /MediaBox [0 0 612 792] >>".to_string());
    }
    let mut index = String::new();
    let mut text = String::new();
    for (i, b) in bodies.iter().enumerate() {
        index.push_str(&format!("{} {} ", i + 1, text.len()));
        text.push_str(b);
        text.push(' ');
    }
    let holder = bodies.len() + 1;
    let data = compressed((index.clone() + &text).as_bytes());
    let mut out = b"%PDF-1.7\n".to_vec();
    let at = out.len();
    out.extend_from_slice(
        format!(
            "{holder} 0 obj\n<< /Type /ObjStm /N {} /First {} /Filter /FlateDecode /Length {} >>\nstream\n",
            bodies.len(),
            index.len(),
            data.len()
        )
        .as_bytes(),
    );
    out.extend_from_slice(&data);
    out.extend_from_slice(b"\nendstream\nendobj\n");
    // One byte for the kind, two for the place or the holder, one for the rest; each row is
    // written as its difference from the row above.
    let mut rows: Vec<[u8; 4]> = vec![[0, 0, 0, 255]];
    for i in 0..bodies.len() {
        rows.push([2, 0, holder as u8, i as u8]);
    }
    rows.push([1, 0, at as u8, 0]);
    let mut table = Vec::new();
    let mut above = [0u8; 4];
    for row in &rows {
        table.push(2);
        for k in 0..4 {
            table.push(row[k].wrapping_sub(above[k]));
        }
        above = *row;
    }
    let table = compressed(&table);
    let xref = out.len();
    out.extend_from_slice(
        format!(
            "{} 0 obj\n<< /Type /XRef /Size {} /W [1 2 1] /Root 1 0 R /Filter /FlateDecode /DecodeParms << /Predictor 12 /Columns 4 >> /Length {} >>\nstream\n",
            holder + 1,
            rows.len(),
            table.len()
        )
        .as_bytes(),
    );
    out.extend_from_slice(&table);
    out.extend_from_slice(format!("\nendstream\nendobj\nstartxref\n{xref}\n%%EOF").as_bytes());
    out
}

#[test]
fn opens_real_pdf_with_xref_stream_and_object_streams() {
    let doc = Document::open(stream_pdf(5)).unwrap();
    assert_eq!(doc.page_count().unwrap(), 5);
    let root = doc.root().unwrap();
    assert_eq!(root.get("Type").unwrap().as_name(), Some("Catalog"));
}

#[test]
fn recovers_real_pdf_missing_xref_via_catalog_scan() {
    let mut text = String::from("%PDF-1.7\n1 0 obj\n<< /Type /Catalog /Pages 2 0 R >>\nendobj\n");
    text.push_str("2 0 obj\n<< /Type /Pages /Kids [3 0 R 4 0 R 5 0 R 6 0 R 7 0 R] /Count 5 >>\nendobj\n");
    for i in 3..8 {
        text.push_str(&format!("{i} 0 obj\n<< /Type /Page /Parent 2 0 R >>\nendobj\n"));
    }
    text.push_str("startxref\n99999\n%%EOF");
    let doc = Document::open(text.into_bytes()).unwrap();
    assert_eq!(doc.page_count().unwrap(), 5);
}

#[test]
fn opens_pdf_with_acroform_without_crashing() {
    let text = "%PDF-1.7\n1 0 obj\n<< /Type /Catalog /Pages 2 0 R /AcroForm << /Fields [] >> >>\nendobj\n2 0 obj\n<< /Type /Pages /Kids [3 0 R] /Count 1 >>\nendobj\n3 0 obj\n<< /Type /Page /Parent 2 0 R >>\nendobj\n";
    let doc = Document::open(text.as_bytes().to_vec()).unwrap();
    assert_eq!(doc.page_count().unwrap(), 1);
    let root = doc.root().unwrap();
    assert!(root.get("AcroForm").is_some());
}

#[test]
fn resolves_a_three_level_incremental_update_chain() {
    let mut bytes = minimal_pdf();
    let mut content = String::new();
    for revision in 1..=4 {
        content.push_str(&format!("(Revision {revision}) Tj\n"));
        let doc = Document::open(bytes).unwrap();
        let stream = Stream { dict: Dictionary::new(), raw_data: content.as_bytes().to_vec() };
        let mut objects = vec![(ObjRef::new(9, 0), Object::Stream(stream))];
        if revision == 1 {
            let mut page = doc.page(0).unwrap().dict;
            page.insert("Contents", Object::Reference(ObjRef::new(9, 0)));
            objects.push((ObjRef::new(3, 0), Object::Dictionary(page)));
        }
        bytes = doc.save_incremental(&objects).unwrap();
    }
    let doc = Document::open(bytes).unwrap();
    assert_eq!(doc.page_count().unwrap(), 1);
    let page = doc.page(0).unwrap();
    let content = doc.page_content(&page).unwrap();
    let text = String::from_utf8_lossy(&content);
    for revision in ["Revision 1", "Revision 2", "Revision 3", "Revision 4"] {
        assert!(text.contains(revision));
    }
}
