use flate2::write::ZlibEncoder;
use flate2::Compression;
use papyrus_pdf::error::{DecodeProblem, PdfError};
use papyrus_pdf::filters::{
    apply_predictor, ascii85_decode, ascii_hex_decode, decode_stream, flate_decode, lzw_decode,
    paeth, png_predictor, tiff_predictor,
};
use papyrus_pdf::object::{Dictionary, Object, Stream};
use std::io::Write;

fn bits_to_bytes(bits: &str) -> Vec<u8> {
    let mut bits = bits.to_string();
    while bits.len() % 8 != 0 {
        bits.push('0');
    }
    bits.as_bytes()
        .chunks(8)
        .map(|c| u8::from_str_radix(std::str::from_utf8(c).unwrap(), 2).unwrap())
        .collect()
}

#[test]
fn flate_roundtrip() {
    let mut encoder = ZlibEncoder::new(Vec::new(), Compression::default());
    encoder.write_all(b"Hello, PDF!").unwrap();
    let compressed = encoder.finish().unwrap();
    let decoded = flate_decode(&compressed).unwrap();
    assert_eq!(decoded, b"Hello, PDF!");
}

#[test]
fn bad_flate_data_is_an_error() {
    assert_eq!(
        flate_decode(b"not zlib"),
        Err(PdfError::DecodeError(DecodeProblem::Flate))
    );
}

#[test]
fn ascii_hex_roundtrip() {
    let decoded = ascii_hex_decode(b"48656C6C6F>").unwrap();
    assert_eq!(decoded, b"Hello");
}

#[test]
fn ascii_hex_edge_cases() {
    assert_eq!(ascii_hex_decode(b"4 1\n7").unwrap(), vec![0x41, 0x70]);
    assert_eq!(
        ascii_hex_decode(b"4g"),
        Err(PdfError::DecodeError(DecodeProblem::AsciiHex))
    );
}

#[test]
fn ascii85_roundtrip() {
    let decoded = ascii85_decode(b"87cURD_*#4DfTZ)+T~>").unwrap();
    assert_eq!(decoded, b"Hello, World!");
}

#[test]
fn ascii85_edge_cases() {
    assert_eq!(ascii85_decode(b"<~z~>").unwrap(), vec![0, 0, 0, 0]);
    assert_eq!(ascii85_decode(b"").unwrap(), Vec::<u8>::new());
    assert_eq!(
        ascii85_decode(b"\x01"),
        Err(PdfError::DecodeError(DecodeProblem::Ascii85))
    );
}

#[test]
fn png_predictor_none_filter_is_identity() {
    let data = [0u8, 1, 2, 3, 0, 4, 5, 6];
    let decoded = png_predictor(&data, 3, 1).unwrap();
    assert_eq!(decoded, vec![1, 2, 3, 4, 5, 6]);
}

#[test]
fn png_predictor_up_filter() {
    let data = [0u8, 1, 2, 3, 2, 1, 1, 1];
    let decoded = png_predictor(&data, 3, 1).unwrap();
    assert_eq!(decoded, vec![1, 2, 3, 2, 3, 4]);
}

#[test]
fn png_predictor_other_filters() {
    assert_eq!(png_predictor(&[1, 250, 10, 1], 3, 1).unwrap(), vec![250, 4, 5]);
    assert_eq!(
        png_predictor(&[0, 10, 20, 3, 1, 1], 2, 1).unwrap(),
        vec![10, 20, 6, 14]
    );
    assert_eq!(
        png_predictor(&[0, 10, 20, 4, 1, 1], 2, 1).unwrap(),
        vec![10, 20, 11, 21]
    );
    assert_eq!(paeth(1, 2, 3), 1);
    assert_eq!(paeth(9, 2, 3), 9);
    assert_eq!(paeth(3, 9, 3), 9);
    assert_eq!(
        png_predictor(&[9, 1], 1, 1),
        Err(PdfError::DecodeError(DecodeProblem::Predictor))
    );
    assert_eq!(
        png_predictor(&[0, 1, 2], 1, 1),
        Err(PdfError::DecodeError(DecodeProblem::Predictor))
    );
}

#[test]
fn tiff_predictor_roundtrip() {
    let data = [10u8, 5, 5, 5];
    let decoded = tiff_predictor(&data, 4, 1);
    assert_eq!(decoded, vec![10, 15, 20, 25]);
}

#[test]
fn lzw_roundtrip_ascii() {
    let mut bits = String::new();
    bits.push_str(&format!("{:09b}", 65u16));
    bits.push_str(&format!("{:09b}", 257u16));
    let bytes = bits_to_bytes(&bits);
    let decoded = lzw_decode(&bytes).unwrap();
    assert_eq!(decoded, vec![65]);
}

#[test]
fn lzw_codes_above_the_reserved_ones_are_table_entries() {
    let mut bits = String::new();
    for code in [256u16, 45, 258, 258, 65, 259, 66, 257] {
        bits.push_str(&format!("{:09b}", code));
    }
    assert_eq!(lzw_decode(&bits_to_bytes(&bits)).unwrap(), b"-----A---B");
}

#[test]
fn lzw_code_out_of_sequence_is_an_error() {
    let bytes = bits_to_bytes(&format!("{:09b}", 300u16));
    assert_eq!(
        lzw_decode(&bytes),
        Err(PdfError::DecodeError(DecodeProblem::Lzw))
    );
}

fn dict(entries: &[(&str, Object)]) -> Dictionary {
    let mut d = Dictionary::new();
    for (k, v) in entries {
        d.insert(k, v.clone());
    }
    d
}

#[test]
fn filters_are_undone_in_order() {
    let stream = Stream {
        dict: dict(&[(
            "Filter",
            Object::Array(vec![
                Object::Name("AHx".into()),
                Object::Name("ASCII85Decode".into()),
            ]),
        )]),
        raw_data: b"7A7E3E>".to_vec(),
    };
    assert_eq!(decode_stream(&stream).unwrap(), vec![0, 0, 0, 0]);
}

#[test]
fn a_predictor_is_undone_behind_its_filter() {
    let stream = Stream {
        dict: dict(&[
            ("Filter", Object::Name("ASCIIHexDecode".into())),
            (
                "DecodeParms",
                Object::Dictionary(dict(&[
                    ("Predictor", Object::Integer(12)),
                    ("Columns", Object::Integer(2)),
                ])),
            ),
        ]),
        raw_data: b"02010202 0101>".to_vec(),
    };
    assert_eq!(decode_stream(&stream).unwrap(), vec![1, 2, 2, 3]);
}

#[test]
fn an_unknown_filter_is_named() {
    let stream = Stream {
        dict: dict(&[("Filter", Object::Name("JPXDecode".into()))]),
        raw_data: vec![],
    };
    assert_eq!(
        decode_stream(&stream),
        Err(PdfError::UnsupportedFilter("JPXDecode".into()))
    );
}

#[test]
fn a_predictor_over_rows_without_bytes_is_an_error() {
    let parms = dict(&[
        ("Predictor", Object::Integer(2)),
        ("Columns", Object::Integer(0)),
    ]);
    assert_eq!(
        apply_predictor(&[1, 2], &parms),
        Err(PdfError::DecodeError(DecodeProblem::Predictor))
    );
    let huge = dict(&[
        ("Predictor", Object::Integer(12)),
        ("Columns", Object::Integer(i64::MAX)),
        ("Colors", Object::Integer(i64::MAX)),
    ]);
    assert_eq!(
        apply_predictor(&[1, 2], &huge),
        Err(PdfError::DecodeError(DecodeProblem::Predictor))
    );
}

#[test]
fn pixels_of_no_bytes_are_predicted_from_themselves() {
    assert_eq!(png_predictor(&[1, 10, 20, 0, 3, 4], 2, 0).unwrap(), vec![20, 40, 3, 4]);
    assert_eq!(png_predictor(&[0, 10, 20, 4, 3, 4], 2, 0).unwrap(), vec![10, 20, 6, 8]);
    assert_eq!(
        png_predictor(&[5, 1], 1, 0),
        Err(PdfError::DecodeError(DecodeProblem::Predictor))
    );
    assert_eq!(tiff_predictor(&[1, 2, 200], 3, 0), vec![2, 4, 144]);
}
