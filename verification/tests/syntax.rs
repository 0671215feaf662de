use papyrus_pdf::lexer::{Lexer, Token};
use papyrus_pdf::error::{PdfError, Problem};
use papyrus_pdf::number::Real;
use papyrus_pdf::object::{Dictionary, ObjRef, Object, Stream};
use papyrus_pdf::parser::Parser;
use papyrus_pdf::writer::{write_indirect_object, write_object};

fn tokens(input: &str) -> Vec<Token> {
    let mut lexer = Lexer::new(input.as_bytes());
    let mut out = Vec::new();
    while let Some(t) = lexer.next_token().unwrap() {
        out.push(t);
    }
    out
}

fn decimal(negative: bool, whole: &str, frac: &str) -> Real {
    Real::from_digits(negative, whole.as_bytes(), frac.as_bytes())
}

#[test]
fn numbers() {
    assert_eq!(
        tokens("12 -7 3.25 -.5 4."),
        vec![
            Token::Integer(12),
            Token::Integer(-7),
            Token::Real(decimal(false, "3", "25")),
            Token::Real(decimal(true, "0", "5")),
            Token::Real(decimal(false, "4", "0")),
        ]
    );
}

#[test]
fn odd_numbers_are_taken_as_far_as_they_go() {
    assert_eq!(
        tokens("+5 +.5 - 1.2.3 . 007 9223372036854775807 9223372036854775808 -9223372036854775808"),
        vec![
            Token::Integer(5),
            Token::Real(decimal(false, "", "5")),
            Token::Real(decimal(false, "", "")),
            Token::Real(decimal(false, "", "")),
            Token::Real(decimal(false, "", "")),
            Token::Integer(7),
            Token::Integer(i64::MAX),
            Token::Real(decimal(false, "9223372036854775808", "")),
            Token::Integer(i64::MIN),
        ]
    );
}

#[test]
fn names_with_escapes() {
    assert_eq!(
        tokens("/Name1 /A#42 /Two#20Words"),
        vec![
            Token::Name("Name1".into()),
            Token::Name("AB".into()),
            Token::Name("Two Words".into()),
        ]
    );
}

#[test]
fn names_that_are_not_text_are_still_names() {
    assert_eq!(tokens("/A#FF"), vec![Token::Name("A\u{FFFD}".into())]);
}

#[test]
fn literal_string_escapes() {
    assert_eq!(
        tokens(r"(Hello\nWorld) (Nested (parens)) (Octal \101)"),
        vec![
            Token::LiteralString(b"Hello\nWorld".to_vec()),
            Token::LiteralString(b"Nested (parens)".to_vec()),
            Token::LiteralString(b"Octal A".to_vec()),
        ]
    );
}

#[test]
fn literal_strings_go_on_over_escaped_line_ends() {
    assert_eq!(
        tokens("(a\\\r\nb\\\nc\\\rd) (\\r\\t\\b\\f\\(\\)\\\\\\q\\7778)"),
        vec![
            Token::LiteralString(b"abcd".to_vec()),
            Token::LiteralString(b"\r\t\x08\x0C()\\q\xFF8".to_vec()),
        ]
    );
}

#[test]
fn hex_string() {
    assert_eq!(
        tokens("<48656C6C6F> <48656C6C>"),
        vec![
            Token::HexString(b"Hello".to_vec()),
            Token::HexString(b"Hell".to_vec()),
        ]
    );
}

#[test]
fn hex_string_with_an_odd_digit_gets_a_zero() {
    assert_eq!(tokens("<4 8 7>"), vec![Token::HexString(vec![0x48, 0x70])]);
}

#[test]
fn dict_and_array_delimiters() {
    assert_eq!(
        tokens("<< /Type /Catalog >> [1 2 3]"),
        vec![
            Token::DictStart,
            Token::Name("Type".into()),
            Token::Name("Catalog".into()),
            Token::DictEnd,
            Token::ArrayStart,
            Token::Integer(1),
            Token::Integer(2),
            Token::Integer(3),
            Token::ArrayEnd,
        ]
    );
}

#[test]
fn keywords() {
    assert_eq!(
        tokens("12 0 obj true false null endobj"),
        vec![
            Token::Integer(12),
            Token::Integer(0),
            Token::Keyword("obj".into()),
            Token::Keyword("true".into()),
            Token::Keyword("false".into()),
            Token::Keyword("null".into()),
            Token::Keyword("endobj".into()),
        ]
    );
}

#[test]
fn comments_are_skipped() {
    assert_eq!(
        tokens("1 % a comment\n2"),
        vec![Token::Integer(1), Token::Integer(2)]
    );
}

#[test]
fn a_second_skip_goes_no_further() {
    let mut lexer = Lexer::new(b" \t% a % b\r\n%c\n x");
    lexer.skip_whitespace_and_comments();
    assert_eq!(lexer.pos(), 15);
    lexer.skip_whitespace_and_comments();
    assert_eq!(lexer.pos(), 15);
    let mut lexer = Lexer::new(b"%only a comment");
    lexer.skip_whitespace_and_comments();
    assert_eq!(lexer.pos(), 15);
}

#[test]
fn faults_of_the_lexer_say_where_they_are() {
    let fault = |s: &str| Lexer::new(s.as_bytes()).next_token().unwrap_err();
    assert_eq!(fault("(abc"), PdfError::UnexpectedEof(4));
    assert_eq!(fault("(abc\\"), PdfError::UnexpectedEof(5));
    assert_eq!(fault("<41"), PdfError::UnexpectedEof(3));
    assert_eq!(fault("<4x>"), PdfError::UnexpectedByte { byte: b'x', offset: 2 });
    assert_eq!(fault("  )"), PdfError::UnexpectedByte { byte: b')', offset: 2 });
    assert_eq!(fault("{"), PdfError::UnexpectedByte { byte: b'{', offset: 0 });
}

#[test]
fn seeking_stops_at_the_end() {
    let mut lexer = Lexer::new(b"1 2");
    lexer.seek(99);
    assert_eq!(lexer.pos(), 3);
    assert_eq!(lexer.next_token().unwrap(), None);
    lexer.seek(1);
    assert_eq!(lexer.remaining(), b" 2");
    assert_eq!(Lexer::with_pos(b"1 2", 2).pos(), 2);
}

#[test]
fn parses_simple_dictionary() {
    let input = b"<< /Type /Catalog /Count 3 /Ratio 1.5 >>";
    let mut parser = Parser::new(input);
    let obj = parser.parse_object().unwrap();
    let dict = obj.as_dict().unwrap();
    assert_eq!(dict.get("Type").unwrap().as_name(), Some("Catalog"));
    assert_eq!(dict.get_int("Count").unwrap(), 3);
}

#[test]
fn parses_reference_vs_plain_integers() {
    let input = b"[1 2 3 0 R 7]";
    let mut parser = Parser::new(input);
    let obj = parser.parse_object().unwrap();
    let items = obj.as_array().unwrap();
    assert_eq!(items[0], Object::Integer(1));
    assert_eq!(items[1], Object::Integer(2));
    assert_eq!(items[2], Object::Reference(ObjRef::new(3, 0)));
    assert_eq!(items[3], Object::Integer(7));
}

#[test]
fn parses_indirect_object() {
    let input = b"12 0 obj\n<< /Length 5 >>\nendobj";
    let mut parser = Parser::new(input);
    let (num, gen, obj) = parser.parse_indirect_object().unwrap();
    assert_eq!(num, 12);
    assert_eq!(gen, 0);
    assert!(obj.as_dict().is_some());
}

#[test]
fn parses_stream_with_length() {
    let input = b"1 0 obj\n<< /Length 11 >>\nstream\nHello World\nendstream\nendobj";
    let mut parser = Parser::new(input);
    let (_, _, obj) = parser.parse_indirect_object().unwrap();
    match obj {
        Object::Stream(s) => assert_eq!(s.raw_data, b"Hello World"),
        other => panic!("expected stream, got {other:?}"),
    }
}

#[test]
fn negative_length_falls_back_to_endstream_search_instead_of_panicking() {
    let input = b"1 0 obj\n<< /Length -10 >>\nstream\nHello World\nendstream\nendobj";
    let mut parser = Parser::new(input);
    let (_, _, obj) = parser.parse_indirect_object().unwrap();
    match obj {
        Object::Stream(s) => assert_eq!(s.raw_data, b"Hello World\n"),
        other => panic!("expected stream, got {other:?}"),
    }
}

#[test]
fn a_length_that_is_too_short_does_not_cut_the_stream() {
    let input = b"<< /Length 3 >>\nstream\nHello World\nendstream";
    match Parser::new(input).parse_object().unwrap() {
        Object::Stream(s) => assert_eq!(s.raw_data, b"Hello World\n"),
        other => panic!("expected stream, got {other:?}"),
    }
}

#[test]
fn parses_nested_array_and_dict() {
    let input = b"<< /Kids [1 0 R 2 0 R] /Resources << /Font << >> >> >>";
    let mut parser = Parser::new(input);
    let obj = parser.parse_object().unwrap();
    let dict = obj.as_dict().unwrap();
    assert_eq!(dict.get("Kids").unwrap().as_array().unwrap().len(), 2);
}

#[test]
fn faults_of_the_parser_say_what_is_wrong() {
    let fault = |s: &str| Parser::new(s.as_bytes()).parse_object().unwrap_err();
    assert_eq!(fault(""), PdfError::UnexpectedEof(0));
    assert_eq!(fault("[1 2"), PdfError::UnexpectedEof(4));
    assert_eq!(fault("foo"), PdfError::InvalidObject(3, Problem::UnexpectedKeyword));
    assert_eq!(fault("]"), PdfError::InvalidObject(1, Problem::UnexpectedToken));
    assert_eq!(fault("<< 1 2 >>"), PdfError::InvalidObject(4, Problem::KeyIsNotAName));
    assert_eq!(fault("<< >> stream\nabc"), PdfError::UnexpectedEof(13));
    assert_eq!(
        fault("<< >> stream\nabc endstreams"),
        PdfError::InvalidObject(17, Problem::MissingEndstream)
    );
    let head = |s: &str| Parser::new(s.as_bytes()).parse_indirect_object().unwrap_err();
    assert_eq!(head("x"), PdfError::InvalidObject(1, Problem::MissingObjectNumber));
    assert_eq!(head("1 x"), PdfError::InvalidObject(3, Problem::MissingGeneration));
    assert_eq!(head("1 0 x"), PdfError::InvalidObject(5, Problem::MissingObj));
}

#[test]
fn endobj_may_be_missing() {
    let mut parser = Parser::new(b"1 0 obj 5 2 0 obj 6");
    assert_eq!(parser.parse_indirect_object().unwrap(), (1, 0, Object::Integer(5)));
    assert_eq!(parser.parse_indirect_object().unwrap(), (2, 0, Object::Integer(6)));
}

fn to_string(obj: &Object) -> String {
    let mut out = Vec::new();
    write_object(obj, &mut out);
    String::from_utf8(out).unwrap()
}

#[test]
fn writes_scalars() {
    assert_eq!(to_string(&Object::Null), "null");
    assert_eq!(to_string(&Object::Boolean(true)), "true");
    assert_eq!(to_string(&Object::Integer(-42)), "-42");
    assert_eq!(to_string(&Object::Real(decimal(false, "1", "5"))), "1.5");
    assert_eq!(to_string(&Object::Real(decimal(false, "2", "0"))), "2");
}

#[test]
fn reals_are_rounded_to_six_digits() {
    assert_eq!(to_string(&Object::Real(decimal(false, "0", "1234567"))), "0.123457");
    assert_eq!(to_string(&Object::Real(decimal(true, "9", "9999996"))), "-10");
    assert_eq!(to_string(&Object::Real(decimal(false, "0", "0000004"))), "0");
    assert_eq!(to_string(&Object::Real(decimal(false, "00100", "2500"))), "100.25");
    assert_eq!(to_string(&Object::Real(Real::from_int(-7))), "-7");
    assert_eq!(to_string(&Object::Integer(i64::MIN)), "-9223372036854775808");
}

#[test]
fn writes_string_as_hex() {
    assert_eq!(to_string(&Object::String(b"Hi".to_vec())), "<4869>");
}

#[test]
fn writes_name_escaping_irregular_bytes() {
    assert_eq!(
        to_string(&Object::Name("Helvetica".to_string())),
        "/Helvetica"
    );
    assert_eq!(to_string(&Object::Name("A B".to_string())), "/A#20B");
}

#[test]
fn writes_array_and_dictionary() {
    let arr = Object::Array(vec![Object::Integer(1), Object::Integer(2)]);
    assert_eq!(to_string(&arr), "[1 2]");

    let mut dict = Dictionary::new();
    dict.insert("Type", Object::Name("Page".to_string()));
    assert_eq!(to_string(&Object::Dictionary(dict)), "<< /Type /Page >>");
}

#[test]
fn dictionaries_are_written_in_the_order_of_their_names() {
    let mut dict = Dictionary::new();
    dict.insert("b", Object::Integer(1));
    dict.insert("A", Object::Integer(2));
    dict.insert("\u{E9}", Object::Integer(3));
    dict.insert("b", Object::Integer(4));
    assert_eq!(
        to_string(&Object::Dictionary(dict)),
        "<< /A 2 /b 4 /#C3#A9 3 >>"
    );
}

#[test]
fn writes_reference() {
    assert_eq!(to_string(&Object::Reference(ObjRef::new(7, 0))), "7 0 R");
}

#[test]
fn writes_stream_with_dict_and_raw_data() {
    let mut dict = Dictionary::new();
    dict.insert("Length", Object::Integer(5));
    let stream = Object::Stream(Stream {
        dict,
        raw_data: b"hello".to_vec(),
    });
    assert_eq!(
        to_string(&stream),
        "<< /Length 5 >>\nstream\nhello\nendstream"
    );
}

#[test]
fn writes_full_indirect_object() {
    let mut out = Vec::new();
    write_indirect_object(3, 0, &Object::Integer(42), &mut out);
    assert_eq!(String::from_utf8(out).unwrap(), "3 0 obj\n42\nendobj\n");
}

#[test]
fn what_is_written_is_read_back() {
    let mut inner = Dictionary::new();
    inner.insert("Length", Object::Integer(3));
    inner.insert("K\u{E9}y #1", Object::Real(decimal(true, "12", "5")));
    let object = Object::Array(vec![
        Object::Integer(5),
        Object::Reference(ObjRef::new(7, 1)),
        Object::Integer(0),
        Object::Null,
        Object::Boolean(false),
        Object::String(vec![0, 255, 40, 41]),
        Object::Stream(Stream { dict: inner, raw_data: b"\n) ".to_vec() }),
        Object::Name("".to_string()),
        Object::Array(vec![]),
        Object::Dictionary(Dictionary::new()),
    ]);
    let mut out = Vec::new();
    write_object(&object, &mut out);
    assert_eq!(Parser::new(&out).parse_object().unwrap(), object);
}

#[test]
fn accessors_give_what_an_object_holds() {
    assert_eq!(Object::Real(decimal(true, "3", "9")).as_int(), Some(-3));
    assert_eq!(Object::Integer(4).as_int(), Some(4));
    assert_eq!(Object::Null.as_int(), None);
    assert!(Object::Null.is_null());
    assert_eq!(Object::Name("N".into()).as_name(), Some("N"));
    assert_eq!(
        Object::Reference(ObjRef::new(1, 2)).as_reference(),
        Some(ObjRef::new(1, 2))
    );
    let dict = Dictionary::new();
    assert_eq!(dict.get_int("N"), Err(PdfError::MissingKey("N".into())));
}

#[test]
fn text_strings_are_utf8_or_utf16() {
    assert_eq!(
        Object::String(b"Caf\xC3\xA9".to_vec()).as_text_string(),
        Some("Caf\u{E9}".to_string())
    );
    assert_eq!(
        Object::String(vec![0xFE, 0xFF, 0x4E, 0x2D, 0xD8, 0x3D, 0xDE, 0x00]).as_text_string(),
        Some("\u{4E2D}\u{1F600}".to_string())
    );
    assert_eq!(Object::Integer(1).as_text_string(), None);
}
