use papyrus_pdf::document::Document;
use papyrus_pdf::sign_text::{der_object_len, extract_common_name};
use papyrus_pdf::signature::{
    check_content, covered_bytes, digest_kind, judge_signer, usable_key, verify_pkcs7_detached,
    DigestKind, SignatureField, SignatureStatus,
};

/// A signed message over the file below, with SHA-256 and a certificate for `Test Signer`.
const MESSAGE: &str = "\
    3082032806092a864886f70d010702a082031930820315020101310f300d06096086480165030402010500300b06\
    092a864886f70d010701a08201c8308201c43082012da003020102020101300d06092a864886f70d01010b050030\
    283110300e060355040a0c074578616d706c653114301206035504030c0b54657374205369676e6572301e170d32\
    34303130313030303030305a170d3334303130313030303030305a30283110300e060355040a0c074578616d706c\
    653114301206035504030c0b54657374205369676e657230819f300d06092a864886f70d010101050003818d0030\
    818902818100f0c105787857cfa62da43b47dbcd3f1b073360b10af8ccfa35bd7c3d7fc8d0420f231113a005ee6b\
    d79518a18c32d0581f7f4c1edda740b11af5c4883b24511101db87832f7b7918e7e8e64fd89ed22ae04d64b44fe4\
    55d9bf69d81ccbbcfbe582857114a86b17af2f72f1fb43828779532c5fb080b80f0aa9959d5e33793b4502030100\
    01300d06092a864886f70d01010b0500038181001976b31b692adadd53e3f8899080cd48a1a46051f6497c145fb0\
    e8c0bd0960fe1cf6197b6f6e885ed133360e5ea56fc76d635efe9cbbb59d155a28f5177cf2e7506cc0be52573296\
    5ddb481b04b1a3f28903ee296e575d3c5da496d9809083b6becb834f444a5eb419e2036f53ddbb9f22730c7113a5\
    7947e8e56be2f4bbff203182012430820120020101302d30283110300e060355040a0c074578616d706c65311430\
    1206035504030c0b54657374205369676e6572020101300d06096086480165030402010500a04b301806092a8648\
    86f70d010903310b06092a864886f70d010701302f06092a864886f70d01090431220420205e661cded908ab71dd\
    095619b85714f5e2e449db0830598c0784721ae84c8b300d06092a864886f70d0101010500048180165f359719a8\
    9896b5a670c82f1aff051c0c854d687204dadbef70bef7dbd5956b00087d37c4eff1487b18e1beda59652fcba845\
    1565b84b909e63a728b5244c2839c3f51d25e41afe4f5cb55ec241e93da49dac5746cfd64948b01b6a44dd55034d\
    a5b4eaf3757ba5894b86a9f2bf012436ca25712e4c4ebe706e26b78a4738";

/// A signed message without signed attributes.
const WITHOUT_ATTRIBUTES: &str = "\
    308202d906092a864886f70d010702a08202ca308202c6020101310f300d06096086480165030402010500300b06\
    092a864886f70d010701a08201c8308201c43082012da003020102020101300d06092a864886f70d01010b050030\
    283110300e060355040a0c074578616d706c653114301206035504030c0b54657374205369676e6572301e170d32\
    34303130313030303030305a170d3334303130313030303030305a30283110300e060355040a0c074578616d706c\
    653114301206035504030c0b54657374205369676e657230819f300d06092a864886f70d010101050003818d0030\
    818902818100f0c105787857cfa62da43b47dbcd3f1b073360b10af8ccfa35bd7c3d7fc8d0420f231113a005ee6b\
    d79518a18c32d0581f7f4c1edda740b11af5c4883b24511101db87832f7b7918e7e8e64fd89ed22ae04d64b44fe4\
    55d9bf69d81ccbbcfbe582857114a86b17af2f72f1fb43828779532c5fb080b80f0aa9959d5e33793b4502030100\
    01300d06092a864886f70d01010b0500038181001976b31b692adadd53e3f8899080cd48a1a46051f6497c145fb0\
    e8c0bd0960fe1cf6197b6f6e885ed133360e5ea56fc76d635efe9cbbb59d155a28f5177cf2e7506cc0be52573296\
    5ddb481b04b1a3f28903ee296e575d3c5da496d9809083b6becb834f444a5eb419e2036f53ddbb9f22730c7113a5\
    7947e8e56be2f4bbff203181d63081d3020101302d30283110300e060355040a0c074578616d706c653114301206\
    035504030c0b54657374205369676e6572020101300d06096086480165030402010500300d06092a864886f70d01\
    01010500048180628644c51a9b97464aabf2fcc0b6cab946192f0d8c457be42600a3a5367d8b1d0f14344ca002ff\
    891c02a6cb0e68be6751967ec301b95383c41ca61f88aeffe09f9163aaf73ecb986556ad8abb31febc89d53b0257\
    38102580590991bdb41f2b475bbc088340e05861f7b56c8318862bce419cc3338304b9ebd6c57d0c64d9ba";

/// A signed message over `detached content`, with SHA-1.
const WITH_SHA1: &str = "\
    3082031406092a864886f70d010702a082030530820301020101310b300906052b0e03021a0500300b06092a8648\
    86f70d010701a08201c8308201c43082012da003020102020101300d06092a864886f70d01010b05003028311030\
    0e060355040a0c074578616d706c653114301206035504030c0b54657374205369676e6572301e170d3234303130\
    313030303030305a170d3334303130313030303030305a30283110300e060355040a0c074578616d706c65311430\
    1206035504030c0b54657374205369676e657230819f300d06092a864886f70d010101050003818d003081890281\
    8100f0c105787857cfa62da43b47dbcd3f1b073360b10af8ccfa35bd7c3d7fc8d0420f231113a005ee6bd79518a1\
    8c32d0581f7f4c1edda740b11af5c4883b24511101db87832f7b7918e7e8e64fd89ed22ae04d64b44fe455d9bf69\
    d81ccbbcfbe582857114a86b17af2f72f1fb43828779532c5fb080b80f0aa9959d5e33793b450203010001300d06\
    092a864886f70d01010b0500038181001976b31b692adadd53e3f8899080cd48a1a46051f6497c145fb0e8c0bd09\
    60fe1cf6197b6f6e885ed133360e5ea56fc76d635efe9cbbb59d155a28f5177cf2e7506cc0be525732965ddb481b\
    04b1a3f28903ee296e575d3c5da496d9809083b6becb834f444a5eb419e2036f53ddbb9f22730c7113a57947e8e5\
    6be2f4bbff203182011430820110020101302d30283110300e060355040a0c074578616d706c6531143012060355\
    04030c0b54657374205369676e6572020101300906052b0e03021a0500a03f301806092a864886f70d010903310b\
    06092a864886f70d010701302306092a864886f70d0109043116041438bf957a35b723dde3227d0dd086918df78c\
    c70b300d06092a864886f70d0101010500048180ea5bf46bf9a475990d6253a40e167852b89edb9bfb9d21235552\
    df380621d5fea20984a0242b1c6dc99d88d6f1253a504530081c7ff8e8c9954a2132c105b3399fecad6ef76e365a\
    6b4278e45c664fab71070309cc229deb31a1dd25bf2f665bb79b844464c9957757d69f328ba6441eda454a81054c\
    a0ccc7bfbcb64cced03a";

const HEAD: &str = "%PDF-1.7\n\
    1 0 obj\n\
    << /Type /Catalog /Pages 2 0 R /AcroForm << /Fields [4 0 R] >> >>\n\
    endobj\n\
    2 0 obj\n\
    << /Type /Pages /Kids [3 0 R] /Count 1 >>\n\
    endobj\n\
    3 0 obj\n\
    << /Type /Page /Parent 2 0 R /MediaBox [0 0 612 792] /Annots [4 0 R] >>\n\
    endobj\n\
    4 0 obj\n\
    << /FT /Sig /T (Signature1) /V 5 0 R /Rect [0 0 0 0] >>\n\
    endobj\n\
    5 0 obj\n\
    << /Type /Sig /Filter /Adobe.PPKLite /SubFilter /adbe.pkcs7.detached /Name (Test Signer) /Reason (Testing) /ByteRange [0 000466 002668 000195] /Contents ";

const TAIL: &str = "\x20>>\n\
    endobj\n\
    xref\n\
    0 6\n\
    0000000000 65535 f\x20\n\
    0000000009 00000 n\x20\n\
    0000000090 00000 n\x20\n\
    0000000147 00000 n\x20\n\
    0000000234 00000 n\x20\n\
    0000000305 00000 n\x20\n\
    trailer\n\
    << /Size 6 /Root 1 0 R >>\n\
    startxref\n\
    2679\n\
    %%EOF\n";

fn bytes_of(hex: &str) -> Vec<u8> {
    (0..hex.len() / 2).map(|i| u8::from_str_radix(&hex[2 * i..2 * i + 2], 16).unwrap()).collect()
}

/// A signed file. The place of the message is filled up with zeros.
fn signed_document() -> Vec<u8> {
    let mut hex = MESSAGE.to_string();
    while hex.len() < 2200 {
        hex.push('0');
    }
    format!("{HEAD}<{hex}>{TAIL}").into_bytes()
}

#[test]
fn signature_fields_lists_the_signed_field_with_metadata() {
    let doc = Document::open(signed_document()).unwrap();
    let fields = doc.signature_fields().unwrap();
    assert_eq!(fields.len(), 1);
    assert_eq!(fields[0].field_name, "Signature1");
    assert_eq!(fields[0].signer_name.as_deref(), Some("Test Signer"));
    assert_eq!(fields[0].reason.as_deref(), Some("Testing"));
    assert_eq!(fields[0].location, None);
}

#[test]
fn verify_accepts_an_unmodified_signed_document() {
    let doc = Document::open(signed_document()).unwrap();
    let fields = doc.signature_fields().unwrap();
    let status = fields[0].verify(&doc);
    assert_eq!(status, SignatureStatus::Valid { signer: Some("Test Signer".to_string()) });
}

#[test]
fn verify_rejects_a_document_modified_after_signing() {
    let original = signed_document();
    let doc = Document::open(original.clone()).unwrap();
    let field = doc.signature_fields().unwrap().into_iter().next().unwrap();
    let (first_offset, first_len) = field.byte_range[0];
    assert!(first_len > 10);
    let mut tampered = original;
    let flip_at = first_offset + first_len / 2;
    tampered[flip_at] ^= 0xFF;
    let doc = Document::open(tampered).unwrap();
    let fields = doc.signature_fields().unwrap();
    let status = fields[0].verify(&doc);
    assert_eq!(status, SignatureStatus::ContentModified);
}

#[test]
fn verify_rejects_truncated_contents_without_panicking() {
    let field = SignatureField {
        field_name: "X".to_string(),
        signer_name: None,
        reason: None,
        location: None,
        signing_time: None,
        contents: vec![0x30, 0x03],
        byte_range: [(0, 1), (0, 1)],
    };
    let doc = Document::open(signed_document()).unwrap();
    assert_eq!(field.verify(&doc), SignatureStatus::Malformed);
}

#[test]
fn a_signature_of_another_key_is_not_valid() {
    let file = signed_document();
    let mut message = bytes_of(MESSAGE);
    let last = message.len() - 1;
    message[last] ^= 1;
    let range = [(0, HEAD.len()), (HEAD.len() + 2202, TAIL.len())];
    assert_eq!(verify_pkcs7_detached(&message, &file, &range), SignatureStatus::InvalidSignature);
    message[last] ^= 1;
    assert!(matches!(
        verify_pkcs7_detached(&message, &file, &range),
        SignatureStatus::Valid { .. }
    ));
    // Ranges that do not lie within the file.
    let range = [(0, HEAD.len()), (HEAD.len() + 2202, TAIL.len() + 1)];
    assert_eq!(verify_pkcs7_detached(&message, &file, &range), SignatureStatus::Malformed);
}

#[test]
fn a_message_needs_signed_attributes() {
    let message = bytes_of(WITHOUT_ATTRIBUTES);
    assert_eq!(
        verify_pkcs7_detached(&message, b"detached content", &[(0, 16), (16, 0)]),
        SignatureStatus::UnsupportedAlgorithm
    );
}

#[test]
fn the_digest_of_a_message_is_the_one_that_it_names() {
    let message = bytes_of(WITH_SHA1);
    let check = |content: &[u8]| verify_pkcs7_detached(&message, content, &[(0, 8), (8, 8)]);
    assert_eq!(
        check(b"detached content"),
        SignatureStatus::Valid { signer: Some("Test Signer".to_string()) }
    );
    assert_eq!(check(b"detached Content"), SignatureStatus::ContentModified);
    assert_eq!(digest_kind("1.3.14.3.2.26"), Some(DigestKind::Sha1));
    assert_eq!(digest_kind("2.16.840.1.101.3.4.2.3"), Some(DigestKind::Sha512));
    assert_eq!(digest_kind("1.2.840.113549.2.5"), None);
    assert_eq!(DigestKind::Sha1.digest(b"abc")[..4], [0xA9, 0x99, 0x3E, 0x36]);
    assert_eq!(DigestKind::Sha256.digest(b"abc")[..4], [0xBA, 0x78, 0x16, 0xBF]);
    assert_eq!(DigestKind::Sha384.digest(b"abc")[..4], [0xCB, 0x00, 0x75, 0x3F]);
    assert_eq!(DigestKind::Sha512.digest(b"abc")[..4], [0xDD, 0xAF, 0x35, 0xA1]);
}

#[test]
fn what_is_signed_is_what_the_ranges_cover() {
    assert_eq!(covered_bytes(b"abcdef", &[(0, 2), (4, 2)]), Some(b"abef".to_vec()));
    assert_eq!(covered_bytes(b"abcdef", &[(0, 2), (4, 3)]), None);
    assert_eq!(covered_bytes(b"abcdef", &[(usize::MAX, 2), (4, 1)]), None);
    assert_eq!(check_content(&None, b"x"), Some(SignatureStatus::Malformed));
    assert_eq!(check_content(&Some(b"x".to_vec()), b"x"), None);
    assert_eq!(check_content(&Some(b"x".to_vec()), b"y"), Some(SignatureStatus::ContentModified));
    assert!(usable_key(Some(2048)));
    assert!(!usable_key(Some(8193)));
    assert!(!usable_key(None));
    let name = Some("CN=A".to_string());
    let valid = SignatureStatus::Valid { signer: Some("A".to_string()) };
    assert_eq!(judge_signer(&name, Some(2048), true, true, Some(true)), valid);
    assert_eq!(
        judge_signer(&name, Some(2048), true, true, Some(false)),
        SignatureStatus::InvalidSignature
    );
    assert_eq!(judge_signer(&name, Some(2048), true, true, None), SignatureStatus::InvalidSignature);
    assert_eq!(judge_signer(&name, Some(2048), true, false, None), SignatureStatus::Malformed);
    assert_eq!(judge_signer(&name, None, true, true, None), SignatureStatus::UnsupportedAlgorithm);
    assert_eq!(judge_signer(&name, None, false, true, None), SignatureStatus::Malformed);
    assert_eq!(judge_signer(&None, Some(2048), true, true, Some(true)), SignatureStatus::Malformed);
}

#[test]
fn common_names_stand_in_a_subject() {
    assert_eq!(extract_common_name("CN=Test Signer,O=Example"), Some("Test Signer".to_string()));
    assert_eq!(extract_common_name("O=Example, CN=Other"), Some("Other".to_string()));
    assert_eq!(extract_common_name("O=Example"), None);
    assert_eq!(extract_common_name("CN=,O=x"), Some(String::new()));
}

#[test]
fn the_length_of_an_encoded_object_stands_at_its_start() {
    assert_eq!(der_object_len(&[0x30, 3]), Some(5));
    assert_eq!(der_object_len(&[0x30, 0x81, 200]), Some(203));
    assert_eq!(der_object_len(&[0x30, 0x82, 1, 0]), Some(260));
    assert_eq!(der_object_len(&[0x30]), None);
    assert_eq!(der_object_len(&[0x30, 0x82, 1]), None);
    assert_eq!(der_object_len(&[0x30, 0x80]), Some(2));
}
