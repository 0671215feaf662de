use aes::{Aes128, Aes256};
use cbc::cipher::block_padding::{NoPadding, Pkcs7};
use cbc::cipher::{BlockEncryptMut, KeyIvInit};
use md5::{Digest, Md5};
use papyrus_pdf::crypt::{rc4_apply, DecryptError, Decryptor};
use papyrus_pdf::document::Document;
use papyrus_pdf::error::PdfError;
use papyrus_pdf::interp::Interpreter;
use papyrus_pdf::object::{Dictionary, ObjRef, Object};
use papyrus_pdf::summary::summarize;
use sha2::{Sha256, Sha384, Sha512};

const PAD: [u8; 32] = [
    0x28, 0xBF, 0x4E, 0x5E, 0x4E, 0x75, 0x8A, 0x41, 0x64, 0x00, 0x4E, 0x56, 0xFF, 0xFA, 0x01, 0x08,
    0x2E, 0x2E, 0x00, 0xB6, 0xD0, 0x68, 0x3E, 0x80, 0x2F, 0x0C, 0xA9, 0xFE, 0x64, 0x53, 0x69, 0x7A,
];

const ID: [u8; 16] = [7; 16];
const OWNER: [u8; 32] = [9; 32];
const PERMISSIONS: i32 = -1044;

fn md5(data: &[u8]) -> Vec<u8> {
    Md5::digest(data).to_vec()
}

fn hex(data: &[u8]) -> String {
    data.iter().map(|b| format!("{b:02x}")).collect()
}

fn padded(password: &[u8]) -> Vec<u8> {
    let mut out = password.to_vec();
    out.extend_from_slice(&PAD);
    out.truncate(32);
    out
}

/// The key of a file up to the fourth revision.
fn file_key(password: &[u8], length: usize, revision: u32) -> Vec<u8> {
    let mut data = padded(password);
    data.extend_from_slice(&OWNER);
    data.extend_from_slice(&PERMISSIONS.to_le_bytes());
    data.extend_from_slice(&ID);
    let mut key = md5(&data);
    if revision >= 3 {
        for _ in 0..50 {
            key = md5(&key[..length]);
        }
    }
    key.truncate(length);
    key
}

/// What the file says for the user password to be checked against.
fn user_entry(key: &[u8], revision: u32) -> Vec<u8> {
    if revision == 2 {
        return rc4_apply(key, &PAD);
    }
    let mut data = PAD.to_vec();
    data.extend_from_slice(&ID);
    let mut out = rc4_apply(key, &md5(&data));
    for i in 1..=19u8 {
        let turned: Vec<u8> = key.iter().map(|b| b ^ i).collect();
        out = rc4_apply(&turned, &out);
    }
    out.resize(32, 0);
    out
}

fn object_key(key: &[u8], num: u32, salted: bool) -> Vec<u8> {
    let mut data = key.to_vec();
    data.extend_from_slice(&num.to_le_bytes()[..3]);
    data.extend_from_slice(&[0, 0]);
    if salted {
        data.extend_from_slice(b"sAlT");
    }
    let mut out = md5(&data);
    out.truncate((key.len() + 5).min(16));
    out
}

fn aes128(key: &[u8], data: &[u8]) -> Vec<u8> {
    let iv = [3u8; 16];
    let mut out = iv.to_vec();
    let cipher = cbc::Encryptor::<Aes128>::new_from_slices(key, &iv).unwrap();
    out.extend_from_slice(&cipher.encrypt_padded_vec_mut::<Pkcs7>(data));
    out
}

fn aes256(key: &[u8], data: &[u8]) -> Vec<u8> {
    let iv = [3u8; 16];
    let mut out = iv.to_vec();
    let cipher = cbc::Encryptor::<Aes256>::new_from_slices(key, &iv).unwrap();
    out.extend_from_slice(&cipher.encrypt_padded_vec_mut::<Pkcs7>(data));
    out
}

/// A page that shows a text, with its content encrypted, and a title, which is encrypted too.
fn encrypted(encrypt: &str, content: Vec<u8>, title: Vec<u8>) -> Vec<u8> {
    let mut stream = format!("<< /Length {} >>\nstream\n", content.len()).into_bytes();
    stream.extend_from_slice(&content);
    stream.extend_from_slice(b"\nendstream");
    let objects: Vec<Vec<u8>> = vec![
        b"<< /Type /Catalog /Pages 2 0 R >>".to_vec(),
        b"<< /Type /Pages /Kids [3 0 R] /Count 1 >>".to_vec(),
        b"<< /Type /Page /Parent 2 0 R /Resources << /Font << /F 6 0 R >> >> /Contents 4 0 R >>".to_vec(),
        stream,
        format!("<< /Title <{}> >>", hex(&title)).into_bytes(),
        b"<< /Type /Font /Subtype /Type1 /BaseFont /Helvetica /Encoding /WinAnsiEncoding >>".to_vec(),
        encrypt.as_bytes().to_vec(),
    ];
    let mut out = b"%PDF-1.7\n".to_vec();
    let mut table = String::from("xref\n0 8\n0000000000 65535 f \n");
    for (i, body) in objects.iter().enumerate() {
        table.push_str(&format!("{:010} 00000 n \n", out.len()));
        out.extend_from_slice(format!("{} 0 obj\n", i + 1).as_bytes());
        out.extend_from_slice(body);
        out.extend_from_slice(b"\nendobj\n");
    }
    let xref = out.len();
    out.extend_from_slice(table.as_bytes());
    let id = hex(&ID);
    out.extend_from_slice(
        format!("trailer\n<< /Size 8 /Root 1 0 R /Info 5 0 R /Encrypt 7 0 R /ID [<{id}> <{id}>] >>\nstartxref\n{xref}\n%%EOF").as_bytes(),
    );
    out
}

fn content(text: &str) -> Vec<u8> {
    format!("BT /F 12 Tf 72 720 Td ({text}) Tj ET").into_bytes()
}

fn shown_text(doc: &Document) -> String {
    let page = doc.page(0).unwrap();
    let content = doc.page_content(&page).unwrap();
    let display = Interpreter::run_page(doc, &page.resources, &content).unwrap();
    summarize(&display).text.iter().collect()
}

fn title(doc: &Document) -> Vec<u8> {
    match doc.metadata_dict().unwrap().get("Title") {
        Some(Object::String(s)) => s.clone(),
        _ => panic!("expected a title"),
    }
}

fn aes128_file(password: &[u8], text: &str) -> Vec<u8> {
    let key = file_key(password, 16, 4);
    let encrypt = format!(
        "<< /Filter /Standard /V 4 /R 4 /Length 128 /P {PERMISSIONS} /O <{}> /U <{}> /CF << /StdCF << /CFM /AESV2 /Length 16 >> >> /StmF /StdCF /StrF /StdCF >>",
        hex(&OWNER),
        hex(&user_entry(&key, 4))
    );
    encrypted(
        &encrypt,
        aes128(&object_key(&key, 4, true), &content(text)),
        aes128(&object_key(&key, 5, true), b"A title"),
    )
}

fn rc4_file(length: usize, revision: u32) -> Vec<u8> {
    let key = file_key(b"", length, revision);
    let encrypt = format!(
        "<< /Filter /Standard /V {} /R {revision} /Length {} /P {PERMISSIONS} /O <{}> /U <{}> >>",
        revision - 1,
        8 * length,
        hex(&OWNER),
        hex(&user_entry(&key, revision))
    );
    encrypted(
        &encrypt,
        rc4_apply(&object_key(&key, 4, false), &content("RC4")),
        rc4_apply(&object_key(&key, 5, false), b"A title"),
    )
}

/// The digest of a password in the sixth revision.
fn hardened(password: &[u8], salt: &[u8]) -> Vec<u8> {
    let mut k = Sha256::digest([password, salt].concat()).to_vec();
    let mut round = 0usize;
    loop {
        round += 1;
        let block = [password, &k[..]].concat().repeat(64);
        let cipher = cbc::Encryptor::<Aes128>::new_from_slices(&k[..16], &k[16..32]).unwrap();
        let e = cipher.encrypt_padded_vec_mut::<NoPadding>(&block);
        k = match e[..16].iter().map(|b| *b as usize).sum::<usize>() % 3 {
            0 => Sha256::digest(&e).to_vec(),
            1 => Sha384::digest(&e).to_vec(),
            _ => Sha512::digest(&e).to_vec(),
        };
        if round >= 64 && *e.last().unwrap() as usize <= round - 32 {
            k.truncate(32);
            return k;
        }
    }
}

fn aes256_file(password: &[u8], text: &str, revision: u32) -> Vec<u8> {
    let digest = |salt: &[u8]| {
        if revision == 6 {
            hardened(password, salt)
        } else {
            Sha256::digest([password, salt].concat()).to_vec()
        }
    };
    let key: Vec<u8> = (0..32).collect();
    let mut user = digest(b"12345678");
    user.extend_from_slice(b"12345678abcdefgh");
    let cipher = cbc::Encryptor::<Aes256>::new_from_slices(&digest(b"abcdefgh"), &[0; 16]).unwrap();
    let wrapped = cipher.encrypt_padded_vec_mut::<NoPadding>(&key);
    let encrypt = format!(
        "<< /Filter /Standard /V 5 /R {revision} /Length 256 /P {PERMISSIONS} /O <{}> /U <{}> /UE <{}> /CF << /StdCF << /CFM /AESV3 >> >> /StmF /StdCF /StrF /StdCF >>",
        hex(&[0; 48]),
        hex(&user),
        hex(&wrapped)
    );
    encrypted(&encrypt, aes256(&key, &content(text)), aes256(&key, b"A title"))
}

#[test]
fn opens_and_decrypts_an_aes128_encrypted_pdf_with_empty_user_password() {
    let text = "Encrypted PDF test - if you can read this, decryption worked";
    let doc = Document::open(aes128_file(b"", text)).unwrap();
    assert_eq!(shown_text(&doc), text);
    assert_eq!(title(&doc), b"A title");
}

#[test]
fn opens_and_decrypts_an_aes256_r6_encrypted_pdf_with_empty_user_password() {
    let doc = Document::open(aes256_file(b"", "AES-256 encrypted PDF test", 6)).unwrap();
    assert_eq!(shown_text(&doc), "AES-256 encrypted PDF test");
    assert_eq!(title(&doc), b"A title");
}

#[test]
fn opens_an_aes128_encrypted_pdf_with_a_real_non_empty_user_password() {
    let text = "Password protected PDF test - if you can read this, the password worked";
    let bytes = aes128_file(b"secret123", text);
    let doc = Document::open_with_password(bytes.clone(), b"secret123").unwrap();
    assert_eq!(shown_text(&doc), text);
    let wrong = Document::open_with_password(bytes.clone(), b"wrong-password");
    assert!(matches!(wrong, Err(PdfError::IncorrectPassword)));
    let empty = Document::open(bytes);
    assert!(matches!(empty, Err(PdfError::IncorrectPassword)));
}

#[test]
fn passwords_open_the_fifth_and_the_sixth_revision() {
    for revision in [5, 6] {
        let bytes = aes256_file(b"open sesame", "inside", revision);
        let doc = Document::open_with_password(bytes.clone(), b"open sesame").unwrap();
        assert_eq!(shown_text(&doc), "inside");
        assert!(matches!(Document::open(bytes), Err(PdfError::IncorrectPassword)));
    }
}

#[test]
fn rc4_is_undone_with_short_and_long_keys() {
    for (length, revision) in [(5, 2), (16, 3)] {
        let doc = Document::open(rc4_file(length, revision)).unwrap();
        assert_eq!(shown_text(&doc), "RC4");
        assert_eq!(title(&doc), b"A title");
    }
}

#[test]
fn rc4_of_known_keys() {
    assert_eq!(
        rc4_apply(b"Key", b"Plaintext"),
        vec![0xBB, 0xF3, 0x16, 0xE8, 0xD9, 0x40, 0xAF, 0x0A, 0xD3]
    );
    assert_eq!(rc4_apply(b"Wiki", b"pedia"), vec![0x10, 0x21, 0xBF, 0x04, 0x20]);
    assert_eq!(rc4_apply(b"Key", &rc4_apply(b"Key", b"Plaintext")), b"Plaintext");
}

#[test]
fn what_is_not_supported_is_an_encrypted_document() {
    let plain = content("x");
    let bytes = encrypted("<< /Filter /Other /V 4 /R 4 /O () /U () /P 0 >>", plain.clone(), vec![]);
    assert!(matches!(Document::open(bytes), Err(PdfError::Encrypted)));
    let bytes = encrypted("<< /Filter /Standard /V 4 /R 4 /O () /U () >>", plain, vec![]);
    assert!(matches!(Document::open(bytes), Err(PdfError::Encrypted)));
}

#[test]
fn the_dictionary_of_the_encryption_is_not_encrypted() {
    let doc = Document::open(aes128_file(b"", "x")).unwrap();
    let encrypt = doc.resolve(ObjRef::new(7, 0)).unwrap();
    assert_eq!(encrypt.as_dict().unwrap().get("O"), Some(&Object::String(OWNER.to_vec())));
}

#[test]
fn a_decryptor_by_itself() {
    let key = file_key(b"pw", 16, 3);
    let mut dict = Dictionary::new();
    dict.insert("Filter", Object::Name("Standard".to_string()));
    dict.insert("V", Object::Integer(2));
    dict.insert("R", Object::Integer(3));
    dict.insert("Length", Object::Integer(128));
    dict.insert("P", Object::Integer(PERMISSIONS as i64));
    dict.insert("O", Object::String(OWNER.to_vec()));
    dict.insert("U", Object::String(user_entry(&key, 3)));
    let made = Decryptor::new(&dict, &ID, Some(7), b"pw");
    let d = match made {
        Ok(d) => d,
        Err(_) => panic!("expected a decryptor"),
    };
    assert_eq!(d.encrypt_obj_num(), Some(7));
    let secret = rc4_apply(&object_key(&key, 12, false), b"secret");
    assert_eq!(d.decrypt_bytes(&secret, 12, 0), b"secret");
    let mut object = Object::Array(vec![Object::String(secret), Object::Integer(1)]);
    d.decrypt_object(&mut object, 12, 0);
    assert_eq!(
        object,
        Object::Array(vec![Object::String(b"secret".to_vec()), Object::Integer(1)])
    );
    assert!(matches!(Decryptor::new(&dict, &ID, None, b"no"), Err(DecryptError::WrongPassword)));
    dict.insert("Filter", Object::Name("Other".to_string()));
    assert!(matches!(Decryptor::new(&dict, &ID, None, b"pw"), Err(DecryptError::Unsupported)));
}
