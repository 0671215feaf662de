//! A document: its objects, found by their numbers.
use vstd::prelude::*;
use crate::crypt::{cipher, decrypted, Cipher, DecryptError, Decryptor};
use crate::error::{ErrorModel, Expected, PdfError, Problem};
use crate::filters::{decode_stream, stream_decoded};
use crate::object::{entry, DictModel, Dictionary, ObjRef, Object, ObjectModel, Stream};
use crate::parser::{indirect_at, next_object, Indirect, Parsed, Parser, Reader};
use crate::table::{count, greatest, is_greatest, lookup};
use crate::xref::{low32, parse_xref_chain, xref_of, XrefEntry, XrefModel, XrefTable};

verus! {

/// A document by what it says: its bytes, where its objects stand, its trailer, and how it is
/// decrypted with the number of the object that is not encrypted.
pub ghost struct DocModel {
    pub data: Seq<u8>,
    pub xref: XrefModel,
    pub trailer: DictModel,
    pub cipher: Option<(Cipher, Option<u32>)>,
}

/// An object, or why there is none.
pub type Outcome = Result<ObjectModel, ErrorModel>;

/// `r` is the outcome.
pub open spec fn returns_object(r: Result<Object, PdfError>, o: Outcome) -> bool {
    match o {
        Ok(m) => r is Ok && r->Ok_0@ == m,
        Err(e) => r is Err && r->Err_0@ == e,
    }
}

/// The offset that the header of an object stream gives the object `index`, from its `i`-th pair
/// of numbers on; `found` is what was found before. All pairs are read.
pub open spec fn header_offset(
    d: Seq<u8>,
    r: Reader,
    i: int,
    n: int,
    index: u32,
    found: Option<i64>,
) -> Result<Option<i64>, ErrorModel>
    decreases n - i,
{
    if i >= n {
        Ok(found)
    } else {
        match next_object(d, r) {
            Parsed::Fault(e) => Err(e),
            Parsed::Object(num, r1) => if num.integer() is None {
                Err(ErrorModel::UnexpectedType(Expected::Integer))
            } else {
                match next_object(d, r1) {
                    Parsed::Fault(e) => Err(e),
                    Parsed::Object(offset, r2) => match offset.integer() {
                        None => Err(ErrorModel::UnexpectedType(Expected::Integer)),
                        Some(k) => header_offset(
                            d,
                            r2,
                            i + 1,
                            n,
                            index,
                            if low32(i) == index {
                                Some(k)
                            } else {
                                found
                            },
                        ),
                    },
                }
            },
        }
    }
}

/// A required whole number of a dictionary.
pub open spec fn required_int(d: DictModel, key: Seq<char>) -> Result<int, ErrorModel> {
    match entry(d, key) {
        Some(ObjectModel::Integer(n)) => Ok(n),
        Some(_) => Err(ErrorModel::UnexpectedType(Expected::Integer)),
        None => Err(ErrorModel::MissingKey(key)),
    }
}

/// The object `index` of an object stream.
pub open spec fn unpacked(dict: DictModel, raw: Seq<u8>, stream_num: u32, index: u32) -> Outcome {
    match (required_int(dict, "N"@), required_int(dict, "First"@)) {
        (Err(e), _) => Err(e),
        (_, Err(e)) => Err(e),
        (Ok(n), Ok(first)) => match stream_decoded(dict, raw) {
            Err(e) => Err(e),
            Ok(d) => match header_offset(d, Reader { ahead: seq![], pos: 0 }, 0, n, index, None) {
                Err(e) => Err(e),
                Ok(None) => Err(ErrorModel::ObjectNotFound(stream_num, 0)),
                Ok(Some(offset)) => if 0 <= first + offset <= usize::MAX {
                    match next_object(d, Reader { ahead: seq![], pos: first + offset }) {
                        Parsed::Object(o, _) => Ok(o),
                        Parsed::Fault(e) => Err(e),
                    }
                } else {
                    Err(ErrorModel::InvalidObject(0, Problem::BadObjectStream))
                },
            },
        },
    }
}

impl DocModel {
    /// An object as it is decrypted.
    pub open spec fn plain(self, o: ObjectModel, num: u32, gen: u16) -> ObjectModel {
        match self.cipher {
            Some((c, skipped)) => if skipped == Some(num) {
                o
            } else {
                decrypted(c, o, num, gen)
            },
            None => o,
        }
    }

    /// The object `num`, as one of those in the object streams `seen`. An object in an object
    /// stream was decrypted with the stream.
    pub open spec fn resolved_in(self, num: u32, gen: u16, seen: Set<u32>) -> Outcome
        decreases self.xref.dom().difference(seen).len(),
        via Self::resolved_in_shrinks
    {
        if !self.xref.contains_key(num) {
            Err(ErrorModel::ObjectNotFound(num, gen))
        } else {
            match self.xref[num] {
                XrefEntry::Offset(offset) => match indirect_at(self.data, offset as int) {
                    Indirect::Fault(e) => Err(e),
                    Indirect::Object(_, _, o, _) => Ok(self.plain(o, num, gen)),
                },
                XrefEntry::Compressed { stream_num, index } => if seen.contains(num)
                    || !self.xref.dom().finite() {
                    Err(ErrorModel::InvalidObject(0, Problem::BadObjectStream))
                } else {
                    match self.resolved_in(stream_num, 0, seen.insert(num)) {
                        Err(e) => Err(e),
                        Ok(ObjectModel::Stream(dict, raw)) => unpacked(
                            dict,
                            raw,
                            stream_num,
                            index,
                        ),
                        Ok(_) => Err(ErrorModel::InvalidObject(0, Problem::BadObjectStream)),
                    }
                },
            }
        }
    }

    #[via_fn]
    proof fn resolved_in_shrinks(self, num: u32, gen: u16, seen: Set<u32>) {
        if self.xref.dom().finite() && self.xref.contains_key(num) && !seen.contains(num) {
            stream_shrinks(self.xref, num, seen);
        }
    }

    /// The object that a reference means.
    pub open spec fn resolved(self, r: ObjRef) -> Outcome {
        self.resolved_in(r.num, r.gen, Set::empty())
    }

    /// An object, followed where it is a reference.
    pub open spec fn got(self, o: ObjectModel) -> Outcome {
        match o {
            ObjectModel::Reference(r) => self.resolved(r),
            _ => Ok(o),
        }
    }

    /// The catalog of the document.
    pub open spec fn root(self) -> Result<DictModel, ErrorModel> {
        match entry(self.trailer, "Root"@) {
            None => Err(ErrorModel::MissingKey("Root"@)),
            Some(o) => match self.got(o) {
                Err(e) => Err(e),
                Ok(m) => match m.dict() {
                    Some(d) => Ok(d),
                    None => Err(ErrorModel::UnexpectedType(Expected::Dictionary)),
                },
            },
        }
    }
}

proof fn stream_shrinks(m: XrefModel, num: u32, seen: Set<u32>)
    requires
        m.dom().finite(),
        m.contains_key(num),
        !seen.contains(num),
    ensures
        m.dom().difference(seen.insert(num)).len() < m.dom().difference(seen).len(),
{
    let a = m.dom().difference(seen);
    assert(a.contains(num));
    assert(m.dom().difference(seen.insert(num)) =~= a.remove(num));
}

/// The first identifier of a file.
pub open spec fn first_id(trailer: DictModel) -> Seq<u8> {
    match entry(trailer, "ID"@) {
        Some(ObjectModel::Array(items)) => if items.len() > 0 {
            match items[0] {
                ObjectModel::String(s) => s,
                _ => seq![],
            }
        } else {
            seq![]
        },
        _ => seq![],
    }
}

/// What opening a file with a password gives.
pub open spec fn opened(data: Seq<u8>, password: Seq<u8>) -> Result<DocModel, ErrorModel> {
    match xref_of(data) {
        Err(e) => Err(e),
        Ok((xref, trailer)) => {
            let doc = DocModel { data, xref, trailer, cipher: None };
            match entry(trailer, "Encrypt"@) {
                None => Ok(doc),
                Some(o) => match doc.got(o) {
                    Err(e) => Err(e),
                    Ok(m) => match m.dict() {
                        None => Err(ErrorModel::UnexpectedType(Expected::Dictionary)),
                        Some(d) => match cipher(d, first_id(trailer), password) {
                            Ok(c) => Ok(
                                DocModel {
                                    data,
                                    xref,
                                    trailer,
                                    cipher: Some(
                                        (
                                            c,
                                            match o {
                                                ObjectModel::Reference(r) => Some(r.num),
                                                _ => None,
                                            },
                                        ),
                                    ),
                                },
                            ),
                            Err(DecryptError::Unsupported) => Err(ErrorModel::Encrypted),
                            Err(DecryptError::WrongPassword) => Err(ErrorModel::IncorrectPassword),
                        },
                    },
                },
            }
        },
    }
}

/// An open document.
pub struct Document {
    data: Vec<u8>,
    xref: XrefTable,
    trailer: Dictionary,
    decryption: Option<Decryptor>,
}

impl View for Document {
    type V = DocModel;

    closed spec fn view(&self) -> DocModel {
        DocModel {
            data: self.data@,
            xref: self.xref.entries@,
            trailer: self.trailer@,
            cipher: match self.decryption {
                Some(d) => Some((d.cipher(), d.plain_object())),
                None => None,
            },
        }
    }
}

/// The offset of the object `index` by the header of an object stream.
fn read_header_offset(data: &[u8], n: i64, index: u32) -> (r: Result<Option<i64>, PdfError>)
    ensures
        match header_offset(data@, Reader { ahead: seq![], pos: 0 }, 0, n as int, index, None) {
            Ok(k) => r is Ok && r->Ok_0 == k,
            Err(e) => r is Err && r->Err_0@ == e,
        },
{
    let ghost goal = header_offset(
        data@,
        Reader { ahead: seq![], pos: 0 },
        0,
        n as int,
        index,
        None,
    );
    let mut parser = Parser::new(data);
    let mut found: Option<i64> = None;
    let mut i: i64 = 0;
    while i < n
        invariant
            0 <= i,
            parser.wf(),
            parser.bytes() == data@,
            goal == header_offset(
                data@,
                Reader { ahead: seq![], pos: 0 },
                0,
                n as int,
                index,
                None,
            ),
            goal == header_offset(data@, parser.reader(), i as int, n as int, index, found),
        decreases n - i,
    {
        match parser.parse_object() {
            Err(e) => {
                return Err(e);
            },
            Ok(o) => {
                if o.as_int().is_none() {
                    return Err(PdfError::UnexpectedType(Expected::Integer));
                }
            },
        }
        let offset: i64 = match parser.parse_object() {
            Err(e) => {
                return Err(e);
            },
            Ok(o) => match o.as_int() {
                Some(k) => k,
                None => {
                    return Err(PdfError::UnexpectedType(Expected::Integer));
                },
            },
        };
        if (i % 0x1_0000_0000) as u32 == index {
            found = Some(offset);
        }
        i += 1;
    }
    Ok(found)
}

/// Takes the object `index` out of an object stream.
fn unpack(stream: &Stream, stream_num: u32, index: u32) -> (r: Result<Object, PdfError>)
    ensures
        returns_object(r, unpacked(stream.dict@, stream.raw_data@, stream_num, index)),
{
    let n: i64 = match stream.dict.get_int("N") {
        Ok(n) => n,
        Err(e) => {
            return Err(e);
        },
    };
    let first: i64 = match stream.dict.get_int("First") {
        Ok(n) => n,
        Err(e) => {
            return Err(e);
        },
    };
    let data = match decode_stream(stream) {
        Ok(d) => d,
        Err(e) => {
            return Err(e);
        },
    };
    match read_header_offset(data.as_slice(), n, index) {
        Err(e) => Err(e),
        Ok(None) => Err(PdfError::ObjectNotFound(stream_num, 0)),
        Ok(Some(offset)) => {
            let pos: i128 = first as i128 + offset as i128;
            if 0 <= pos && pos <= usize::MAX as i128 {
                let mut parser = Parser::with_pos(data.as_slice(), pos as usize);
                parser.parse_object()
            } else {
                Err(PdfError::InvalidObject(0, Problem::BadObjectStream))
            }
        },
    }
}

impl Document {
    /// Opens a document with an empty user password.
    pub fn open(data: Vec<u8>) -> (r: Result<Self, PdfError>)
        ensures
            match opened(data@, seq![]) {
                Ok(m) => r is Ok && r->Ok_0@ == m,
                Err(e) => r is Err && r->Err_0@ == e,
            },
    {
        let none: [u8; 0] = [];
        assert(none@ =~= seq![]);
        Self::open_with_password(data, none.as_slice())
    }

    /// Opens a document with a user password, which a document that is not encrypted does not
    /// need.
    pub fn open_with_password(data: Vec<u8>, password: &[u8]) -> (r: Result<Self, PdfError>)
        ensures
            match opened(data@, password@) {
                Ok(m) => r is Ok && r->Ok_0@ == m,
                Err(e) => r is Err && r->Err_0@ == e,
            },
    {
        let (xref, trailer) = match parse_xref_chain(data.as_slice()) {
            Ok(p) => p,
            Err(e) => {
                return Err(e);
            },
        };
        let doc = Document { data, xref, trailer, decryption: None };
        let decryptor: Decryptor = match doc.trailer.get("Encrypt") {
            None => {
                return Ok(doc);
            },
            Some(o) => {
                let encrypt = match doc.get(o) {
                    Ok(m) => m,
                    Err(e) => {
                        return Err(e);
                    },
                };
                let dict = match encrypt.as_dict() {
                    Some(d) => d,
                    None => {
                        return Err(PdfError::UnexpectedType(Expected::Dictionary));
                    },
                };
                let num: Option<u32> = match o.as_reference() {
                    Some(r) => Some(r.num),
                    None => None,
                };
                let id = read_first_id(&doc.trailer);
                match Decryptor::new(dict, id.as_slice(), num, password) {
                    Ok(d) => d,
                    Err(DecryptError::Unsupported) => {
                        return Err(PdfError::Encrypted);
                    },
                    Err(DecryptError::WrongPassword) => {
                        return Err(PdfError::IncorrectPassword);
                    },
                }
            },
        };
        Ok(
            Document {
                data: doc.data,
                xref: doc.xref,
                trailer: doc.trailer,
                decryption: Some(decryptor),
            },
        )
    }

    /// How many objects there are.
    pub fn object_count(&self) -> (r: usize)
        ensures
            r == self@.xref.len(),
    {
        count(&self.xref.entries)
    }

    pub fn trailer(&self) -> (r: &Dictionary)
        ensures
            r@ == self@.trailer,
    {
        &self.trailer
    }

    /// The bytes of the file.
    pub fn raw_bytes(&self) -> (r: &[u8])
        ensures
            r@ == self@.data,
    {
        self.data.as_slice()
    }

    /// Finds the object that a reference means, at its offset or in its object stream.
    pub fn resolve(&self, r: ObjRef) -> (out: Result<Object, PdfError>)
        ensures
            returns_object(out, self@.resolved(r)),
    {
        let mut seen: Vec<u32> = Vec::new();
        self.resolve_in(r.num, r.gen, &mut seen, Ghost(Set::empty()))
    }

    fn resolve_in(
        &self,
        num: u32,
        gen: u16,
        seen: &mut Vec<u32>,
        Ghost(set): Ghost<Set<u32>>,
    ) -> (out: Result<Object, PdfError>)
        requires
            forall|n: u32| set.contains(n) <==> old(seen)@.contains(n),
        ensures
            returns_object(out, self@.resolved_in(num, gen, set)),
        decreases self@.xref.dom().difference(set).len(),
    {
        proof {
            table_is_finite(&self.xref);
        }
        match lookup(&self.xref.entries, num) {
            None => Err(PdfError::ObjectNotFound(num, gen)),
            Some(XrefEntry::Offset(offset)) => {
                let mut parser = Parser::with_pos(self.data.as_slice(), *offset);
                match parser.parse_indirect_object() {
                    Err(e) => Err(e),
                    Ok((_, _, o)) => {
                        let mut object = o;
                        match &self.decryption {
                            Some(d) => {
                                let skipped: bool = match d.encrypt_obj_num() {
                                    Some(n) => n == num,
                                    None => false,
                                };
                                if !skipped {
                                    d.decrypt_object(&mut object, num, gen);
                                }
                            },
                            None => {},
                        }
                        Ok(object)
                    },
                }
            },
            Some(XrefEntry::Compressed { stream_num, index }) => {
                let mut i: usize = 0;
                while i < seen.len()
                    invariant
                        0 <= i <= seen@.len(),
                        forall|j: int| 0 <= j < i ==> #[trigger] seen@[j] != num,
                    ensures
                        i < seen@.len() ==> seen@[i as int] == num,
                        i >= seen@.len() ==> !seen@.contains(num),
                    decreases seen@.len() - i,
                {
                    if seen[i] == num {
                        break;
                    }
                    i += 1;
                }
                if i < seen.len() {
                    return Err(PdfError::InvalidObject(0, Problem::BadObjectStream));
                }
                proof {
                    stream_shrinks(self@.xref, num, set);
                    let before = seen@;
                    let after = before.push(num);
                    assert forall|n: u32| set.insert(num).contains(n) <==> after.contains(n) by {
                        if before.contains(n) {
                            assert(after[before.index_of(n)] == n);
                        }
                        if n == num {
                            assert(after[before.len() as int] == n);
                        }
                        if after.contains(n) && n != num {
                            assert(before[after.index_of(n)] == n);
                        }
                    }
                }
                seen.push(num);
                match self.resolve_in(*stream_num, 0, seen, Ghost(set.insert(num))) {
                    Err(e) => Err(e),
                    Ok(Object::Stream(stream)) => unpack(&stream, *stream_num, *index),
                    Ok(_) => Err(PdfError::InvalidObject(0, Problem::BadObjectStream)),
                }
            },
        }
    }

    /// The object itself, or what it means where it is a reference.
    pub fn get(&self, object: &Object) -> (r: Result<Object, PdfError>)
        ensures
            returns_object(r, self@.got(object@)),
    {
        match object {
            Object::Reference(r) => self.resolve(*r),
            _ => Ok(object.clone()),
        }
    }

    /// The catalog.
    pub fn root(&self) -> (r: Result<Dictionary, PdfError>)
        ensures
            match self@.root() {
                Ok(d) => r is Ok && r->Ok_0@ == d,
                Err(e) => r is Err && r->Err_0@ == e,
            },
    {
        match self.trailer.get("Root") {
            None => Err(PdfError::MissingKey("Root".to_owned())),
            Some(o) => match self.get(o) {
                Err(e) => Err(e),
                Ok(m) => match m.as_dict() {
                    Some(d) => Ok(d.clone()),
                    None => Err(PdfError::UnexpectedType(Expected::Dictionary)),
                },
            },
        }
    }

    /// The dictionary with the author, the title and the like.
    pub fn metadata_dict(&self) -> (r: Option<Dictionary>)
        ensures
            match r {
                Some(d) => {
                    &&& entry(self@.trailer, "Info"@) is Some
                    &&& self@.got(self@.trailer["Info"@]) is Ok
                    &&& self@.got(self@.trailer["Info"@])->Ok_0.dict() == Some(d@)
                },
                None => match entry(self@.trailer, "Info"@) {
                    Some(o) => match self@.got(o) {
                        Ok(m) => m.dict() is None,
                        Err(_) => true,
                    },
                    None => true,
                },
            },
    {
        match self.trailer.get("Info") {
            None => None,
            Some(o) => match self.get(o) {
                Err(_) => None,
                Ok(m) => match m.as_dict() {
                    Some(d) => Some(d.clone()),
                    None => None,
                },
            },
        }
    }

    /// The number behind the greatest that is in use.
    pub fn next_free_object_num(&self) -> (r: u32)
        requires
            !self@.xref.contains_key(u32::MAX),
        ensures
            is_greatest(self@.xref, (r - 1) as u32),
            r >= 1,
    {
        let n: u32 = greatest(&self.xref.entries);
        n + 1
    }

    /// The greatest number that is in use, or 0 where there is none.
    pub(crate) fn greatest_object_num(&self) -> (r: u32)
        ensures
            is_greatest(self@.xref, r),
    {
        greatest(&self.xref.entries)
    }

    /// Whether a number is left behind the greatest that is in use.
    pub fn has_free_object_num(&self) -> (r: bool)
        ensures
            r == !self@.xref.contains_key(u32::MAX),
    {
        lookup(&self.xref.entries, u32::MAX).is_none()
    }
}

proof fn table_is_finite(t: &XrefTable)
    ensures
        t.entries@.dom().finite(),
{
    broadcast use vstd::std_specs::btree::group_btree_axioms;

}

fn read_first_id(trailer: &Dictionary) -> (r: Vec<u8>)
    ensures
        r@ == first_id(trailer@),
{
    let none: Vec<u8> = Vec::new();
    assert(none@ =~= seq![]);
    match trailer.get("ID") {
        Some(Object::Array(items)) => {
            if items.len() == 0 {
                return none;
            }
            assert(trailer@["ID"@]->Array_0[0] == items@[0]@);
            match &items[0] {
                Object::String(s) => crate::object::clone_bytes(s.as_slice()),
                _ => none,
            }
        },
        _ => none,
    }
}

} // verus!
