//! Where the objects of a file stand: cross-reference tables and streams, and the search that
//! takes their place where they cannot be read.
use std::collections::BTreeMap;
use vstd::prelude::*;
use vstd::slice::slice_subrange;
use crate::bytes::{find_last, rfind_subslice};
use crate::error::{ErrorModel, PdfError, XrefProblem};
use crate::filters::{decode_stream, stream_decoded};
use crate::lexer::{lex, lex_progress, Lexed, Lexer, Token, TokenModel};
use crate::object::{entry, entry_keys, lists_keys, DictModel, Dictionary, ObjRef, Object, ObjectModel};
use crate::parser::{indirect_at, next_object, Indirect, Parsed, Parser, Reader};
use crate::table::{empty_table, lists_numbers, lookup, numbers, put};
use crate::text::same_text;

verus! {

/// Where an object stands: at an offset, or as one of those in an object stream.
#[derive(Debug, Clone, Copy, PartialEq, Eq, Structural)]
pub enum XrefEntry {
    Offset(usize),
    Compressed { stream_num: u32, index: u32 },
}

/// For each object number where its object stands.
#[derive(Debug)]
pub struct XrefTable {
    pub entries: BTreeMap<u32, XrefEntry>,
}

pub type XrefModel = Map<u32, XrefEntry>;

/// What was read of a file: where its objects stand, and its trailer.
pub type Section = Result<(XrefModel, DictModel), ErrorModel>;

/// `r` is what was read.
pub open spec fn returns_section(
    r: Result<(XrefTable, Dictionary), PdfError>,
    s: Section,
) -> bool {
    match s {
        Ok((table, trailer)) => r is Ok && r->Ok_0.0.entries@ == table && r->Ok_0.1@ == trailer,
        Err(e) => r is Err && r->Err_0@ == e,
    }
}

pub open spec fn bad(problem: XrefProblem) -> ErrorModel {
    ErrorModel::InvalidXref(problem)
}

/// `startxref`
pub open spec fn startxref_word() -> Seq<u8> {
    seq![115u8, 116, 97, 114, 116, 120, 114, 101, 102]
}

/// `trailer`
pub open spec fn trailer_word() -> Seq<u8> {
    seq![116u8, 114, 97, 105, 108, 101, 114]
}

/// Where the last 2048 bytes of a file start.
pub open spec fn tail_start(d: Seq<u8>) -> int {
    if d.len() > 2048 {
        d.len() - 2048
    } else {
        0
    }
}

/// The offset behind the last `startxref` in the last 2048 bytes of a file.
pub open spec fn startxref_offset(d: Seq<u8>) -> Result<usize, ErrorModel> {
    match find_last(d.skip(tail_start(d)), startxref_word()) {
        None => Err(bad(XrefProblem::NoStartxref)),
        Some(i) => match lex(d, tail_start(d) + i + 9) {
            Lexed::Fault(e, _) => Err(e),
            Lexed::Token(TokenModel::Integer(n), _) => if 0 <= n <= usize::MAX {
                Ok(n as usize)
            } else {
                Err(bad(XrefProblem::NoOffsetAfterStartxref))
            },
            _ => Err(bad(XrefProblem::NoOffsetAfterStartxref)),
        },
    }
}

/// Reads the offset behind the last `startxref`.
pub fn find_startxref_offset(data: &[u8]) -> (r: Result<usize, PdfError>)
    ensures
        match startxref_offset(data@) {
            Ok(n) => r is Ok && r->Ok_0 == n && n <= i64::MAX,
            Err(e) => r is Err && r->Err_0@ == e,
        },
{
    let start: usize = if data.len() > 2048 {
        data.len() - 2048
    } else {
        0
    };
    let zone = slice_subrange(data, start, data.len());
    let word: [u8; 9] = [115, 116, 97, 114, 116, 120, 114, 101, 102];
    assert(word@ =~= startxref_word());
    assert(zone@ =~= data@.skip(tail_start(data@)));
    match rfind_subslice(zone, word.as_slice()) {
        None => Err(PdfError::InvalidXref(XrefProblem::NoStartxref)),
        Some(i) => {
            let mut lexer = Lexer::with_pos(data, start + i + 9);
            match lexer.next_token() {
                Err(e) => Err(e),
                Ok(Some(Token::Integer(n))) => {
                    if n >= 0 && n as u64 <= usize::MAX as u64 {
                        Ok(n as usize)
                    } else {
                        Err(PdfError::InvalidXref(XrefProblem::NoOffsetAfterStartxref))
                    }
                },
                Ok(_) => Err(PdfError::InvalidXref(XrefProblem::NoOffsetAfterStartxref)),
            }
        },
    }
}

/// A number of an entry as an offset; one that no file has stands beyond every file.
pub open spec fn offset_of(n: int) -> usize {
    if 0 <= n <= usize::MAX {
        n as usize
    } else {
        usize::MAX
    }
}

fn to_offset(n: i64) -> (r: usize)
    ensures
        r == offset_of(n as int),
{
    if n >= 0 && n as u64 <= usize::MAX as u64 {
        n as usize
    } else {
        usize::MAX
    }
}

/// The low 32 bits of a number.
pub open spec fn low32(n: int) -> u32 {
    (n % 0x1_0000_0000) as u32
}

fn sum32(a: i64, b: i64) -> (r: u32)
    ensures
        r == low32(a + b),
{
    let n: i128 = a as i128 + b as i128;
    let m: i128 = n % 0x1_0000_0000;
    (if m < 0 {
        m + 0x1_0000_0000
    } else {
        m
    }) as u32
}

/// What was read of a table, and where reading goes on.
pub type Rows = Result<(XrefModel, int), ErrorModel>;

/// The entries of a subsection from its `i`-th on, put into `table`: an offset, a generation and
/// `n` for an object that is in use.
pub open spec fn rows_from(
    d: Seq<u8>,
    p: int,
    start: int,
    count: int,
    i: int,
    table: XrefModel,
) -> Rows
    decreases d.len() - p,
    via rows_shrink
{
    if i >= count || p < 0 {
        Ok((table, p))
    } else {
        match lex(d, p) {
            Lexed::Fault(e, _) => Err(e),
            Lexed::Token(TokenModel::Integer(offset), p1) => match lex(d, p1) {
                Lexed::Fault(e, _) => Err(e),
                Lexed::Token(TokenModel::Integer(gen), p2) => match lex(d, p2) {
                    Lexed::Fault(e, _) => Err(e),
                    Lexed::Token(TokenModel::Keyword(kind), p3) => rows_from(
                        d,
                        p3,
                        start,
                        count,
                        i + 1,
                        if kind == "n"@ {
                            table.insert(low32(start + i), XrefEntry::Offset(offset_of(offset)))
                        } else {
                            table
                        },
                    ),
                    _ => Err(bad(XrefProblem::BadEntryKind)),
                },
                _ => Err(bad(XrefProblem::BadEntryGeneration)),
            },
            _ => Err(bad(XrefProblem::BadEntryOffset)),
        }
    }
}

#[via_fn]
proof fn rows_shrink(d: Seq<u8>, p: int, start: int, count: int, i: int, table: XrefModel) {
    if p >= 0 {
        three_tokens_progress(d, p);
    }
}

pub proof fn three_tokens_progress(d: Seq<u8>, p: int)
    requires
        0 <= p,
    ensures
        lex(d, p) is Token ==> p < lex(d, p)->Token_1 <= d.len() && (lex(
            d,
            lex(d, p)->Token_1,
        ) is Token ==> p < lex(d, lex(d, p)->Token_1)->Token_1 <= d.len() && (lex(
            d,
            lex(d, lex(d, p)->Token_1)->Token_1,
        ) is Token ==> p < lex(d, lex(d, lex(d, p)->Token_1)->Token_1)->Token_1 <= d.len())),
{
    lex_progress(d, p);
    if let Lexed::Token(_, p1) = lex(d, p) {
        lex_progress(d, p1);
        if let Lexed::Token(_, p2) = lex(d, p1) {
            lex_progress(d, p2);
        }
    }
}

pub proof fn rows_progress(d: Seq<u8>, p: int, start: int, count: int, i: int, table: XrefModel)
    requires
        0 <= p <= d.len(),
    ensures
        rows_from(d, p, start, count, i, table) is Ok ==> p <= rows_from(
            d,
            p,
            start,
            count,
            i,
            table,
        )->Ok_0.1 <= d.len(),
    decreases d.len() - p,
{
    three_tokens_progress(d, p);
    if i < count {
        if let Lexed::Token(TokenModel::Integer(offset), p1) = lex(d, p) {
            if let Lexed::Token(TokenModel::Integer(gen), p2) = lex(d, p1) {
                if let Lexed::Token(TokenModel::Keyword(kind), p3) = lex(d, p2) {
                    rows_progress(
                        d,
                        p3,
                        start,
                        count,
                        i + 1,
                        if kind == "n"@ {
                            table.insert(low32(start + i), XrefEntry::Offset(offset_of(offset)))
                        } else {
                            table
                        },
                    );
                }
            }
        }
    }
}

/// The subsections of a table from `p` on, put into `table`: each a first number, a count and
/// as many entries.
pub open spec fn subsections_from(d: Seq<u8>, p: int, table: XrefModel) -> Rows
    decreases d.len() - p,
    via subsections_shrink
{
    if !(0 <= p <= d.len()) {
        Ok((table, p))
    } else {
        match lex(d, p) {
            Lexed::Fault(e, _) => Err(e),
            Lexed::Token(TokenModel::Integer(start), p1) => match lex(d, p1) {
                Lexed::Fault(e, _) => Err(e),
                Lexed::Token(TokenModel::Integer(count), p2) => match rows_from(
                    d,
                    p2,
                    start,
                    count,
                    0,
                    table,
                ) {
                    Err(e) => Err(e),
                    Ok((rows, p3)) => subsections_from(d, p3, rows),
                },
                _ => Err(bad(XrefProblem::BadSubsectionHeader)),
            },
            _ => Ok((table, p)),
        }
    }
}

#[via_fn]
proof fn subsections_shrink(d: Seq<u8>, p: int, table: XrefModel) {
    if 0 <= p <= d.len() {
        three_tokens_progress(d, p);
        if let Lexed::Token(TokenModel::Integer(start), p1) = lex(d, p) {
            if let Lexed::Token(TokenModel::Integer(count), p2) = lex(d, p1) {
                rows_progress(d, p2, start, count, 0, table);
            }
        }
    }
}

/// A table from behind the word `xref` on, with the trailer behind it.
pub open spec fn classic_section(d: Seq<u8>, p: int) -> Section {
    match subsections_from(d, p, Map::empty()) {
        Err(e) => Err(e),
        Ok((table, p1)) => match lex(d, p1) {
            Lexed::Fault(e, _) => Err(e),
            Lexed::Token(t, p2) => if t == TokenModel::Keyword("trailer"@) {
                match next_object(d, Reader { ahead: seq![], pos: p2 }) {
                    Parsed::Fault(e) => Err(e),
                    Parsed::Object(o, _) => match o.dict() {
                        Some(trailer) => Ok((table, trailer)),
                        None => Err(bad(XrefProblem::TrailerIsNotADictionary)),
                    },
                }
            } else {
                Err(bad(XrefProblem::NoUsableTrailer))
            },
            _ => Err(bad(XrefProblem::NoUsableTrailer)),
        },
    }
}

/// Reads the entries of a subsection into `table`.
fn read_rows(lexer: &mut Lexer, start: i64, count: i64, table: &mut BTreeMap<u32, XrefEntry>) -> (r:
    Result<(), PdfError>)
    requires
        old(lexer).at() <= old(lexer).bytes().len(),
    ensures
        final(lexer).bytes() == old(lexer).bytes(),
        match rows_from(
            old(lexer).bytes(),
            old(lexer).at(),
            start as int,
            count as int,
            0,
            old(table)@,
        ) {
            Ok((rows, p)) => r is Ok && final(table)@ == rows && final(lexer).at() == p,
            Err(e) => r is Err && r->Err_0@ == e,
        },
{
    let ghost d = lexer.bytes();
    let ghost goal = rows_from(d, lexer.at(), start as int, count as int, 0, table@);
    proof {
        lexer.at_bounds();
    }
    let mut i: i64 = 0;
    while i < count
        invariant
            0 <= i,
            d == lexer.bytes(),
            d == old(lexer).bytes(),
            0 <= lexer.at() <= d.len(),
            goal == rows_from(
                old(lexer).bytes(),
                old(lexer).at(),
                start as int,
                count as int,
                0,
                old(table)@,
            ),
            goal == rows_from(d, lexer.at(), start as int, count as int, i as int, table@),
        decreases d.len() - lexer.at(),
    {
        proof {
            three_tokens_progress(d, lexer.at());
        }
        let offset: i64 = match lexer.next_token() {
            Err(e) => {
                return Err(e);
            },
            Ok(Some(Token::Integer(n))) => n,
            Ok(_) => {
                return Err(PdfError::InvalidXref(XrefProblem::BadEntryOffset));
            },
        };
        match lexer.next_token() {
            Err(e) => {
                return Err(e);
            },
            Ok(Some(Token::Integer(_))) => {},
            Ok(_) => {
                return Err(PdfError::InvalidXref(XrefProblem::BadEntryGeneration));
            },
        }
        match lexer.next_token() {
            Err(e) => {
                return Err(e);
            },
            Ok(Some(Token::Keyword(kind))) => {
                if same_text(kind.as_str(), "n") {
                    put(table, sum32(start, i), XrefEntry::Offset(to_offset(offset)));
                }
            },
            Ok(_) => {
                return Err(PdfError::InvalidXref(XrefProblem::BadEntryKind));
            },
        }
        i += 1;
    }
    Ok(())
}

/// Reads a table from behind the word `xref` on, with its trailer.
fn read_classic_section(data: &[u8], pos: usize) -> (r: Result<(XrefTable, Dictionary), PdfError>)
    requires
        pos <= data@.len(),
    ensures
        returns_section(r, classic_section(data@, pos as int)),
{
    let mut table: BTreeMap<u32, XrefEntry> = empty_table();
    let mut lexer = Lexer::with_pos(data, pos);
    let ghost d = data@;
    let ghost goal = subsections_from(d, pos as int, Map::empty());
    loop
        invariant
            d == data@,
            d == lexer.bytes(),
            0 <= lexer.at() <= d.len(),
            goal == subsections_from(d, pos as int, Map::empty()),
            goal == subsections_from(d, lexer.at(), table@),
        ensures
            goal == Ok::<(XrefModel, int), ErrorModel>((table@, lexer.at())),
            d == lexer.bytes(),
            0 <= lexer.at() <= d.len(),
        decreases d.len() - lexer.at(),
    {
        proof {
            three_tokens_progress(d, lexer.at());
        }
        let checkpoint: usize = lexer.pos();
        match lexer.next_token() {
            Err(e) => {
                return Err(e);
            },
            Ok(Some(Token::Integer(start))) => match lexer.next_token() {
                Err(e) => {
                    return Err(e);
                },
                Ok(Some(Token::Integer(count))) => {
                    proof {
                        rows_progress(d, lexer.at(), start as int, count as int, 0, table@);
                    }
                    match read_rows(&mut lexer, start, count, &mut table) {
                        Err(e) => {
                            return Err(e);
                        },
                        Ok(()) => {},
                    }
                },
                Ok(_) => {
                    return Err(PdfError::InvalidXref(XrefProblem::BadSubsectionHeader));
                },
            },
            Ok(_) => {
                lexer.seek(checkpoint);
                break;
            },
        }
    }
    proof {
        lex_progress(d, lexer.at());
    }
    match lexer.next_token() {
        Err(e) => {
            return Err(e);
        },
        Ok(Some(Token::Keyword(k))) => {
            if !same_text(k.as_str(), "trailer") {
                return Err(PdfError::InvalidXref(XrefProblem::NoUsableTrailer));
            }
        },
        Ok(_) => {
            return Err(PdfError::InvalidXref(XrefProblem::NoUsableTrailer));
        },
    }
    let mut parser = Parser::with_pos(data, lexer.pos());
    match parser.parse_object() {
        Err(e) => Err(e),
        Ok(o) => match o.as_dict() {
            Some(trailer) => Ok((XrefTable { entries: table }, trailer.clone())),
            None => Err(PdfError::InvalidXref(XrefProblem::TrailerIsNotADictionary)),
        },
    }
}

/// The number that bytes write, the highest first.
pub open spec fn be_value(s: Seq<u8>) -> nat
    decreases s.len(),
{
    if s.len() == 0 {
        0
    } else {
        be_value(s.drop_last()) * 256 + s.last() as nat
    }
}

/// The first three items, where they are whole numbers from 0 to 8.
pub open spec fn field_widths(dict: DictModel) -> Option<(int, int, int)> {
    match entry(dict, "W"@) {
        Some(ObjectModel::Array(items)) => if items.len() >= 3 && is_width(items[0]) && is_width(
            items[1],
        ) && is_width(items[2]) {
            Some((items[0]->Integer_0, items[1]->Integer_0, items[2]->Integer_0))
        } else {
            None
        },
        _ => None,
    }
}

pub open spec fn is_width(o: ObjectModel) -> bool {
    o is Integer && 0 <= o->Integer_0 <= 8
}

/// The whole numbers of an array.
pub open spec fn integers(items: Seq<ObjectModel>) -> Seq<int> {
    items.map_values(
        |o: ObjectModel|
            match o {
                ObjectModel::Integer(n) => n,
                _ => 0,
            },
    )
}

/// The first numbers and the counts of the subsections of a cross-reference stream: those of
/// `Index`, or all up to `Size`.
pub open spec fn subsection_list(dict: DictModel) -> Option<Seq<int>> {
    match entry(dict, "Index"@) {
        Some(ObjectModel::Array(items)) => Some(integers(items)),
        Some(_) => None,
        None => match entry(dict, "Size"@) {
            Some(ObjectModel::Integer(n)) => Some(seq![0, n]),
            _ => None,
        },
    }
}

/// What one entry of a cross-reference stream says of the object `num`.
pub open spec fn packed_entry(table: XrefModel, num: u32, kind: nat, a: nat, b: nat) -> XrefModel {
    if kind == 1 {
        table.insert(num, XrefEntry::Offset(offset_of(a as int)))
    } else if kind == 2 {
        table.insert(num, XrefEntry::Compressed { stream_num: low32(a as int), index: low32(b as int) })
    } else {
        table
    }
}

/// The entries from `p` on, with fields of the widths `w`, put into `table`. The next one is the
/// `i`-th of the `k`-th subsection. Without a first field an entry is an offset.
pub open spec fn packed_rows(
    data: Seq<u8>,
    p: int,
    w: (int, int, int),
    list: Seq<int>,
    k: int,
    i: int,
    table: XrefModel,
) -> XrefModel
    decreases data.len() - p, list.len() - k,
{
    if k < 0 || p < 0 || w.0 < 0 || w.1 < 0 || w.2 < 0 || 2 * k + 1 >= list.len() {
        table
    } else if i >= list[2 * k + 1] {
        packed_rows(data, p, w, list, k + 1, 0, table)
    } else if w.0 + w.1 + w.2 == 0 || p + w.0 + w.1 + w.2 > data.len() {
        table
    } else {
        let kind = if w.0 == 0 {
            1
        } else {
            be_value(data.subrange(p, p + w.0))
        };
        let a = be_value(data.subrange(p + w.0, p + w.0 + w.1));
        let b = be_value(data.subrange(p + w.0 + w.1, p + w.0 + w.1 + w.2));
        packed_rows(
            data,
            p + w.0 + w.1 + w.2,
            w,
            list,
            k,
            i + 1,
            packed_entry(table, low32(list[2 * k] + i), kind, a, b),
        )
    }
}

/// The cross-reference stream that stands at `p`.
pub open spec fn stream_section(d: Seq<u8>, p: int) -> Section {
    match indirect_at(d, p) {
        Indirect::Fault(e) => Err(e),
        Indirect::Object(_, _, ObjectModel::Stream(dict, raw), _) => if entry(dict, "Type"@)
            != Some(ObjectModel::Name("XRef"@)) {
            Err(bad(XrefProblem::MissingXref))
        } else {
            match (field_widths(dict), subsection_list(dict)) {
                (Some(w), Some(list)) => match stream_decoded(dict, raw) {
                    Err(e) => Err(e),
                    Ok(data) => Ok((packed_rows(data, 0, w, list, 0, 0, Map::empty()), dict)),
                },
                _ => Err(bad(XrefProblem::BadXrefStream)),
            }
        },
        _ => Err(bad(XrefProblem::MissingXref)),
    }
}

/// The cross-reference section at `p`: a table behind the word `xref`, or a stream.
pub open spec fn section_at(d: Seq<u8>, p: int) -> Section {
    match lex(d, p) {
        Lexed::Fault(e, _) => Err(e),
        Lexed::Token(t, q) => if t == TokenModel::Keyword("xref"@) {
            classic_section(d, q)
        } else {
            stream_section(d, p)
        },
        Lexed::End(_) => Err(bad(XrefProblem::MissingXref)),
    }
}

proof fn be_value_bound(s: Seq<u8>)
    requires
        s.len() <= 8,
    ensures
        be_value(s) < vstd::arithmetic::power::pow(256, s.len()),
        be_value(s) <= u64::MAX,
    decreases s.len(),
{
    reveal(vstd::arithmetic::power::pow);
    if s.len() > 0 {
        be_value_bound(s.drop_last());
        assert(vstd::arithmetic::power::pow(256, s.len()) == 256 * vstd::arithmetic::power::pow(
            256,
            (s.len() - 1) as nat,
        ));
    }
    assert(vstd::arithmetic::power::pow(256, 8) == 0x1_0000_0000_0000_0000) by {
        reveal_with_fuel(vstd::arithmetic::power::pow, 9);
    }
    vstd::arithmetic::power::lemma_pow_increases(256, s.len(), 8);
}

/// The number that up to eight bytes write.
fn read_field(data: &[u8], start: usize, end: usize) -> (r: u64)
    requires
        start <= end <= data@.len(),
        end - start <= 8,
    ensures
        r == be_value(data@.subrange(start as int, end as int)),
{
    let mut value: u64 = 0;
    let mut i: usize = start;
    assert(data@.subrange(start as int, start as int) =~= seq![]);
    while i < end
        invariant
            start <= i <= end <= data@.len(),
            end - start <= 8,
            value == be_value(data@.subrange(start as int, i as int)),
        decreases end - i,
    {
        proof {
            be_value_bound(data@.subrange(start as int, i + 1));
            assert(data@.subrange(start as int, i + 1).drop_last() =~= data@.subrange(
                start as int,
                i as int,
            ));
        }
        value = value * 256 + data[i] as u64;
        i += 1;
    }
    value
}

fn width_of(o: &Object) -> (r: Option<usize>)
    ensures
        match r {
            Some(n) => is_width(o@) && o@ == ObjectModel::Integer(n as int),
            None => !is_width(o@),
        },
{
    match o {
        Object::Integer(n) => if 0 <= *n && *n <= 8 {
            Some(*n as usize)
        } else {
            None
        },
        _ => None,
    }
}

fn read_widths(dict: &Dictionary) -> (r: Option<(usize, usize, usize)>)
    ensures
        match r {
            Some(w) => field_widths(dict@) == Some((w.0 as int, w.1 as int, w.2 as int)) && w.0 <= 8
                && w.1 <= 8 && w.2 <= 8,
            None => field_widths(dict@) is None,
        },
{
    match dict.get("W") {
        Some(Object::Array(items)) => {
            if items.len() < 3 {
                return None;
            }
            let ghost ms = dict@["W"@]->Array_0;
            assert(ms[0] == items@[0]@ && ms[1] == items@[1]@ && ms[2] == items@[2]@);
            match (width_of(&items[0]), width_of(&items[1]), width_of(&items[2])) {
                (Some(a), Some(b), Some(c)) => Some((a, b, c)),
                _ => None,
            }
        },
        _ => None,
    }
}

spec fn as_ints(s: Seq<i64>) -> Seq<int> {
    s.map_values(|n: i64| n as int)
}

fn read_subsection_list(dict: &Dictionary) -> (r: Option<Vec<i64>>)
    ensures
        match r {
            Some(list) => subsection_list(dict@) == Some(as_ints(list@)),
            None => subsection_list(dict@) is None,
        },
{
    match dict.get("Index") {
        Some(Object::Array(items)) => {
            let ghost ms = dict@["Index"@]->Array_0;
            let mut list: Vec<i64> = Vec::new();
            let mut i: usize = 0;
            while i < items.len()
                invariant
                    0 <= i <= items@.len(),
                    list@.len() == i,
                    ms.len() == items@.len(),
                    forall|j: int| 0 <= j < items@.len() ==> ms[j] == (#[trigger] items@[j])@,
                    forall|j: int| 0 <= j < i ==> #[trigger] list@[j] == integers(ms)[j],
                decreases items@.len() - i,
            {
                let n: i64 = match &items[i] {
                    Object::Integer(n) => *n,
                    _ => 0,
                };
                assert(ms[i as int] == items@[i as int]@);
                list.push(n);
                i += 1;
            }
            assert(as_ints(list@) =~= integers(ms));
            Some(list)
        },
        Some(_) => None,
        None => match dict.get("Size") {
            Some(Object::Integer(n)) => {
                let mut list: Vec<i64> = Vec::new();
                list.push(0);
                list.push(*n);
                assert(as_ints(list@) =~= seq![0int, *n as int]);
                Some(list)
            },
            _ => None,
        },
    }
}

fn low_half(n: u64) -> (r: u32)
    ensures
        r == low32(n as int),
{
    (n % 0x1_0000_0000) as u32
}

fn wide_offset(n: u64) -> (r: usize)
    ensures
        r == offset_of(n as int),
{
    if n <= usize::MAX as u64 {
        n as usize
    } else {
        usize::MAX
    }
}

fn read_packed_rows(data: &[u8], w: (usize, usize, usize), list: &Vec<i64>) -> (r: XrefTable)
    requires
        w.0 <= 8,
        w.1 <= 8,
        w.2 <= 8,
    ensures
        r.entries@ == packed_rows(
            data@,
            0,
            (w.0 as int, w.1 as int, w.2 as int),
            as_ints(list@),
            0,
            0,
            Map::empty(),
        ),
{
    let ghost ws = (w.0 as int, w.1 as int, w.2 as int);
    let ghost goal = packed_rows(data@, 0, ws, as_ints(list@), 0, 0, Map::empty());
    let mut table: BTreeMap<u32, XrefEntry> = empty_table();
    let size: usize = w.0 + w.1 + w.2;
    let mut p: usize = 0;
    let mut k: usize = 0;
    let mut i: i64 = 0;
    while list.len() >= 2 && k <= (list.len() - 2) / 2
        invariant
            w.0 <= 8,
            w.1 <= 8,
            w.2 <= 8,
            size == w.0 + w.1 + w.2,
            ws == (w.0 as int, w.1 as int, w.2 as int),
            0 <= p <= data@.len(),
            0 <= i,
            goal == packed_rows(data@, 0, ws, as_ints(list@), 0, 0, Map::empty()),
            goal == packed_rows(
                data@,
                p as int,
                ws,
                as_ints(list@),
                k as int,
                i as int,
                table@,
            ),
        decreases data@.len() - p, list@.len() - k,
    {
        assert(as_ints(list@)[2 * k as int] == list@[2 * k as int]);
        assert(as_ints(list@)[2 * k + 1] == list@[2 * k + 1]);
        if i >= list[2 * k + 1] {
            k += 1;
            i = 0;
        } else if size == 0 || size > data.len() - p {
            return XrefTable { entries: table };
        } else {
            let kind: u64 = if w.0 == 0 {
                1
            } else {
                read_field(data, p, p + w.0)
            };
            let a: u64 = read_field(data, p + w.0, p + w.0 + w.1);
            let b: u64 = read_field(data, p + w.0 + w.1, p + size);
            let num: u32 = sum32(list[2 * k], i);
            if kind == 1 {
                put(&mut table, num, XrefEntry::Offset(wide_offset(a)));
            } else if kind == 2 {
                put(
                    &mut table,
                    num,
                    XrefEntry::Compressed { stream_num: low_half(a), index: low_half(b) },
                );
            }
            p += size;
            i += 1;
        }
    }
    XrefTable { entries: table }
}

fn read_stream_section(data: &[u8], offset: usize) -> (r: Result<
    (XrefTable, Dictionary),
    PdfError,
>)
    ensures
        returns_section(r, stream_section(data@, offset as int)),
{
    let mut parser = Parser::with_pos(data, offset);
    let object = match parser.parse_indirect_object() {
        Err(e) => {
            return Err(e);
        },
        Ok((_, _, o)) => o,
    };
    match object {
        Object::Stream(stream) => {
            let typed: bool = match stream.dict.get("Type") {
                Some(o) => o.is_name("XRef"),
                None => false,
            };
            if !typed {
                return Err(PdfError::InvalidXref(XrefProblem::MissingXref));
            }
            match (read_widths(&stream.dict), read_subsection_list(&stream.dict)) {
                (Some(w), Some(list)) => match decode_stream(&stream) {
                    Err(e) => Err(e),
                    Ok(rows) => Ok(
                        (read_packed_rows(rows.as_slice(), w, &list), stream.dict.clone()),
                    ),
                },
                _ => Err(PdfError::InvalidXref(XrefProblem::BadXrefStream)),
            }
        },
        _ => Err(PdfError::InvalidXref(XrefProblem::MissingXref)),
    }
}

fn parse_xref_section(data: &[u8], offset: usize) -> (r: Result<(XrefTable, Dictionary), PdfError>)
    ensures
        returns_section(r, section_at(data@, offset as int)),
{
    let mut lexer = Lexer::with_pos(data, offset);
    proof {
        lex_progress(data@, offset as int);
    }
    match lexer.next_token() {
        Err(e) => Err(e),
        Ok(None) => Err(PdfError::InvalidXref(XrefProblem::MissingXref)),
        Ok(Some(t)) => {
            let classic: bool = match &t {
                Token::Keyword(k) => same_text(k.as_str(), "xref"),
                _ => false,
            };
            if classic {
                read_classic_section(data, lexer.pos())
            } else {
                read_stream_section(data, offset)
            }
        },
    }
}

/// How many offsets of the file were not seen yet.
pub open spec fn unseen(d: Seq<u8>, seen: Set<int>) -> nat {
    vstd::set_lib::set_int_range(0, d.len() as int).difference(seen).len()
}

/// The sections from `offset` on, each with the offset of the one before it under `Prev`, added
/// to what later ones say. What later sections say holds; an offset that comes again, or a
/// section that cannot be read, ends the chain.
pub open spec fn chain_from(
    d: Seq<u8>,
    offset: int,
    seen: Set<int>,
    table: XrefModel,
    trailer: DictModel,
) -> (XrefModel, DictModel)
    decreases unseen(d, seen),
    via chain_shrinks
{
    if seen.contains(offset) || !(0 <= offset < d.len()) {
        (table, trailer)
    } else {
        match section_at(d, offset) {
            Err(_) => (table, trailer),
            Ok((older_table, older_trailer)) => {
                let all_table = older_table.union_prefer_right(table);
                let all_trailer = older_trailer.union_prefer_right(trailer);
                match entry(older_trailer, "Prev"@) {
                    Some(o) => match o.integer() {
                        Some(n) => chain_from(
                            d,
                            n as int,
                            seen.insert(offset),
                            all_table,
                            all_trailer,
                        ),
                        None => (all_table, all_trailer),
                    },
                    None => (all_table, all_trailer),
                }
            },
        }
    }
}

#[via_fn]
proof fn chain_shrinks(
    d: Seq<u8>,
    offset: int,
    seen: Set<int>,
    table: XrefModel,
    trailer: DictModel,
) {
    if !seen.contains(offset) && 0 <= offset < d.len() {
        seen_shrinks(d, seen, offset);
    }
}

pub proof fn seen_shrinks(d: Seq<u8>, seen: Set<int>, offset: int)
    requires
        !seen.contains(offset),
        0 <= offset < d.len(),
    ensures
        unseen(d, seen.insert(offset)) < unseen(d, seen),
{
    let all = vstd::set_lib::set_int_range(0, d.len() as int);
    vstd::set_lib::lemma_int_range(0, d.len() as int);
    let a = all.difference(seen);
    let b = all.difference(seen.insert(offset));
    assert(a.contains(offset));
    assert(b =~= a.remove(offset));
}

/// The tokens of a file, the last three with the position before each, and where the objects
/// stand whose heads `N G obj` were among them.
pub open spec fn scan_from(
    d: Seq<u8>,
    p: int,
    window: Seq<(int, TokenModel)>,
    table: XrefModel,
) -> Result<XrefModel, ErrorModel>
    decreases d.len() - p,
    via scan_shrinks
{
    if p < 0 {
        Ok(table)
    } else {
        match lex(d, p) {
            Lexed::Fault(e, _) => Err(e),
            Lexed::End(_) => Ok(table),
            Lexed::Token(t, q) => {
                let last = slid(window, p, t);
                scan_from(d, q, last, scanned(table, last))
            },
        }
    }
}

/// The window with a token more, at most three.
pub open spec fn slid(window: Seq<(int, TokenModel)>, p: int, t: TokenModel) -> Seq<
    (int, TokenModel),
> {
    if window.len() >= 3 {
        window.skip(window.len() - 2).push((p, t))
    } else {
        window.push((p, t))
    }
}

/// The table with the object whose head is in the window.
pub open spec fn scanned(table: XrefModel, window: Seq<(int, TokenModel)>) -> XrefModel {
    if window.len() == 3 && window[2].1 == TokenModel::Keyword("obj"@) && window[1].1 is Integer
        && window[0].1 is Integer && window[0].1->Integer_0 >= 0 {
        table.insert(low32(window[0].1->Integer_0), XrefEntry::Offset(window[0].0 as usize))
    } else {
        table
    }
}

#[via_fn]
proof fn scan_shrinks(d: Seq<u8>, p: int, window: Seq<(int, TokenModel)>, table: XrefModel) {
    if p >= 0 {
        lex_progress(d, p);
    }
}

/// The dictionary behind the last word `trailer` in a file.
pub open spec fn last_trailer(d: Seq<u8>) -> Option<DictModel> {
    match find_last(d, trailer_word()) {
        None => None,
        Some(i) => match next_object(d, Reader { ahead: seq![], pos: i + 7 }) {
            Parsed::Object(o, _) => o.dict(),
            Parsed::Fault(_) => None,
        },
    }
}

/// The object that stands at the offset of an entry is a document catalog.
pub open spec fn is_catalog(d: Seq<u8>, e: XrefEntry) -> bool {
    match e {
        XrefEntry::Offset(offset) => match indirect_at(d, offset as int) {
            Indirect::Object(_, _, o, _) => match o.dict() {
                Some(dict) => entry(dict, "Type"@) == Some(ObjectModel::Name("Catalog"@)),
                None => false,
            },
            Indirect::Fault(_) => false,
        },
        _ => false,
    }
}

/// `n` is the first number in the table with a catalog.
pub open spec fn first_catalog(d: Seq<u8>, table: XrefModel, n: u32) -> bool {
    &&& table.contains_key(n)
    &&& is_catalog(d, table[n])
    &&& forall|m: u32| #[trigger] table.contains_key(m) && m < n ==> !is_catalog(d, table[m])
}

/// A trailer made up where there is none: the first catalog is the root.
pub open spec fn made_up_trailer(d: Seq<u8>, table: XrefModel) -> DictModel {
    if exists|n: u32| first_catalog(d, table, n) {
        let n = choose|n: u32| first_catalog(d, table, n);
        Map::empty().insert("Root"@, ObjectModel::Reference(ObjRef { num: n, gen: 0 }))
    } else {
        Map::empty()
    }
}

/// What a search through the whole file finds.
pub open spec fn reconstructed(d: Seq<u8>) -> Section {
    match scan_from(d, 0, seq![], Map::empty()) {
        Err(e) => Err(e),
        Ok(table) => if table.dom() =~= Set::empty() {
            Err(bad(XrefProblem::NoObjects))
        } else {
            match last_trailer(d) {
                Some(trailer) => Ok((table, trailer)),
                None => Ok((table, made_up_trailer(d, table))),
            }
        },
    }
}

/// What a file says of where its objects stand: by the chain of its sections, or where that says
/// nothing, by a search through the file.
pub open spec fn xref_of(d: Seq<u8>) -> Section {
    match startxref_offset(d) {
        Err(_) => reconstructed(d),
        Ok(offset) => {
            let (table, trailer) = chain_from(
                d,
                offset as int,
                Set::empty(),
                Map::empty(),
                Map::empty(),
            );
            if table.dom() =~= Set::empty() {
                reconstructed(d)
            } else {
                Ok((table, trailer))
            }
        },
    }
}

/// Adds what `older` says of numbers of which `table` says nothing.
fn add_older(table: &mut BTreeMap<u32, XrefEntry>, older: &BTreeMap<u32, XrefEntry>)
    ensures
        final(table)@ == older@.union_prefer_right(old(table)@),
{
    let nums = numbers(older);
    let ghost before = table@;
    let mut i: usize = 0;
    while i < nums.len()
        invariant
            0 <= i <= nums@.len(),
            lists_numbers(older@, nums@),
            before == old(table)@,
            forall|n: u32|
                #[trigger] table@.contains_key(n) <==> before.contains_key(n) || exists|j: int|
                    0 <= j < i && #[trigger] nums@[j] == n,
            forall|n: u32|
                #[trigger] table@.contains_key(n) ==> table@[n] == if before.contains_key(n) {
                    before[n]
                } else {
                    older@[n]
                },
        decreases nums@.len() - i,
    {
        let n: u32 = nums[i];
        let ghost now = table@;
        proof {
            assert(nums@.contains(n));
        }
        match lookup(older, n) {
            Some(e) => {
                if lookup(table, n).is_none() {
                    put(table, n, *e);
                }
            },
            None => {},
        }
        proof {
            assert forall|m: u32|
                #[trigger] table@.contains_key(m) <==> before.contains_key(m) || exists|j: int|
                    0 <= j < i + 1 && #[trigger] nums@[j] == m by {
                if table@.contains_key(m) && !now.contains_key(m) {
                    assert(nums@[i as int] == m);
                }
                if exists|j: int| 0 <= j < i + 1 && #[trigger] nums@[j] == m {
                    let j = choose|j: int| 0 <= j < i + 1 && #[trigger] nums@[j] == m;
                    if j < i {
                        assert(nums@[j] == m);
                        assert(now.contains_key(m));
                    }
                }
            }
        }
        i += 1;
    }
    proof {
        let goal = older@.union_prefer_right(before);
        assert forall|n: u32| #[trigger] table@.contains_key(n) <==> goal.contains_key(n) by {
            if older@.contains_key(n) {
                assert(nums@.contains(n));
                let j = nums@.index_of(n);
                assert(nums@[j] == n);
            }
            if table@.contains_key(n) && !before.contains_key(n) {
                let j = choose|j: int| 0 <= j < i && #[trigger] nums@[j] == n;
                assert(nums@.contains(n));
            }
        }
        assert(table@ =~= goal);
    }
}

/// Adds what `older` says under names of which `trailer` says nothing.
fn add_older_entries(trailer: &mut Dictionary, older: &Dictionary)
    ensures
        final(trailer)@ == older@.union_prefer_right(old(trailer)@),
{
    let entries = older.iter();
    let ghost keys = entry_keys(entries@);
    let ghost before = trailer@;
    let mut i: usize = 0;
    while i < entries.len()
        invariant
            0 <= i <= entries@.len(),
            keys == entry_keys(entries@),
            lists_keys(older@, keys),
            forall|j: int|
                0 <= j < entries@.len() ==> (#[trigger] entries@[j]).1@ == older@[entries@[j].0@],
            before == old(trailer)@,
            forall|k: Seq<char>|
                #[trigger] trailer@.contains_key(k) <==> before.contains_key(k) || exists|j: int|
                    0 <= j < i && #[trigger] keys[j] == k,
            forall|k: Seq<char>|
                #[trigger] trailer@.contains_key(k) ==> trailer@[k] == if before.contains_key(k) {
                    before[k]
                } else {
                    older@[k]
                },
        decreases entries@.len() - i,
    {
        let e = &entries[i];
        let ghost k = e.0@;
        let ghost now = trailer@;
        proof {
            assert(keys[i as int] == k);
            assert(keys.contains(k));
        }
        if trailer.get(e.0.as_str()).is_none() {
            trailer.insert(e.0.as_str(), e.1.clone());
        }
        proof {
            assert forall|m: Seq<char>|
                #[trigger] trailer@.contains_key(m) <==> before.contains_key(m) || exists|j: int|
                    0 <= j < i + 1 && #[trigger] keys[j] == m by {
                if trailer@.contains_key(m) && !now.contains_key(m) {
                    assert(keys[i as int] == m);
                }
                if exists|j: int| 0 <= j < i + 1 && #[trigger] keys[j] == m {
                    let j = choose|j: int| 0 <= j < i + 1 && #[trigger] keys[j] == m;
                    if j < i {
                        assert(keys[j] == m);
                        assert(now.contains_key(m));
                    }
                }
            }
        }
        i += 1;
    }
    proof {
        let goal = older@.union_prefer_right(before);
        assert forall|k: Seq<char>| #[trigger] trailer@.contains_key(k) <==> goal.contains_key(k) by {
            if older@.contains_key(k) {
                assert(keys.contains(k));
                let j = keys.index_of(k);
                assert(keys[j] == k);
            }
            if trailer@.contains_key(k) && !before.contains_key(k) {
                let j = choose|j: int| 0 <= j < i && #[trigger] keys[j] == k;
                assert(keys.contains(k));
            }
        }
        assert(trailer@ =~= goal);
    }
}

/// Whether `offset` is among those seen.
fn was_seen(visited: &Vec<usize>, offset: usize) -> (r: bool)
    ensures
        r == visited@.contains(offset),
{
    let mut i: usize = 0;
    while i < visited.len()
        invariant
            0 <= i <= visited@.len(),
            forall|j: int| 0 <= j < i ==> #[trigger] visited@[j] != offset,
        decreases visited@.len() - i,
    {
        if visited[i] == offset {
            return true;
        }
        i += 1;
    }
    false
}

/// Follows the chain of sections from `start` on.
fn read_chain(data: &[u8], start: usize) -> (r: (XrefTable, Dictionary))
    ensures
        (r.0.entries@, r.1@) == chain_from(
            data@,
            start as int,
            Set::empty(),
            Map::empty(),
            Map::empty(),
        ),
{
    let ghost d = data@;
    let ghost goal = chain_from(d, start as int, Set::empty(), Map::empty(), Map::empty());
    let ghost mut seen: Set<int> = Set::empty();
    let mut table: BTreeMap<u32, XrefEntry> = empty_table();
    let mut trailer = Dictionary::new();
    let mut visited: Vec<usize> = Vec::new();
    let mut offset: usize = start;
    loop
        invariant
            d == data@,
            goal == chain_from(d, start as int, Set::empty(), Map::empty(), Map::empty()),
            goal == chain_from(d, offset as int, seen, table@, trailer@),
            forall|x: usize| seen.contains(x as int) <==> visited@.contains(x),
        decreases unseen(d, seen),
    {
        if was_seen(&visited, offset) || offset >= data.len() {
            return (XrefTable { entries: table }, trailer);
        }
        match parse_xref_section(data, offset) {
            Err(_) => {
                return (XrefTable { entries: table }, trailer);
            },
            Ok((section, section_trailer)) => {
                add_older(&mut table, &section.entries);
                add_older_entries(&mut trailer, &section_trailer);
                let prev: Option<i64> = match section_trailer.get("Prev") {
                    Some(o) => o.as_int(),
                    None => None,
                };
                match prev {
                    Some(n) => {
                        proof {
                            seen_shrinks(d, seen, offset as int);
                            let now = seen.insert(offset as int);
                            let v = visited@.push(offset);
                            assert forall|x: usize| now.contains(x as int) <==> v.contains(x) by {
                                if visited@.contains(x) {
                                    let j = visited@.index_of(x);
                                    assert(v[j] == x);
                                }
                                if x == offset {
                                    assert(v[visited@.len() as int] == x);
                                }
                                if v.contains(x) && x != offset {
                                    let j = v.index_of(x);
                                    assert(visited@[j] == x);
                                }
                            }
                            seen = now;
                        }
                        visited.push(offset);
                        if n < 0 || n as u64 > usize::MAX as u64 {
                            assert(chain_from(d, n as int, seen, table@, trailer@) == (
                                table@,
                                trailer@,
                            ));
                            return (XrefTable { entries: table }, trailer);
                        }
                        offset = n as usize;
                    },
                    None => {
                        return (XrefTable { entries: table }, trailer);
                    },
                }
            },
        }
    }
}

/// Reads where the objects of a file stand, and its trailer.
pub fn parse_xref_chain(data: &[u8]) -> (r: Result<(XrefTable, Dictionary), PdfError>)
    ensures
        returns_section(r, xref_of(data@)),
{
    match find_startxref_offset(data) {
        Err(_) => reconstruct_by_scan(data),
        Ok(start) => {
            let (table, trailer) = read_chain(data, start);
            if is_empty(&table.entries) {
                reconstruct_by_scan(data)
            } else {
                Ok((table, trailer))
            }
        },
    }
}

/// Whether a table says nothing.
fn is_empty(table: &BTreeMap<u32, XrefEntry>) -> (r: bool)
    ensures
        r == (table@.dom() =~= Set::empty()),
{
    let nums = numbers(table);
    proof {
        if nums@.len() == 0 {
            assert forall|n: u32| !table@.dom().contains(n) by {
                if table@.contains_key(n) {
                    assert(nums@.contains(n));
                }
            }
        } else {
            assert(nums@.contains(nums@[0]));
            assert(table@.contains_key(nums@[0]));
        }
    }
    nums.len() == 0
}

/// The last three tokens with the positions before them, oldest first.
struct Window {
    positions: Vec<usize>,
    tokens: Vec<Token>,
}

impl Window {
    spec fn model(&self) -> Seq<(int, TokenModel)> {
        Seq::new(self.tokens@.len(), |i: int| (self.positions@[i] as int, self.tokens@[i]@))
    }

    spec fn wf(&self) -> bool {
        self.positions@.len() == self.tokens@.len() && self.tokens@.len() <= 3
    }

    fn slide(&mut self, pos: usize, token: Token)
        requires
            old(self).wf(),
        ensures
            final(self).wf(),
            final(self).model() == slid(old(self).model(), pos as int, token@),
    {
        let ghost before = self.model();
        if self.tokens.len() >= 3 {
            self.tokens.remove(0);
            self.positions.remove(0);
            assert(self.model() =~= before.skip(1));
        }
        let ghost now = self.model();
        self.tokens.push(token);
        self.positions.push(pos);
        assert(self.model() =~= now.push((pos as int, token@)));
    }

    /// The number and the position of the head `N G obj` in the window.
    fn head(&self) -> (r: Option<(u32, usize)>)
        requires
            self.wf(),
        ensures
            forall|table: XrefModel|
                #[trigger] scanned(table, self.model()) == match r {
                    Some((n, p)) => table.insert(n, XrefEntry::Offset(p)),
                    None => table,
                },
    {
        if self.tokens.len() != 3 {
            return None;
        }
        assert(self.model()[0] == (self.positions@[0] as int, self.tokens@[0]@));
        assert(self.model()[1] == (self.positions@[1] as int, self.tokens@[1]@));
        assert(self.model()[2] == (self.positions@[2] as int, self.tokens@[2]@));
        let word: bool = match &self.tokens[2] {
            Token::Keyword(k) => same_text(k.as_str(), "obj"),
            _ => false,
        };
        if !word {
            return None;
        }
        match (&self.tokens[0], &self.tokens[1]) {
            (Token::Integer(n), Token::Integer(_)) => {
                if *n >= 0 {
                    Some((sum32(*n, 0), self.positions[0]))
                } else {
                    None
                }
            },
            _ => None,
        }
    }
}

/// Searches the whole file for the heads of objects.
fn scan_objects(data: &[u8]) -> (r: Result<BTreeMap<u32, XrefEntry>, PdfError>)
    ensures
        match scan_from(data@, 0, seq![], Map::empty()) {
            Ok(table) => r is Ok && r->Ok_0@ == table,
            Err(e) => r is Err && r->Err_0@ == e,
        },
{
    let ghost d = data@;
    let ghost goal = scan_from(d, 0, seq![], Map::empty());
    let mut table: BTreeMap<u32, XrefEntry> = empty_table();
    let mut window = Window { positions: Vec::new(), tokens: Vec::new() };
    assert(window.model() =~= seq![]);
    let mut lexer = Lexer::new(data);
    loop
        invariant
            d == data@,
            d == lexer.bytes(),
            window.wf(),
            0 <= lexer.at(),
            goal == scan_from(d, 0, seq![], Map::empty()),
            goal == scan_from(d, lexer.at(), window.model(), table@),
        decreases d.len() - lexer.at(),
    {
        proof {
            lex_progress(d, lexer.at());
        }
        let pos: usize = lexer.pos();
        match lexer.next_token() {
            Err(e) => {
                return Err(e);
            },
            Ok(None) => {
                return Ok(table);
            },
            Ok(Some(token)) => {
                window.slide(pos, token);
                match window.head() {
                    Some((n, p)) => {
                        put(&mut table, n, XrefEntry::Offset(p));
                    },
                    None => {},
                }
            },
        }
    }
}

fn find_last_trailer(data: &[u8]) -> (r: Option<Dictionary>)
    ensures
        match r {
            Some(d) => last_trailer(data@) == Some(d@),
            None => last_trailer(data@) is None,
        },
{
    let word: [u8; 7] = [116, 114, 97, 105, 108, 101, 114];
    assert(word@ =~= trailer_word());
    match rfind_subslice(data, word.as_slice()) {
        None => None,
        Some(i) => {
            let len: usize = data.len();
            assert(i + 7 <= len);
            let mut parser = Parser::with_pos(data, i + 7);
            match parser.parse_object() {
                Ok(o) => match o.as_dict() {
                    Some(d) => Some(d.clone()),
                    None => None,
                },
                Err(_) => None,
            }
        },
    }
}

fn has_catalog(data: &[u8], e: XrefEntry) -> (r: bool)
    ensures
        r == is_catalog(data@, e),
{
    match e {
        XrefEntry::Offset(offset) => {
            let mut parser = Parser::with_pos(data, offset);
            match parser.parse_indirect_object() {
                Ok((_, _, o)) => match o.as_dict() {
                    Some(d) => match d.get("Type") {
                        Some(t) => t.is_name("Catalog"),
                        None => false,
                    },
                    None => false,
                },
                Err(_) => false,
            }
        },
        _ => false,
    }
}

fn make_up_trailer(data: &[u8], table: &BTreeMap<u32, XrefEntry>) -> (r: Dictionary)
    ensures
        r@ == made_up_trailer(data@, table@),
{
    let nums = numbers(table);
    let mut i: usize = 0;
    while i < nums.len()
        invariant
            0 <= i <= nums@.len(),
            lists_numbers(table@, nums@),
            forall|j: int| 0 <= j < i ==> !is_catalog(data@, table@[#[trigger] nums@[j]]),
        decreases nums@.len() - i,
    {
        let n: u32 = nums[i];
        assert(nums@.contains(n));
        match lookup(table, n) {
            Some(e) => {
                if has_catalog(data, *e) {
                    proof {
                        assert forall|m: u32| #[trigger] table@.contains_key(m) && m < n implies
                            !is_catalog(data@, table@[m]) by {
                            assert(nums@.contains(m));
                            let j = nums@.index_of(m);
                            if j > i {
                                assert(nums@[i as int] < nums@[j]);
                            }
                            assert(nums@[j] == m);
                        }
                        assert(first_catalog(data@, table@, n));
                        let c = choose|c: u32| first_catalog(data@, table@, c);
                        assert(first_catalog(data@, table@, c));
                        if c < n {
                            assert(table@.contains_key(c));
                        } else if n < c {
                            assert(table@.contains_key(n));
                        }
                    }
                    let mut r = Dictionary::new();
                    r.insert("Root", Object::Reference(ObjRef::new(n, 0)));
                    return r;
                }
            },
            None => {},
        }
        i += 1;
    }
    proof {
        assert forall|n: u32| !first_catalog(data@, table@, n) by {
            if first_catalog(data@, table@, n) {
                assert(table@.contains_key(n));
                assert(nums@.contains(n));
                let j = nums@.index_of(n);
                assert(nums@[j] == n);
            }
        }
    }
    Dictionary::new()
}

/// Finds the objects of a file whose cross-references cannot be read: by the heads `N G obj` in
/// it, the last `trailer`, or where there is none, the first catalog.
fn reconstruct_by_scan(data: &[u8]) -> (r: Result<(XrefTable, Dictionary), PdfError>)
    ensures
        returns_section(r, reconstructed(data@)),
{
    match scan_objects(data) {
        Err(e) => Err(e),
        Ok(table) => {
            if is_empty(&table) {
                return Err(PdfError::InvalidXref(XrefProblem::NoObjects));
            }
            let trailer = match find_last_trailer(data) {
                Some(trailer) => trailer,
                None => make_up_trailer(data, &table),
            };
            Ok((XrefTable { entries: table }, trailer))
        },
    }
}

} // verus!
