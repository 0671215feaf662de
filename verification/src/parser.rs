//! Tokens put together to objects.
use vstd::prelude::*;
use crate::bytes::{copy_range, find_from, find_subslice};
use crate::error::{ErrorModel, PdfError, Problem};
use crate::lexer::{lex, lex_progress, lexed_end, Lexed, Lexer, Token, TokenModel};
use crate::object::{entry, models, DictModel, Dictionary, ObjRef, Object, ObjectModel, Stream};
use crate::text::same_text;

verus! {

/// The state of a reader: the tokens that were read ahead, the next one first, and the position
/// behind them.
pub ghost struct Reader {
    pub ahead: Seq<TokenModel>,
    pub pos: int,
}

/// What comes next: a token, the end of the data or a fault.
pub ghost enum Next {
    Token(TokenModel),
    End,
    Fault(ErrorModel),
}

/// An object and the reader behind it, or a fault.
pub ghost enum Parsed {
    Object(ObjectModel, Reader),
    Fault(ErrorModel),
}

impl Reader {
    /// How much is left to read: it shrinks with every token that is read or taken.
    pub open spec fn left(self, d: Seq<u8>) -> nat {
        if 0 <= self.pos <= d.len() {
            (2 * (d.len() - self.pos) + self.ahead.len()) as nat
        } else {
            self.ahead.len()
        }
    }

    /// Tokens were only read from inside the data.
    pub open spec fn wf(self, d: Seq<u8>) -> bool {
        0 <= self.pos && (self.ahead.len() > 0 ==> self.pos <= d.len())
    }

    /// Takes the next token.
    pub open spec fn take(self, d: Seq<u8>) -> (Next, Reader) {
        if self.ahead.len() > 0 {
            (
                Next::Token(self.ahead[0]),
                Reader { ahead: self.ahead.drop_first(), pos: self.pos },
            )
        } else {
            match lex(d, self.pos) {
                Lexed::Token(t, q) => (Next::Token(t), Reader { ahead: seq![], pos: q }),
                Lexed::End(q) => (Next::End, Reader { ahead: seq![], pos: q }),
                Lexed::Fault(e, q) => (Next::Fault(e), Reader { ahead: seq![], pos: q }),
            }
        }
    }

    /// Reads one more token ahead.
    pub open spec fn fill(self, d: Seq<u8>) -> (Next, Reader) {
        match lex(d, self.pos) {
            Lexed::Token(t, q) => (
                Next::Token(t),
                Reader { ahead: self.ahead.push(t), pos: q },
            ),
            Lexed::End(q) => (Next::End, Reader { ahead: self.ahead, pos: q }),
            Lexed::Fault(e, q) => (Next::Fault(e), Reader { ahead: self.ahead, pos: q }),
        }
    }

    /// Looks at the next token.
    pub open spec fn peek(self, d: Seq<u8>) -> (Next, Reader) {
        if self.ahead.len() > 0 {
            (Next::Token(self.ahead[0]), self)
        } else {
            self.fill(d)
        }
    }

    /// Looks at the token behind the next one.
    pub open spec fn peek_second(self, d: Seq<u8>) -> (Next, Reader) {
        if self.ahead.len() > 1 {
            (Next::Token(self.ahead[1]), self)
        } else {
            self.fill(d)
        }
    }
}

pub proof fn take_shrinks(r: Reader, d: Seq<u8>)
    ensures
        r.wf(d) ==> r.take(d).1.wf(d),
        r.take(d).0 is Token ==> r.take(d).1.left(d) < r.left(d),
        r.wf(d) && r.take(d).0 is Token ==> r.take(d).1.pos <= d.len(),
{
    if r.pos >= 0 {
        lex_progress(d, r.pos);
    } else {
        reveal(lex);
    }
}

pub proof fn fill_shrinks(r: Reader, d: Seq<u8>)
    requires
        r.wf(d),
    ensures
        r.fill(d).1.wf(d),
        r.fill(d).1.left(d) <= r.left(d),
        r.pos <= d.len() ==> r.fill(d).1.pos <= d.len(),
{
    lex_progress(d, r.pos);
}

/// A number is the start of a reference where a second number and the word `R` follow.
pub open spec fn number_or_reference(d: Seq<u8>, n: int, r: Reader) -> Parsed {
    if n < 0 {
        Parsed::Object(ObjectModel::Integer(n), r)
    } else {
        match r.peek(d) {
            (Next::Fault(e), _) => Parsed::Fault(e),
            (Next::Token(TokenModel::Integer(g)), r1) => match r1.peek_second(d) {
                (Next::Fault(e), _) => Parsed::Fault(e),
                (Next::Token(TokenModel::Keyword(k)), r2) => if k == "R"@ {
                    Parsed::Object(
                        ObjectModel::Reference(ObjRef { num: n as u32, gen: g as u16 }),
                        Reader { ahead: r2.ahead.skip(2), pos: r2.pos },
                    )
                } else {
                    Parsed::Object(ObjectModel::Integer(n), r2)
                },
                (_, r2) => Parsed::Object(ObjectModel::Integer(n), r2),
            },
            (_, r1) => Parsed::Object(ObjectModel::Integer(n), r1),
        }
    }
}

/// Where the data of a stream start: behind the end of the line of `stream`.
pub open spec fn data_start(d: Seq<u8>, p: int) -> int {
    let q = if 0 <= p < d.len() && d[p] == 13 {
        p + 1
    } else {
        p
    };
    if 0 <= q < d.len() && d[q] == 10 {
        q + 1
    } else {
        q
    }
}

pub open spec fn endstream_word() -> Seq<u8> {
    seq![101u8, 110, 100, 115, 116, 114, 101, 97, 109]
}

/// The word `endstream` stands next from `p` on.
pub open spec fn endstream_at(d: Seq<u8>, p: int) -> bool {
    lex(d, p) is Token && lex(d, p)->Token_0 == TokenModel::Keyword("endstream"@)
}

/// Where the data of a stream end by its `Length`, cut off at the end of the file.
pub open spec fn length_end(d: Seq<u8>, dict: DictModel, start: int) -> Option<int> {
    match entry(dict, "Length"@) {
        Some(ObjectModel::Integer(n)) => if n >= 0 {
            Some(
                if start + n <= d.len() {
                    start + n
                } else {
                    d.len() as int
                },
            )
        } else {
            None
        },
        _ => None,
    }
}

/// Where the data of a stream end: as `Length` says, where `endstream` stands there; otherwise
/// before the next `endstream`.
pub open spec fn data_end(d: Seq<u8>, dict: DictModel, start: int) -> Option<int> {
    match length_end(d, dict, start) {
        Some(end) => if endstream_at(d, end) {
            Some(end)
        } else {
            find_from(d, endstream_word(), start)
        },
        None => find_from(d, endstream_word(), start),
    }
}

/// A stream whose word `stream` ends at `p`.
pub open spec fn stream_at(d: Seq<u8>, dict: DictModel, p: int) -> Parsed {
    let start = data_start(d, p);
    match data_end(d, dict, start) {
        None => Parsed::Fault(ErrorModel::UnexpectedEof(start)),
        Some(end) => if endstream_at(d, end) {
            Parsed::Object(
                ObjectModel::Stream(dict, d.subrange(start, end)),
                Reader { ahead: seq![], pos: lexed_end(lex(d, end)) },
            )
        } else {
            match lex(d, end) {
                Lexed::Fault(e, _) => Parsed::Fault(e),
                _ => Parsed::Fault(ErrorModel::InvalidObject(end, Problem::MissingEndstream)),
            }
        },
    }
}

/// A dictionary that has ended; with the word `stream` behind it, a stream.
pub open spec fn dict_or_stream(d: Seq<u8>, dict: DictModel, r: Reader) -> Parsed {
    match r.peek(d) {
        (Next::Fault(e), _) => Parsed::Fault(e),
        (Next::Token(TokenModel::Keyword(k)), r1) => if k == "stream"@ {
            stream_at(d, dict, r1.pos)
        } else {
            Parsed::Object(ObjectModel::Dictionary(dict), r1)
        },
        (_, r1) => Parsed::Object(ObjectModel::Dictionary(dict), r1),
    }
}

/// The object that starts with the token `t`.
pub open spec fn object_from(d: Seq<u8>, t: TokenModel, r: Reader) -> Parsed
    decreases r.left(d), 1nat,
{
    match t {
        TokenModel::Integer(n) => number_or_reference(d, n, r),
        TokenModel::Real(x) => Parsed::Object(ObjectModel::Real(x), r),
        TokenModel::LiteralString(s) => Parsed::Object(ObjectModel::String(s), r),
        TokenModel::HexString(s) => Parsed::Object(ObjectModel::String(s), r),
        TokenModel::Name(n) => Parsed::Object(ObjectModel::Name(n), r),
        TokenModel::ArrayStart => items_from(d, r, seq![]),
        TokenModel::DictStart => entries_from(d, r, Map::empty()),
        TokenModel::Keyword(k) => if k == "true"@ {
            Parsed::Object(ObjectModel::Boolean(true), r)
        } else if k == "false"@ {
            Parsed::Object(ObjectModel::Boolean(false), r)
        } else if k == "null"@ {
            Parsed::Object(ObjectModel::Null, r)
        } else {
            Parsed::Fault(ErrorModel::InvalidObject(r.pos, Problem::UnexpectedKeyword))
        },
        _ => Parsed::Fault(ErrorModel::InvalidObject(r.pos, Problem::UnexpectedToken)),
    }
}

/// The items of an array from here to its end, behind those in `acc`.
pub open spec fn items_from(d: Seq<u8>, r: Reader, acc: Seq<ObjectModel>) -> Parsed
    decreases r.left(d), 0nat,
    via items_from_shrinks
{
    match r.take(d) {
        (Next::Fault(e), _) => Parsed::Fault(e),
        (Next::End, r1) => Parsed::Fault(ErrorModel::UnexpectedEof(r1.pos)),
        (Next::Token(t), r1) => if t is ArrayEnd {
            Parsed::Object(ObjectModel::Array(acc), r1)
        } else {
            match object_from(d, t, r1) {
                Parsed::Fault(e) => Parsed::Fault(e),
                Parsed::Object(o, r2) => if r2.left(d) < r.left(d) {
                    items_from(d, r2, acc.push(o))
                } else {
                    Parsed::Fault(ErrorModel::UnexpectedEof(r2.pos))
                },
            }
        },
    }
}

#[via_fn]
proof fn items_from_shrinks(d: Seq<u8>, r: Reader, acc: Seq<ObjectModel>) {
    take_shrinks(r, d);
}

/// The entries of a dictionary from here to its end, behind those in `dict`. A name that comes
/// again takes the later value.
pub open spec fn entries_from(d: Seq<u8>, r: Reader, dict: DictModel) -> Parsed
    decreases r.left(d), 0nat,
    via entries_from_shrinks
{
    match r.take(d) {
        (Next::Fault(e), _) => Parsed::Fault(e),
        (Next::End, r1) => Parsed::Fault(ErrorModel::UnexpectedEof(r1.pos)),
        (Next::Token(TokenModel::DictEnd), r1) => dict_or_stream(d, dict, r1),
        (Next::Token(TokenModel::Name(key)), r1) => match r1.take(d) {
            (Next::Fault(e), _) => Parsed::Fault(e),
            (Next::End, r2) => Parsed::Fault(ErrorModel::UnexpectedEof(r2.pos)),
            (Next::Token(t), r2) => match object_from(d, t, r2) {
                Parsed::Fault(e) => Parsed::Fault(e),
                Parsed::Object(o, r3) => if r3.left(d) < r.left(d) {
                    entries_from(d, r3, dict.insert(key, o))
                } else {
                    Parsed::Fault(ErrorModel::UnexpectedEof(r3.pos))
                },
            },
        },
        (Next::Token(_), r1) => Parsed::Fault(
            ErrorModel::InvalidObject(r1.pos, Problem::KeyIsNotAName),
        ),
    }
}

#[via_fn]
proof fn entries_from_shrinks(d: Seq<u8>, r: Reader, dict: DictModel) {
    take_shrinks(r, d);
    take_shrinks(r.take(d).1, d);
}

/// The object that comes next.
pub open spec fn next_object(d: Seq<u8>, r: Reader) -> Parsed {
    match r.take(d) {
        (Next::Fault(e), _) => Parsed::Fault(e),
        (Next::End, r1) => Parsed::Fault(ErrorModel::UnexpectedEof(r1.pos)),
        (Next::Token(t), r1) => object_from(d, t, r1),
    }
}

/// Reading an object leaves no more than there was.
pub proof fn object_from_shrinks(d: Seq<u8>, t: TokenModel, r: Reader)
    requires
        r.wf(d),
        r.pos <= d.len(),
    ensures
        object_from(d, t, r) is Object ==> {
            &&& object_from(d, t, r)->Object_1.wf(d)
            &&& object_from(d, t, r)->Object_1.pos <= d.len()
            &&& object_from(d, t, r)->Object_1.left(d) <= r.left(d)
        },
    decreases r.left(d), 1nat,
{
    match t {
        TokenModel::Integer(n) => {
            fill_shrinks(r, d);
            fill_shrinks(r.peek(d).1, d);
        },
        TokenModel::ArrayStart => {
            items_shrink(d, r, seq![]);
        },
        TokenModel::DictStart => {
            entries_shrink(d, r, Map::empty());
        },
        _ => {},
    }
}

proof fn stream_shrinks(d: Seq<u8>, dict: DictModel, r: Reader)
    requires
        r.wf(d),
        r.pos <= d.len(),
    ensures
        data_start(d, r.pos) <= d.len(),
        data_end(d, dict, data_start(d, r.pos)) is Some ==> data_start(d, r.pos) <= data_end(
            d,
            dict,
            data_start(d, r.pos),
        )->Some_0 <= d.len(),
        stream_at(d, dict, r.pos) is Object ==> {
            &&& stream_at(d, dict, r.pos)->Object_1.wf(d)
            &&& stream_at(d, dict, r.pos)->Object_1.pos <= d.len()
            &&& stream_at(d, dict, r.pos)->Object_1.left(d) <= r.left(d)
        },
{
    let start = data_start(d, r.pos);
    if let Some(end) = data_end(d, dict, start) {
        lex_progress(d, end);
    }
}

proof fn items_shrink(d: Seq<u8>, r: Reader, acc: Seq<ObjectModel>)
    requires
        r.wf(d),
        r.pos <= d.len(),
    ensures
        items_from(d, r, acc) is Object ==> {
            &&& items_from(d, r, acc)->Object_1.wf(d)
            &&& items_from(d, r, acc)->Object_1.pos <= d.len()
            &&& items_from(d, r, acc)->Object_1.left(d) <= r.left(d)
        },
    decreases r.left(d), 0nat,
{
    take_shrinks(r, d);
    if let (Next::Token(t), r1) = r.take(d) {
        if !(t is ArrayEnd) {
            object_from_shrinks(d, t, r1);
            if let Parsed::Object(o, r2) = object_from(d, t, r1) {
                items_shrink(d, r2, acc.push(o));
            }
        }
    }
}

proof fn entries_shrink(d: Seq<u8>, r: Reader, dict: DictModel)
    requires
        r.wf(d),
        r.pos <= d.len(),
    ensures
        entries_from(d, r, dict) is Object ==> {
            &&& entries_from(d, r, dict)->Object_1.wf(d)
            &&& entries_from(d, r, dict)->Object_1.pos <= d.len()
            &&& entries_from(d, r, dict)->Object_1.left(d) <= r.left(d)
        },
    decreases r.left(d), 0nat,
{
    take_shrinks(r, d);
    if let (Next::Token(t), r1) = r.take(d) {
        take_shrinks(r1, d);
        if t is DictEnd {
            fill_shrinks(r1, d);
            stream_shrinks(d, dict, r1.peek(d).1);
        } else if let TokenModel::Name(key) = t {
            if let (Next::Token(u), r2) = r1.take(d) {
                object_from_shrinks(d, u, r2);
                if let Parsed::Object(o, r3) = object_from(d, u, r2) {
                    entries_shrink(d, r3, dict.insert(key, o));
                }
            }
        }
    }
}

/// An indirect object with its numbers and the reader behind it, or a fault.
pub ghost enum Indirect {
    Object(u32, u16, ObjectModel, Reader),
    Fault(ErrorModel),
}

/// A token that may be missing, read where something else was wanted.
pub open spec fn wrong_token(n: Next, r: Reader, problem: Problem) -> Indirect {
    match n {
        Next::Fault(e) => Indirect::Fault(e),
        _ => Indirect::Fault(ErrorModel::InvalidObject(r.pos, problem)),
    }
}

/// The number that comes next, where it is one and not negative.
pub open spec fn natural(n: Next) -> Option<int> {
    match n {
        Next::Token(TokenModel::Integer(i)) => if i >= 0 {
            Some(i)
        } else {
            None
        },
        _ => None,
    }
}

/// The end of an indirect object: the word `endobj`, which may be missing.
pub open spec fn object_end(d: Seq<u8>, num: u32, gen: u16, o: ObjectModel, r: Reader) -> Indirect {
    match r.take(d) {
        (Next::Fault(e), _) => Indirect::Fault(e),
        (Next::End, r1) => Indirect::Object(num, gen, o, r1),
        (Next::Token(t), r1) => if t == TokenModel::Keyword("endobj"@) {
            Indirect::Object(num, gen, o, r1)
        } else {
            Indirect::Object(num, gen, o, Reader { ahead: seq![t] + r1.ahead, pos: r1.pos })
        },
    }
}

/// The indirect object `N G obj ... endobj` that comes next.
pub open spec fn indirect_from(d: Seq<u8>, r: Reader) -> Indirect {
    let (n1, r1) = r.take(d);
    if natural(n1) is None {
        wrong_token(n1, r1, Problem::MissingObjectNumber)
    } else {
        let (n2, r2) = r1.take(d);
        if natural(n2) is None {
            wrong_token(n2, r2, Problem::MissingGeneration)
        } else {
            let (n3, r3) = r2.take(d);
            if n3 != Next::Token(TokenModel::Keyword("obj"@)) {
                wrong_token(n3, r3, Problem::MissingObj)
            } else {
                match next_object(d, r3) {
                    Parsed::Fault(e) => Indirect::Fault(e),
                    Parsed::Object(o, r4) => object_end(
                        d,
                        natural(n1)->Some_0 as u32,
                        natural(n2)->Some_0 as u16,
                        o,
                        r4,
                    ),
                }
            }
        }
    }
}

/// The indirect object that starts at `pos`.
pub open spec fn indirect_at(d: Seq<u8>, pos: int) -> Indirect {
    indirect_from(d, Reader { ahead: seq![], pos })
}

/// `r` is the object that was parsed.
pub open spec fn returns_parsed(r: Result<Object, PdfError>, p: Parsed) -> bool {
    match p {
        Parsed::Object(o, _) => r is Ok && r->Ok_0@ == o,
        Parsed::Fault(e) => r is Err && r->Err_0@ == e,
    }
}

/// Tokens by what they say, the last one first.
pub open spec fn reversed(tokens: Seq<Token>) -> Seq<TokenModel> {
    Seq::new(tokens.len(), |i: int| tokens[tokens.len() - 1 - i]@)
}

/// A reader of objects over `data`.
pub struct Parser<'a> {
    lexer: Lexer<'a>,
    data: &'a [u8],
    /// Tokens read ahead, the next one last.
    buffered: Vec<Token>,
}

impl<'a> Parser<'a> {
    /// The data that is read.
    pub closed spec fn bytes(&self) -> Seq<u8> {
        self.data@
    }

    /// The state of the reader.
    pub closed spec fn reader(&self) -> Reader {
        Reader { ahead: reversed(self.buffered@), pos: self.lexer.at() }
    }

    /// The reader runs over the data.
    pub closed spec fn wf(&self) -> bool {
        &&& self.lexer.bytes() == self.data@
        &&& self.reader().wf(self.data@)
    }

    pub fn new(data: &'a [u8]) -> (r: Self)
        ensures
            r.wf(),
            r.bytes() == data@,
            r.reader() == (Reader { ahead: seq![], pos: 0 }),
    {
        Self::with_pos(data, 0)
    }

    pub fn with_pos(data: &'a [u8], pos: usize) -> (r: Self)
        ensures
            r.wf(),
            r.bytes() == data@,
            r.reader() == (Reader { ahead: seq![], pos: pos as int }),
    {
        let r = Self { lexer: Lexer::with_pos(data, pos), data, buffered: Vec::new() };
        assert(r.reader().ahead =~= seq![]);
        r
    }

    /// The position behind all that was read, tokens read ahead too.
    pub fn pos(&self) -> (r: usize)
        ensures
            r == self.reader().pos,
    {
        self.lexer.pos()
    }

    /// Goes to `pos`, and forgets what was read ahead.
    pub fn seek(&mut self, pos: usize)
        requires
            old(self).wf(),
        ensures
            final(self).wf(),
            final(self).bytes() == old(self).bytes(),
            final(self).reader() == (Reader {
                ahead: seq![],
                pos: if pos <= old(self).bytes().len() {
                    pos as int
                } else {
                    old(self).bytes().len() as int
                },
            }),
    {
        self.buffered.clear();
        self.lexer.seek(pos);
        assert(self.reader().ahead =~= seq![]);
    }

    fn next_token(&mut self) -> (r: Result<Option<Token>, PdfError>)
        requires
            old(self).wf(),
        ensures
            final(self).wf(),
            final(self).bytes() == old(self).bytes(),
            final(self).reader() == old(self).reader().take(old(self).bytes()).1,
            match old(self).reader().take(old(self).bytes()).0 {
                Next::Token(t) => r is Ok && r->Ok_0 is Some && r->Ok_0->Some_0@ == t,
                Next::End => r is Ok && r->Ok_0 is None,
                Next::Fault(e) => r is Err && r->Err_0@ == e,
            },
    {
        let ghost before = self.reader();
        if self.buffered.len() > 0 {
            let t = self.buffered.pop();
            assert(self.reader().ahead =~= before.ahead.drop_first());
            return Ok(t);
        }
        proof {
            assert(before.ahead =~= seq![]);
            lex_progress(self.data@, before.pos);
        }
        let t = self.lexer.next_token();
        assert(self.reader().ahead =~= seq![]);
        t
    }

    /// Reads one more token ahead; `false` at the end of the data.
    fn fill(&mut self) -> (r: Result<bool, PdfError>)
        requires
            old(self).wf(),
        ensures
            final(self).wf(),
            final(self).bytes() == old(self).bytes(),
            final(self).reader() == old(self).reader().fill(old(self).bytes()).1,
            match old(self).reader().fill(old(self).bytes()).0 {
                Next::Token(t) => r is Ok && r->Ok_0,
                Next::End => r is Ok && !r->Ok_0,
                Next::Fault(e) => r is Err && r->Err_0@ == e,
            },
    {
        let ghost before = self.reader();
        proof {
            lex_progress(self.data@, before.pos);
        }
        match self.lexer.next_token() {
            Ok(Some(t)) => {
                self.buffered.insert(0, t);
                assert(self.reader().ahead =~= before.ahead.push(t@));
                Ok(true)
            },
            Ok(None) => {
                assert(self.reader().ahead =~= before.ahead);
                Ok(false)
            },
            Err(e) => {
                assert(self.reader().ahead =~= before.ahead);
                Err(e)
            },
        }
    }

    /// Reads an object: a reference `N G R` is put together, and the data of a stream are
    /// taken in.
    pub fn parse_object(&mut self) -> (r: Result<Object, PdfError>)
        requires
            old(self).wf(),
        ensures
            final(self).wf(),
            final(self).bytes() == old(self).bytes(),
            returns_parsed(r, next_object(old(self).bytes(), old(self).reader())),
            r is Ok ==> final(self).reader() == next_object(
                old(self).bytes(),
                old(self).reader(),
            )->Object_1,
    {
        proof {
            take_shrinks(self.reader(), self.bytes());
        }
        match self.next_token() {
            Err(e) => Err(e),
            Ok(None) => Err(PdfError::UnexpectedEof(self.lexer.pos())),
            Ok(Some(token)) => self.parse_object_from(token),
        }
    }

    fn parse_object_from(&mut self, token: Token) -> (r: Result<Object, PdfError>)
        requires
            old(self).wf(),
            old(self).reader().pos <= old(self).bytes().len(),
        ensures
            final(self).wf(),
            final(self).bytes() == old(self).bytes(),
            returns_parsed(r, object_from(old(self).bytes(), token@, old(self).reader())),
            r is Ok ==> final(self).reader() == object_from(
                old(self).bytes(),
                token@,
                old(self).reader(),
            )->Object_1,
        decreases old(self).reader().left(old(self).bytes()), 1nat,
    {
        match token {
            Token::Integer(n) => self.maybe_reference(n),
            Token::Real(x) => Ok(Object::Real(x)),
            Token::LiteralString(s) => Ok(Object::String(s)),
            Token::HexString(s) => Ok(Object::String(s)),
            Token::Name(n) => Ok(Object::Name(n)),
            Token::ArrayStart => self.parse_array(),
            Token::DictStart => self.parse_dict_or_stream(),
            Token::Keyword(k) => {
                if same_text(k.as_str(), "true") {
                    Ok(Object::Boolean(true))
                } else if same_text(k.as_str(), "false") {
                    Ok(Object::Boolean(false))
                } else if same_text(k.as_str(), "null") {
                    Ok(Object::Null)
                } else {
                    Err(PdfError::InvalidObject(self.lexer.pos(), Problem::UnexpectedKeyword))
                }
            },
            Token::ArrayEnd => Err(
                PdfError::InvalidObject(self.lexer.pos(), Problem::UnexpectedToken),
            ),
            Token::DictEnd => Err(
                PdfError::InvalidObject(self.lexer.pos(), Problem::UnexpectedToken),
            ),
        }
    }

    /// Whether the token `back` places from the end of the buffer is the word `word`.
    fn buffered_is_word(&self, back: usize, word: &str) -> (r: bool)
        requires
            self.wf(),
            back < self.reader().ahead.len(),
        ensures
            r == (self.reader().ahead[back as int] == TokenModel::Keyword(word@)),
    {
        match &self.buffered[self.buffered.len() - 1 - back] {
            Token::Keyword(k) => same_text(k.as_str(), word),
            _ => false,
        }
    }

    /// A number that may start a reference.
    fn maybe_reference(&mut self, num: i64) -> (r: Result<Object, PdfError>)
        requires
            old(self).wf(),
        ensures
            final(self).wf(),
            final(self).bytes() == old(self).bytes(),
            returns_parsed(
                r,
                number_or_reference(old(self).bytes(), num as int, old(self).reader()),
            ),
            r is Ok ==> final(self).reader() == number_or_reference(
                old(self).bytes(),
                num as int,
                old(self).reader(),
            )->Object_1,
    {
        if num < 0 {
            return Ok(Object::Integer(num));
        }
        if self.buffered.len() == 0 {
            match self.fill() {
                Err(e) => {
                    return Err(e);
                },
                Ok(false) => {
                    return Ok(Object::Integer(num));
                },
                Ok(true) => {},
            }
        }
        assert(self.reader().ahead[0] == self.buffered@.last()@);
        let gen: i64 = match &self.buffered[self.buffered.len() - 1] {
            Token::Integer(g) => *g,
            _ => {
                return Ok(Object::Integer(num));
            },
        };
        if self.buffered.len() == 1 {
            match self.fill() {
                Err(e) => {
                    return Err(e);
                },
                Ok(false) => {
                    return Ok(Object::Integer(num));
                },
                Ok(true) => {},
            }
        }
        if !self.buffered_is_word(1, "R") {
            return Ok(Object::Integer(num));
        }
        let ghost before = self.reader();
        self.buffered.pop();
        self.buffered.pop();
        assert(self.reader().ahead =~= before.ahead.skip(2));
        Ok(Object::Reference(ObjRef::new(#[verifier::truncate] (num as u32), #[verifier::truncate] (gen as u16))))
    }

    fn parse_array(&mut self) -> (r: Result<Object, PdfError>)
        requires
            old(self).wf(),
            old(self).reader().pos <= old(self).bytes().len(),
        ensures
            final(self).wf(),
            final(self).bytes() == old(self).bytes(),
            returns_parsed(r, items_from(old(self).bytes(), old(self).reader(), seq![])),
            r is Ok ==> final(self).reader() == items_from(
                old(self).bytes(),
                old(self).reader(),
                seq![],
            )->Object_1,
        decreases old(self).reader().left(old(self).bytes()), 0nat,
    {
        let ghost d = self.bytes();
        let ghost goal = items_from(d, self.reader(), seq![]);
        let mut items: Vec<Object> = Vec::new();
        assert(models(items@) =~= seq![]);
        loop
            invariant
                self.wf(),
                d == self.bytes(),
                d == old(self).bytes(),
                goal == items_from(d, old(self).reader(), seq![]),
                goal == items_from(d, self.reader(), models(items@)),
                self.reader().pos <= d.len(),
                self.reader().left(d) <= old(self).reader().left(d),
            decreases self.reader().left(d),
        {
            proof {
                    take_shrinks(self.reader(), d);
            }
            let ghost at = self.reader();
            match self.next_token() {
                Err(e) => {
                    return Err(e);
                },
                Ok(None) => {
                    return Err(PdfError::UnexpectedEof(self.lexer.pos()));
                },
                Ok(Some(Token::ArrayEnd)) => {
                    let r = Object::Array(items);
                    assert(r@->Array_0 =~= models(items@));
                    return Ok(r);
                },
                Ok(Some(token)) => {
                    proof {
                                    object_from_shrinks(d, token@, self.reader());
                    }
                    match self.parse_object_from(token) {
                        Err(e) => {
                            return Err(e);
                        },
                        Ok(o) => {
                            let ghost before = models(items@);
                            items.push(o);
                            assert(models(items@) =~= before.push(o@));
                        },
                    }
                },
            }
        }
    }

    fn parse_dict_or_stream(&mut self) -> (r: Result<Object, PdfError>)
        requires
            old(self).wf(),
            old(self).reader().pos <= old(self).bytes().len(),
        ensures
            final(self).wf(),
            final(self).bytes() == old(self).bytes(),
            returns_parsed(r, entries_from(old(self).bytes(), old(self).reader(), Map::empty())),
            r is Ok ==> final(self).reader() == entries_from(
                old(self).bytes(),
                old(self).reader(),
                Map::empty(),
            )->Object_1,
        decreases old(self).reader().left(old(self).bytes()), 0nat,
    {
        let ghost d = self.bytes();
        let ghost goal = entries_from(d, self.reader(), Map::empty());
        let mut dict = Dictionary::new();
        loop
            invariant
                self.wf(),
                d == self.bytes(),
                d == old(self).bytes(),
                goal == entries_from(d, old(self).reader(), Map::empty()),
                goal == entries_from(d, self.reader(), dict@),
                self.reader().pos <= d.len(),
                self.reader().left(d) <= old(self).reader().left(d),
            decreases self.reader().left(d),
        {
            proof {
                    take_shrinks(self.reader(), d);
            }
            match self.next_token() {
                Err(e) => {
                    return Err(e);
                },
                Ok(None) => {
                    return Err(PdfError::UnexpectedEof(self.lexer.pos()));
                },
                Ok(Some(Token::DictEnd)) => {
                    return self.finish_dict(dict);
                },
                Ok(Some(Token::Name(key))) => {
                    proof {
                                    take_shrinks(self.reader(), d);
                        if let (Next::Token(t), r2) = self.reader().take(d) {
                            object_from_shrinks(d, t, r2);
                        }
                    }
                    match self.next_token() {
                        Err(e) => {
                            return Err(e);
                        },
                        Ok(None) => {
                            return Err(PdfError::UnexpectedEof(self.lexer.pos()));
                        },
                        Ok(Some(token)) => match self.parse_object_from(token) {
                            Err(e) => {
                                return Err(e);
                            },
                            Ok(o) => {
                                dict.insert(key.as_str(), o);
                            },
                        },
                    }
                },
                Ok(Some(_)) => {
                    return Err(PdfError::InvalidObject(self.lexer.pos(), Problem::KeyIsNotAName));
                },
            }
        }
    }

    /// A dictionary that has ended; with the word `stream` behind it, a stream.
    fn finish_dict(&mut self, dict: Dictionary) -> (r: Result<Object, PdfError>)
        requires
            old(self).wf(),
            old(self).reader().pos <= old(self).bytes().len(),
        ensures
            final(self).wf(),
            final(self).bytes() == old(self).bytes(),
            returns_parsed(r, dict_or_stream(old(self).bytes(), dict@, old(self).reader())),
            r is Ok ==> final(self).reader() == dict_or_stream(
                old(self).bytes(),
                dict@,
                old(self).reader(),
            )->Object_1,
    {
        proof {
            fill_shrinks(self.reader(), self.bytes());
        }
        if self.buffered.len() == 0 {
            match self.fill() {
                Err(e) => {
                    return Err(e);
                },
                Ok(false) => {
                    return Ok(Object::Dictionary(dict));
                },
                Ok(true) => {},
            }
        }
        if self.buffered_is_word(0, "stream") {
            self.parse_stream_body(dict)
        } else {
            Ok(Object::Dictionary(dict))
        }
    }

    fn parse_stream_body(&mut self, dict: Dictionary) -> (r: Result<Object, PdfError>)
        requires
            old(self).wf(),
            old(self).reader().pos <= old(self).bytes().len(),
        ensures
            final(self).wf(),
            final(self).bytes() == old(self).bytes(),
            returns_parsed(r, stream_at(old(self).bytes(), dict@, old(self).reader().pos)),
            r is Ok ==> final(self).reader() == stream_at(
                old(self).bytes(),
                dict@,
                old(self).reader().pos,
            )->Object_1,
    {
        proof {
            stream_shrinks(self.bytes(), dict@, self.reader());
        }
        let mut start: usize = self.lexer.pos();
        if start < self.data.len() && self.data[start] == 13 {
            start += 1;
        }
        if start < self.data.len() && self.data[start] == 10 {
            start += 1;
        }
        let length: Option<u64> = match dict.get("Length") {
            Some(Object::Integer(n)) => if *n >= 0 {
                Some(*n as u64)
            } else {
                None
            },
            _ => None,
        };
        match length {
            Some(n) => {
                let end: usize = if n <= (self.data.len() - start) as u64 {
                    start + n as usize
                } else {
                    self.data.len()
                };
                match self.read_endstream(end) {
                    Ok(true) => {
                        return Ok(
                            Object::Stream(
                                Stream { dict, raw_data: copy_range(self.data, start, end) },
                            ),
                        );
                    },
                    _ => {},
                }
            },
            None => {},
        }
        let word: [u8; 9] = [101, 110, 100, 115, 116, 114, 101, 97, 109];
        assert(word@ =~= endstream_word());
        match find_subslice(self.data, word.as_slice(), start) {
            None => Err(PdfError::UnexpectedEof(start)),
            Some(end) => match self.read_endstream(end) {
                Ok(true) => Ok(
                    Object::Stream(Stream { dict, raw_data: copy_range(self.data, start, end) }),
                ),
                Ok(false) => Err(PdfError::InvalidObject(end, Problem::MissingEndstream)),
                Err(e) => Err(e),
            },
        }
    }

    /// Goes to `pos` and reads a token; whether it is the word `endstream`.
    fn read_endstream(&mut self, pos: usize) -> (r: Result<bool, PdfError>)
        requires
            old(self).wf(),
            pos <= old(self).bytes().len(),
        ensures
            final(self).wf(),
            final(self).bytes() == old(self).bytes(),
            match r {
                Ok(b) => b == endstream_at(old(self).bytes(), pos as int) && !(lex(
                    old(self).bytes(),
                    pos as int,
                ) is Fault),
                Err(e) => lex(old(self).bytes(), pos as int) is Fault && e@ == lex(
                    old(self).bytes(),
                    pos as int,
                )->Fault_0,
            },
            final(self).reader() == (Reader {
                ahead: seq![],
                pos: lexed_end(lex(old(self).bytes(), pos as int)),
            }),
    {
        self.seek(pos);
        match self.next_token() {
            Err(e) => Err(e),
            Ok(Some(Token::Keyword(k))) => Ok(same_text(k.as_str(), "endstream")),
            Ok(_) => Ok(false),
        }
    }

    /// Reads an indirect object `N G obj ... endobj`; `endobj` may be missing.
    pub fn parse_indirect_object(&mut self) -> (r: Result<(u32, u16, Object), PdfError>)
        requires
            old(self).wf(),
        ensures
            final(self).wf(),
            final(self).bytes() == old(self).bytes(),
            match indirect_from(old(self).bytes(), old(self).reader()) {
                Indirect::Object(num, gen, o, after) => {
                    &&& r is Ok
                    &&& r->Ok_0.0 == num
                    &&& r->Ok_0.1 == gen
                    &&& r->Ok_0.2@ == o
                    &&& final(self).reader() == after
                },
                Indirect::Fault(e) => r is Err && r->Err_0@ == e,
            },
    {
        let ghost d = self.bytes();
        let num: u32 = match self.next_token() {
            Err(e) => {
                return Err(e);
            },
            Ok(Some(Token::Integer(n))) => {
                if n < 0 {
                    return Err(
                        PdfError::InvalidObject(self.lexer.pos(), Problem::MissingObjectNumber),
                    );
                }
                #[verifier::truncate]
                (n as u32)
            },
            Ok(_) => {
                return Err(PdfError::InvalidObject(self.lexer.pos(), Problem::MissingObjectNumber));
            },
        };
        let gen: u16 = match self.next_token() {
            Err(e) => {
                return Err(e);
            },
            Ok(Some(Token::Integer(n))) => {
                if n < 0 {
                    return Err(
                        PdfError::InvalidObject(self.lexer.pos(), Problem::MissingGeneration),
                    );
                }
                #[verifier::truncate]
                (n as u16)
            },
            Ok(_) => {
                return Err(PdfError::InvalidObject(self.lexer.pos(), Problem::MissingGeneration));
            },
        };
        match self.next_token() {
            Err(e) => {
                return Err(e);
            },
            Ok(Some(Token::Keyword(k))) => {
                if !same_text(k.as_str(), "obj") {
                    return Err(PdfError::InvalidObject(self.lexer.pos(), Problem::MissingObj));
                }
            },
            Ok(_) => {
                return Err(PdfError::InvalidObject(self.lexer.pos(), Problem::MissingObj));
            },
        }
        let object = match self.parse_object() {
            Err(e) => {
                return Err(e);
            },
            Ok(o) => o,
        };
        proof {
            take_shrinks(self.reader(), d);
        }
        match self.next_token() {
            Err(e) => {
                return Err(e);
            },
            Ok(Some(token)) => {
                let ended: bool = match &token {
                    Token::Keyword(k) => same_text(k.as_str(), "endobj"),
                    _ => false,
                };
                if !ended {
                    let ghost before = self.reader();
                    self.buffered.push(token);
                    assert(self.reader().ahead =~= seq![token@] + before.ahead);
                }
            },
            Ok(None) => {},
        }
        Ok((num, gen, object))
    }
}

} // verus!
