//! Content streams: operands and the operators behind them.
use vstd::prelude::*;
use crate::bytes::{find_from, find_subslice};
use crate::error::{ErrorModel, PdfError, Problem};
use crate::filters::{ascii_space, is_ascii_space};
use crate::lexer::{lex, lex_progress, lexed_end, Lexed, Lexer, Token, TokenModel};
use crate::object::{models, DictModel, Dictionary, Object, ObjectModel};
use crate::text::same_text;

verus! {

/// An operator with the operands before it.
#[derive(Debug, PartialEq)]
pub struct ContentInstruction {
    pub operator: String,
    pub operands: Vec<Object>,
}

/// An instruction by what it says.
pub ghost struct InstructionModel {
    pub operator: Seq<char>,
    pub operands: Seq<ObjectModel>,
}

impl View for ContentInstruction {
    type V = InstructionModel;

    open spec fn view(&self) -> InstructionModel {
        InstructionModel { operator: self.operator@, operands: models(self.operands@) }
    }
}

pub open spec fn instruction_models(s: Seq<ContentInstruction>) -> Seq<InstructionModel> {
    s.map_values(|i: ContentInstruction| i@)
}

/// A value and the position behind it, or a fault.
pub type Value = Result<(ObjectModel, int), ErrorModel>;

/// The value that starts with the token `t`, which ends at `p`.
pub open spec fn value_from(d: Seq<u8>, t: TokenModel, p: int) -> Value
    decreases d.len() - p, 1nat,
{
    match t {
        TokenModel::Integer(n) => Ok((ObjectModel::Integer(n), p)),
        TokenModel::Real(r) => Ok((ObjectModel::Real(r), p)),
        TokenModel::LiteralString(s) => Ok((ObjectModel::String(s), p)),
        TokenModel::HexString(s) => Ok((ObjectModel::String(s), p)),
        TokenModel::Name(n) => Ok((ObjectModel::Name(n), p)),
        TokenModel::ArrayStart => values_from(d, p, seq![]),
        TokenModel::DictStart => pairs_from(d, p, Map::empty()),
        TokenModel::Keyword(k) => if k == "true"@ {
            Ok((ObjectModel::Boolean(true), p))
        } else if k == "false"@ {
            Ok((ObjectModel::Boolean(false), p))
        } else if k == "null"@ {
            Ok((ObjectModel::Null, p))
        } else {
            Err(ErrorModel::InvalidObject(p, Problem::UnexpectedOperand))
        },
        _ => Err(ErrorModel::InvalidObject(p, Problem::UnexpectedOperand)),
    }
}

/// The items of an array from `p` on, behind those in `acc`.
pub open spec fn values_from(d: Seq<u8>, p: int, acc: Seq<ObjectModel>) -> Value
    decreases d.len() - p, 0nat,
    via values_shrink
{
    match lex(d, p) {
        Lexed::Fault(e, _) => Err(e),
        Lexed::End(q) => Err(ErrorModel::UnexpectedEof(q)),
        Lexed::Token(t, q) => if t is ArrayEnd {
            Ok((ObjectModel::Array(acc), q))
        } else {
            match value_from(d, t, q) {
                Err(e) => Err(e),
                Ok((o, next)) => if p < next <= d.len() {
                    values_from(d, next, acc.push(o))
                } else {
                    Err(ErrorModel::UnexpectedEof(next))
                },
            }
        },
    }
}

#[via_fn]
proof fn values_shrink(d: Seq<u8>, p: int, acc: Seq<ObjectModel>) {
    token_shrinks(d, p);
}

proof fn token_shrinks(d: Seq<u8>, p: int)
    ensures
        match lex(d, p) {
            Lexed::Token(_, q) => p < q <= d.len() && 0 <= p,
            _ => true,
        },
{
    if p >= 0 {
        lex_progress(d, p);
    } else {
        reveal(lex);
    }
}

/// The entries of a dictionary from `p` on, behind those in `dict`.
pub open spec fn pairs_from(d: Seq<u8>, p: int, dict: DictModel) -> Value
    decreases d.len() - p, 0nat,
    via pairs_shrink
{
    match lex(d, p) {
        Lexed::Fault(e, _) => Err(e),
        Lexed::End(q) => Err(ErrorModel::UnexpectedEof(q)),
        Lexed::Token(TokenModel::DictEnd, q) => Ok((ObjectModel::Dictionary(dict), q)),
        Lexed::Token(TokenModel::Name(key), q) => match lex(d, q) {
            Lexed::Fault(e, _) => Err(e),
            Lexed::End(q1) => Err(ErrorModel::UnexpectedEof(q1)),
            Lexed::Token(t, q1) => match value_from(d, t, q1) {
                Err(e) => Err(e),
                Ok((o, next)) => if p < next <= d.len() {
                    pairs_from(d, next, dict.insert(key, o))
                } else {
                    Err(ErrorModel::UnexpectedEof(next))
                },
            },
        },
        Lexed::Token(_, q) => Err(ErrorModel::InvalidObject(q, Problem::KeyIsNotAName)),
    }
}

#[via_fn]
proof fn pairs_shrink(d: Seq<u8>, p: int, dict: DictModel) {
    token_shrinks(d, p);
    token_shrinks(d, lexed_end(lex(d, p)));
}

/// A value ends behind its first token, inside the data.
proof fn value_progress(d: Seq<u8>, t: TokenModel, p: int)
    requires
        0 <= p <= d.len(),
    ensures
        value_from(d, t, p) is Ok ==> p <= value_from(d, t, p)->Ok_0.1 <= d.len(),
    decreases d.len() - p, 1nat,
{
    match t {
        TokenModel::ArrayStart => {
            values_progress(d, p, seq![]);
        },
        TokenModel::DictStart => {
            pairs_progress(d, p, Map::empty());
        },
        _ => {},
    }
}

proof fn values_progress(d: Seq<u8>, p: int, acc: Seq<ObjectModel>)
    requires
        0 <= p <= d.len(),
    ensures
        values_from(d, p, acc) is Ok ==> p <= values_from(d, p, acc)->Ok_0.1 <= d.len(),
    decreases d.len() - p, 0nat,
{
    token_shrinks(d, p);
    if let Lexed::Token(t, q) = lex(d, p) {
        if !(t is ArrayEnd) {
            value_progress(d, t, q);
            if let Ok((o, next)) = value_from(d, t, q) {
                values_progress(d, next, acc.push(o));
            }
        }
    }
}

proof fn pairs_progress(d: Seq<u8>, p: int, dict: DictModel)
    requires
        0 <= p <= d.len(),
    ensures
        pairs_from(d, p, dict) is Ok ==> p <= pairs_from(d, p, dict)->Ok_0.1 <= d.len(),
    decreases d.len() - p, 0nat,
{
    token_shrinks(d, p);
    if let Lexed::Token(TokenModel::Name(key), q) = lex(d, p) {
        token_shrinks(d, q);
        if let Lexed::Token(t, q1) = lex(d, q) {
            value_progress(d, t, q1);
            if let Ok((o, next)) = value_from(d, t, q1) {
                pairs_progress(d, next, dict.insert(key, o));
            }
        }
    }
}

/// The head of an inline image from `p` on, up to the word `ID`: the length of its data, where it
/// is stated behind the name `L` or `Length`, and where the head ends.
pub open spec fn image_head(
    d: Seq<u8>,
    p: int,
    key: Option<Seq<char>>,
    length: Option<int>,
) -> Result<(Option<int>, int), ErrorModel>
    decreases d.len() - p,
    via image_head_shrinks
{
    match lex(d, p) {
        Lexed::Fault(e, _) => Err(e),
        Lexed::End(q) => Err(ErrorModel::UnexpectedEof(q)),
        Lexed::Token(t, q) => if t == TokenModel::Keyword("ID"@) {
            Ok((length, q))
        } else {
            match t {
                TokenModel::Name(n) => image_head(d, q, Some(n), length),
                TokenModel::Integer(n) => image_head(
                    d,
                    q,
                    None,
                    if key == Some("L"@) || key == Some("Length"@) {
                        Some(
                            if n < 0 {
                                0
                            } else {
                                n
                            },
                        )
                    } else {
                        length
                    },
                ),
                _ => image_head(d, q, None, length),
            }
        },
    }
}

#[via_fn]
proof fn image_head_shrinks(d: Seq<u8>, p: int, key: Option<Seq<char>>, length: Option<int>) {
    token_shrinks(d, p);
}

proof fn image_head_progress(d: Seq<u8>, p: int, key: Option<Seq<char>>, length: Option<int>)
    requires
        0 <= p <= d.len(),
    ensures
        image_head(d, p, key, length) is Ok ==> p <= image_head(d, p, key, length)->Ok_0.1
            <= d.len(),
    decreases d.len() - p,
{
    token_shrinks(d, p);
    if let Lexed::Token(t, q) = lex(d, p) {
        if t != TokenModel::Keyword("ID"@) {
            match t {
                TokenModel::Name(n) => {
                    image_head_progress(d, q, Some(n), length);
                },
                TokenModel::Integer(n) => {
                    image_head_progress(
                        d,
                        q,
                        None,
                        if key == Some("L"@) || key == Some("Length"@) {
                            Some(
                                if n < 0 {
                                    0
                                } else {
                                    n
                                },
                            )
                        } else {
                            length
                        },
                    );
                },
                _ => {
                    image_head_progress(d, q, None, length);
                },
            }
        }
    }
}

/// Where the first word `EI` from `p` on ends.
pub open spec fn behind_ei(d: Seq<u8>, p: int) -> Result<int, ErrorModel>
    decreases d.len() - p,
    via behind_ei_shrinks
{
    match lex(d, p) {
        Lexed::Fault(e, _) => Err(e),
        Lexed::End(q) => Err(ErrorModel::UnexpectedEof(q)),
        Lexed::Token(t, q) => if t == TokenModel::Keyword("EI"@) {
            Ok(q)
        } else {
            behind_ei(d, q)
        },
    }
}

#[via_fn]
proof fn behind_ei_shrinks(d: Seq<u8>, p: int) {
    token_shrinks(d, p);
}

proof fn behind_ei_progress(d: Seq<u8>, p: int)
    requires
        0 <= p <= d.len(),
    ensures
        behind_ei(d, p) is Ok ==> p <= behind_ei(d, p)->Ok_0 <= d.len(),
    decreases d.len() - p,
{
    token_shrinks(d, p);
    if let Lexed::Token(t, q) = lex(d, p) {
        if t != TokenModel::Keyword("EI"@) {
            behind_ei_progress(d, q);
        }
    }
}

/// `EI`
pub open spec fn ei() -> Seq<u8> {
    seq![69u8, 73]
}

/// White space or nothing stands on both sides of the `EI` at `i`, in data that start at `base`.
pub open spec fn ei_stands_alone(d: Seq<u8>, base: int, i: int) -> bool {
    &&& i == base || ascii_space(d[i - 1])
    &&& i + 2 >= d.len() || ascii_space(d[i + 2])
}

/// The first `EI` from `from` on that stands alone.
pub open spec fn find_ei(d: Seq<u8>, base: int, from: int) -> Option<int>
    decreases d.len() - from,
{
    match find_from(d, ei(), from) {
        None => None,
        Some(i) => if ei_stands_alone(d, base, i) || i < from || i + 2 > d.len() {
            Some(i)
        } else {
            find_ei(d, base, i + 2)
        },
    }
}

/// Where an inline image whose word `BI` ends at `p` is over.
pub open spec fn behind_image(d: Seq<u8>, p: int) -> Result<int, ErrorModel> {
    match image_head(d, p, None, None) {
        Err(e) => Err(e),
        Ok((length, q)) => {
            let base = if 0 <= q < d.len() && ascii_space(d[q]) {
                q + 1
            } else {
                q
            };
            match length {
                Some(n) => behind_ei(
                    d,
                    if base + n <= d.len() {
                        base + n
                    } else {
                        d.len() as int
                    },
                ),
                None => match find_ei(d, base, base) {
                    Some(i) => Ok(i + 2),
                    None => Err(ErrorModel::UnexpectedEof(base)),
                },
            }
        },
    }
}

/// The instructions from `p` on, behind those in `acc`, with the operands read so far.
pub open spec fn instructions_from(
    d: Seq<u8>,
    p: int,
    operands: Seq<ObjectModel>,
    acc: Seq<InstructionModel>,
) -> Result<Seq<InstructionModel>, ErrorModel>
    decreases d.len() - p,
    via instructions_shrink
{
    match lex(d, p) {
        Lexed::Fault(e, _) => Err(e),
        Lexed::End(_) => Ok(acc),
        Lexed::Token(TokenModel::Keyword(k), q) => if k == "true"@ {
            instructions_from(d, q, operands.push(ObjectModel::Boolean(true)), acc)
        } else if k == "false"@ {
            instructions_from(d, q, operands.push(ObjectModel::Boolean(false)), acc)
        } else if k == "null"@ {
            instructions_from(d, q, operands.push(ObjectModel::Null), acc)
        } else if k == "BI"@ {
            match behind_image(d, q) {
                Err(e) => Err(e),
                Ok(next) => if p < next <= d.len() {
                    instructions_from(d, next, seq![], acc)
                } else {
                    Ok(acc)
                },
            }
        } else {
            instructions_from(
                d,
                q,
                seq![],
                acc.push(InstructionModel { operator: k, operands }),
            )
        },
        Lexed::Token(t, q) => match value_from(d, t, q) {
            Err(e) => Err(e),
            Ok((o, next)) => if p < next <= d.len() {
                instructions_from(d, next, operands.push(o), acc)
            } else {
                Ok(acc)
            },
        },
    }
}

#[via_fn]
proof fn instructions_shrink(
    d: Seq<u8>,
    p: int,
    operands: Seq<ObjectModel>,
    acc: Seq<InstructionModel>,
) {
    token_shrinks(d, p);
}

/// The instructions of a content stream.
pub open spec fn instructions(d: Seq<u8>) -> Result<Seq<InstructionModel>, ErrorModel> {
    instructions_from(d, 0, seq![], seq![])
}

proof fn find_ei_bounds(d: Seq<u8>, base: int, from: int)
    requires
        0 <= base <= from <= d.len(),
    ensures
        find_ei(d, base, from) is Some ==> from <= find_ei(d, base, from)->Some_0 && find_ei(
            d,
            base,
            from,
        )->Some_0 + 2 <= d.len(),
    decreases d.len() - from,
{
    if let Some(i) = find_from(d, ei(), from) {
        if !ei_stands_alone(d, base, i) {
            find_ei_bounds(d, base, i + 2);
        }
    }
}

proof fn behind_image_progress(d: Seq<u8>, p: int)
    requires
        0 <= p <= d.len(),
    ensures
        behind_image(d, p) is Ok ==> p <= behind_image(d, p)->Ok_0 <= d.len(),
{
    image_head_progress(d, p, None, None);
    if let Ok((length, q)) = image_head(d, p, None, None) {
        let base = if 0 <= q < d.len() && ascii_space(d[q]) {
            q + 1
        } else {
            q
        };
        match length {
            Some(n) => {
                image_length_bound(d, p, None, None);
                behind_ei_progress(
                    d,
                    if base + n <= d.len() {
                        base + n
                    } else {
                        d.len() as int
                    },
                );
            },
            None => {
                find_ei_bounds(d, base, base);
            },
        }
    }
}

proof fn image_length_bound(d: Seq<u8>, p: int, key: Option<Seq<char>>, length: Option<int>)
    requires
        0 <= p <= d.len(),
        length is Some ==> length->Some_0 >= 0,
    ensures
        image_head(d, p, key, length) is Ok && image_head(d, p, key, length)->Ok_0.0 is Some
            ==> image_head(d, p, key, length)->Ok_0.0->Some_0 >= 0,
    decreases d.len() - p,
{
    token_shrinks(d, p);
    if let Lexed::Token(t, q) = lex(d, p) {
        if t != TokenModel::Keyword("ID"@) {
            match t {
                TokenModel::Name(n) => {
                    image_length_bound(d, q, Some(n), length);
                },
                TokenModel::Integer(n) => {
                    image_length_bound(
                        d,
                        q,
                        None,
                        if key == Some("L"@) || key == Some("Length"@) {
                            Some(
                                if n < 0 {
                                    0
                                } else {
                                    n
                                },
                            )
                        } else {
                            length
                        },
                    );
                },
                _ => {
                    image_length_bound(d, q, None, length);
                },
            }
        }
    }
}

/// `r` is the value that was read.
spec fn returns_value(r: Result<Object, PdfError>, v: Value, at: int) -> bool {
    match v {
        Ok((o, p)) => r is Ok && r->Ok_0@ == o && at == p,
        Err(e) => r is Err && r->Err_0@ == e,
    }
}

fn parse_value_from(lexer: &mut Lexer, token: Token) -> (r: Result<Object, PdfError>)
    requires
        0 <= old(lexer).at() <= old(lexer).bytes().len(),
    ensures
        final(lexer).bytes() == old(lexer).bytes(),
        returns_value(
            r,
            value_from(old(lexer).bytes(), token@, old(lexer).at()),
            final(lexer).at(),
        ),
    decreases old(lexer).bytes().len() - old(lexer).at(), 1nat,
{
    match token {
        Token::Integer(n) => Ok(Object::Integer(n)),
        Token::Real(x) => Ok(Object::Real(x)),
        Token::LiteralString(s) => Ok(Object::String(s)),
        Token::HexString(s) => Ok(Object::String(s)),
        Token::Name(n) => Ok(Object::Name(n)),
        Token::ArrayStart => parse_array(lexer),
        Token::DictStart => parse_dict(lexer),
        Token::Keyword(k) => {
            if same_text(k.as_str(), "true") {
                Ok(Object::Boolean(true))
            } else if same_text(k.as_str(), "false") {
                Ok(Object::Boolean(false))
            } else if same_text(k.as_str(), "null") {
                Ok(Object::Null)
            } else {
                Err(PdfError::InvalidObject(lexer.pos(), Problem::UnexpectedOperand))
            }
        },
        _ => Err(PdfError::InvalidObject(lexer.pos(), Problem::UnexpectedOperand)),
    }
}

fn parse_array(lexer: &mut Lexer) -> (r: Result<Object, PdfError>)
    requires
        0 <= old(lexer).at() <= old(lexer).bytes().len(),
    ensures
        final(lexer).bytes() == old(lexer).bytes(),
        returns_value(
            r,
            values_from(old(lexer).bytes(), old(lexer).at(), seq![]),
            final(lexer).at(),
        ),
    decreases old(lexer).bytes().len() - old(lexer).at(), 0nat,
{
    let ghost d = lexer.bytes();
    let ghost start = lexer.at();
    let ghost goal = values_from(d, start, seq![]);
    let mut items: Vec<Object> = Vec::new();
    assert(models(items@) =~= seq![]);
    loop
        invariant
            d == lexer.bytes(),
            d == old(lexer).bytes(),
            start == old(lexer).at(),
            0 <= start <= lexer.at() <= d.len(),
            goal == values_from(d, start, seq![]),
            goal == values_from(d, lexer.at(), models(items@)),
        decreases d.len() - lexer.at(),
    {
        proof {
            token_shrinks(d, lexer.at());
        }
        match lexer.next_token() {
            Err(e) => {
                return Err(e);
            },
            Ok(None) => {
                return Err(PdfError::UnexpectedEof(lexer.pos()));
            },
            Ok(Some(Token::ArrayEnd)) => {
                let r = Object::Array(items);
                assert(r@->Array_0 =~= models(items@));
                return Ok(r);
            },
            Ok(Some(token)) => {
                proof {
                    value_progress(d, token@, lexer.at());
                }
                match parse_value_from(lexer, token) {
                    Err(e) => {
                        return Err(e);
                    },
                    Ok(o) => {
                        let ghost before = models(items@);
                        items.push(o);
                        assert(models(items@) =~= before.push(o@));
                    },
                }
            },
        }
    }
}

fn parse_dict(lexer: &mut Lexer) -> (r: Result<Object, PdfError>)
    requires
        0 <= old(lexer).at() <= old(lexer).bytes().len(),
    ensures
        final(lexer).bytes() == old(lexer).bytes(),
        returns_value(
            r,
            pairs_from(old(lexer).bytes(), old(lexer).at(), Map::empty()),
            final(lexer).at(),
        ),
    decreases old(lexer).bytes().len() - old(lexer).at(), 0nat,
{
    let ghost d = lexer.bytes();
    let ghost start = lexer.at();
    let ghost goal = pairs_from(d, start, Map::empty());
    let mut dict = Dictionary::new();
    loop
        invariant
            d == lexer.bytes(),
            d == old(lexer).bytes(),
            start == old(lexer).at(),
            0 <= start <= lexer.at() <= d.len(),
            goal == pairs_from(d, start, Map::empty()),
            goal == pairs_from(d, lexer.at(), dict@),
        decreases d.len() - lexer.at(),
    {
        proof {
            token_shrinks(d, lexer.at());
            token_shrinks(d, lexed_end(lex(d, lexer.at())));
        }
        match lexer.next_token() {
            Err(e) => {
                return Err(e);
            },
            Ok(None) => {
                return Err(PdfError::UnexpectedEof(lexer.pos()));
            },
            Ok(Some(Token::DictEnd)) => {
                return Ok(Object::Dictionary(dict));
            },
            Ok(Some(Token::Name(key))) => match lexer.next_token() {
                Err(e) => {
                    return Err(e);
                },
                Ok(None) => {
                    return Err(PdfError::UnexpectedEof(lexer.pos()));
                },
                Ok(Some(token)) => {
                    proof {
                        value_progress(d, token@, lexer.at());
                    }
                    match parse_value_from(lexer, token) {
                        Err(e) => {
                            return Err(e);
                        },
                        Ok(o) => {
                            dict.insert(key.as_str(), o);
                        },
                    }
                },
            },
            Ok(Some(_)) => {
                return Err(PdfError::InvalidObject(lexer.pos(), Problem::KeyIsNotAName));
            },
        }
    }
}

/// Reads the head of an inline image up to the word `ID`; the length of its data, where it is
/// stated.
fn read_image_head(lexer: &mut Lexer) -> (r: Result<Option<u64>, PdfError>)
    requires
        0 <= old(lexer).at() <= old(lexer).bytes().len(),
    ensures
        final(lexer).bytes() == old(lexer).bytes(),
        match image_head(old(lexer).bytes(), old(lexer).at(), None, None) {
            Ok((length, q)) => {
                &&& r is Ok
                &&& match r->Ok_0 {
                    Some(n) => length == Some(n as int) && n <= i64::MAX,
                    None => length is None,
                }
                &&& final(lexer).at() == q
            },
            Err(e) => r is Err && r->Err_0@ == e,
        },
{
    let ghost d = lexer.bytes();
    let ghost start = lexer.at();
    let ghost goal = image_head(d, start, None, None);
    let mut keyed: bool = false;
    let ghost mut key: Option<Seq<char>> = None;
    let mut length: Option<u64> = None;
    loop
        invariant
            d == lexer.bytes(),
            d == old(lexer).bytes(),
            start == old(lexer).at(),
            0 <= lexer.at() <= d.len(),
            goal == image_head(d, start, None, None),
            keyed == (key == Some("L"@) || key == Some("Length"@)),
            length is Some ==> length->Some_0 <= i64::MAX,
            goal == image_head(
                d,
                lexer.at(),
                key,
                match length {
                    Some(n) => Some(n as int),
                    None => None,
                },
            ),
        decreases d.len() - lexer.at(),
    {
        proof {
            token_shrinks(d, lexer.at());
        }
        match lexer.next_token() {
            Err(e) => {
                return Err(e);
            },
            Ok(None) => {
                return Err(PdfError::UnexpectedEof(lexer.pos()));
            },
            Ok(Some(Token::Keyword(k))) => {
                if same_text(k.as_str(), "ID") {
                    return Ok(length);
                }
                keyed = false;
                proof {
                    key = None;
                }
            },
            Ok(Some(Token::Name(n))) => {
                keyed = same_text(n.as_str(), "L") || same_text(n.as_str(), "Length");
                proof {
                    key = Some(n@);
                }
            },
            Ok(Some(Token::Integer(n))) => {
                if keyed {
                    length =
                    Some(
                        if n < 0 {
                            0
                        } else {
                            n as u64
                        },
                    );
                }
                keyed = false;
                proof {
                    key = None;
                }
            },
            Ok(Some(_)) => {
                keyed = false;
                proof {
                    key = None;
                }
            },
        }
    }
}

/// Passes over an inline image, whose data end behind the length that its head states, or at the
/// first `EI` that stands alone.
fn skip_inline_image(lexer: &mut Lexer) -> (r: Result<(), PdfError>)
    requires
        0 <= old(lexer).at() <= old(lexer).bytes().len(),
    ensures
        final(lexer).bytes() == old(lexer).bytes(),
        match behind_image(old(lexer).bytes(), old(lexer).at()) {
            Ok(q) => r is Ok && final(lexer).at() == q,
            Err(e) => r is Err && r->Err_0@ == e,
        },
{
    let ghost d = lexer.bytes();
    proof {
        lexer.at_bounds();
        image_head_progress(d, lexer.at(), None, None);
    }
    let length: Option<u64> = match read_image_head(lexer) {
        Ok(n) => n,
        Err(e) => {
            return Err(e);
        },
    };
    let rest = lexer.remaining();
    let size: usize = rest.len();
    let mut base: usize = lexer.pos();
    assert(d.len() == base + size);
    if size > 0 && is_ascii_space(rest[0]) {
        assert(rest@[0] == d[base as int]);
        base += 1;
    } else if size > 0 {
        assert(rest@[0] == d[base as int]);
    }
    lexer.seek(base);
    match length {
        Some(n) => {
            let room: usize = lexer.remaining().len();
            if n <= room as u64 {
                lexer.seek(base + n as usize);
            } else {
                lexer.seek(base + room);
            }
            return skip_to_ei_keyword(lexer);
        },
        None => {},
    }
    let rest = lexer.remaining();
    let word: [u8; 2] = [69, 73];
    let mut from: usize = 0;
    assert(word@ =~= ei());
    assert(rest@ =~= d.skip(base as int));
    loop
        invariant
            lexer.bytes() == d,
            d == old(lexer).bytes(),
            d.len() <= usize::MAX,
            lexer.at() == base,
            word@ == ei(),
            rest@ == d.skip(base as int),
            0 <= base <= d.len(),
            0 <= from <= rest@.len(),
            behind_image(d, old(lexer).at()) == match find_ei(d, base as int, base as int) {
                Some(i) => Ok::<int, ErrorModel>(i + 2),
                None => Err(ErrorModel::UnexpectedEof(base as int)),
            },
            find_ei(d, base as int, base as int) == find_ei(d, base as int, base + from),
        decreases rest@.len() - from,
    {
        proof {
            find_shifted(d, base as int, from as int);
        }
        match find_subslice(rest, word.as_slice(), from) {
            None => {
                return Err(PdfError::UnexpectedEof(lexer.pos()));
            },
            Some(i) => {
                let before: bool = i == 0 || is_ascii_space(rest[i - 1]);
                let after: bool = i + 2 >= rest.len() || is_ascii_space(rest[i + 2]);
                proof {
                    if i > 0 {
                        assert(rest@[i - 1] == d[base + i - 1]);
                    }
                    if i + 2 < rest@.len() {
                        assert(rest@[i + 2] == d[base + i + 2]);
                    }
                    assert((before && after) == ei_stands_alone(d, base as int, base + i));
                }
                if before && after {
                    lexer.seek(base + (i + 2));
                    return Ok(());
                }
                from = i + 2;
            },
        }
    }
}

/// What is found behind a start is what is found in the whole, counted from there.
proof fn find_shifted(d: Seq<u8>, base: int, from: int)
    requires
        0 <= base <= d.len(),
        0 <= from,
    ensures
        match find_from(d.skip(base), ei(), from) {
            Some(i) => find_from(d, ei(), base + from) == Some(base + i) && i >= from && base + i + 2
                <= d.len(),
            None => find_from(d, ei(), base + from) is None,
        },
{
    let rest = d.skip(base);
    assert forall|j: int| 0 <= j implies #[trigger] crate::bytes::occurs_at(rest, ei(), j)
        == crate::bytes::occurs_at(d, ei(), base + j) by {
        if base + j + 2 <= d.len() {
            assert(rest.subrange(j, j + 2) =~= d.subrange(base + j, base + j + 2));
        }
    }
    match find_from(rest, ei(), from) {
        Some(i) => {
            assert(crate::bytes::first_at(rest, ei(), from, i));
            assert forall|j: int| base + from <= j < base + i implies !#[trigger] crate::bytes::occurs_at(
                d,
                ei(),
                j,
            ) by {
                assert(!crate::bytes::occurs_at(rest, ei(), j - base));
            }
            assert(crate::bytes::occurs_at(rest, ei(), i));
            crate::bytes::find_from_is(d, ei(), base + from, base + i);
        },
        None => {
            if let Some(k) = find_from(d, ei(), base + from) {
                assert(crate::bytes::first_at(d, ei(), base + from, k));
                assert forall|j: int| from <= j < k - base implies !#[trigger] crate::bytes::occurs_at(
                    rest,
                    ei(),
                    j,
                ) by {
                    assert(!crate::bytes::occurs_at(d, ei(), base + j));
                }
                assert(crate::bytes::occurs_at(rest, ei(), k - base));
                crate::bytes::find_from_is(rest, ei(), from, k - base);
            }
        },
    }
}

fn skip_to_ei_keyword(lexer: &mut Lexer) -> (r: Result<(), PdfError>)
    requires
        0 <= old(lexer).at() <= old(lexer).bytes().len(),
    ensures
        final(lexer).bytes() == old(lexer).bytes(),
        match behind_ei(old(lexer).bytes(), old(lexer).at()) {
            Ok(q) => r is Ok && final(lexer).at() == q,
            Err(e) => r is Err && r->Err_0@ == e,
        },
{
    let ghost d = lexer.bytes();
    let ghost goal = behind_ei(d, lexer.at());
    loop
        invariant
            d == lexer.bytes(),
            d == old(lexer).bytes(),
            0 <= lexer.at() <= d.len(),
            goal == behind_ei(d, old(lexer).at()),
            goal == behind_ei(d, lexer.at()),
        decreases d.len() - lexer.at(),
    {
        proof {
            token_shrinks(d, lexer.at());
        }
        match lexer.next_token() {
            Err(e) => {
                return Err(e);
            },
            Ok(None) => {
                return Err(PdfError::UnexpectedEof(lexer.pos()));
            },
            Ok(Some(Token::Keyword(k))) => {
                if same_text(k.as_str(), "EI") {
                    return Ok(());
                }
            },
            Ok(Some(_)) => {},
        }
    }
}

/// Reads a decoded content stream. Inline images are passed over.
pub fn parse_content_stream(data: &[u8]) -> (r: Result<Vec<ContentInstruction>, PdfError>)
    ensures
        match instructions(data@) {
            Ok(list) => r is Ok && instruction_models(r->Ok_0@) == list,
            Err(e) => r is Err && r->Err_0@ == e,
        },
{
    let ghost d = data@;
    let ghost goal = instructions(d);
    let mut lexer = Lexer::new(data);
    let mut out: Vec<ContentInstruction> = Vec::new();
    let mut operands: Vec<Object> = Vec::new();
    assert(instruction_models(out@) =~= seq![]);
    assert(models(operands@) =~= seq![]);
    loop
        invariant
            d == data@,
            d == lexer.bytes(),
            0 <= lexer.at() <= d.len(),
            goal == instructions(d),
            goal == instructions_from(
                d,
                lexer.at(),
                models(operands@),
                instruction_models(out@),
            ),
        decreases d.len() - lexer.at(),
    {
        let ghost before = models(operands@);
        let ghost done = instruction_models(out@);
        proof {
            token_shrinks(d, lexer.at());
        }
        match lexer.next_token() {
            Err(e) => {
                return Err(e);
            },
            Ok(None) => {
                return Ok(out);
            },
            Ok(Some(Token::Keyword(k))) => {
                if same_text(k.as_str(), "true") {
                    operands.push(Object::Boolean(true));
                    assert(models(operands@) =~= before.push(ObjectModel::Boolean(true)));
                } else if same_text(k.as_str(), "false") {
                    operands.push(Object::Boolean(false));
                    assert(models(operands@) =~= before.push(ObjectModel::Boolean(false)));
                } else if same_text(k.as_str(), "null") {
                    operands.push(Object::Null);
                    assert(models(operands@) =~= before.push(ObjectModel::Null));
                } else if same_text(k.as_str(), "BI") {
                    proof {
                        behind_image_progress(d, lexer.at());
                    }
                    match skip_inline_image(&mut lexer) {
                        Err(e) => {
                            return Err(e);
                        },
                        Ok(()) => {},
                    }
                    operands = Vec::new();
                    assert(models(operands@) =~= seq![]);
                } else {
                    let instruction = ContentInstruction { operator: k, operands };
                    operands = Vec::new();
                    assert(models(operands@) =~= seq![]);
                    out.push(instruction);
                    assert(instruction_models(out@) =~= done.push(instruction@));
                }
            },
            Ok(Some(token)) => {
                proof {
                    value_progress(d, token@, lexer.at());
                }
                match parse_value_from(&mut lexer, token) {
                    Err(e) => {
                        return Err(e);
                    },
                    Ok(o) => {
                        operands.push(o);
                        assert(models(operands@) =~= before.push(o@));
                    },
                }
            },
        }
    }
}

} // verus!
