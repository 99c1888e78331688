//! Parser: consumes the whitespace-filtered token sequence by recursive
//! descent, producing a typed tree rooted at an [`Object`], or failing at
//! the first grammar violation.
//!
//! The grammar, one token of lookahead, no backtracking:
//!
//! ```text
//! Object   := '{' '}'  |  '{' Members '}'
//! Members  := Pair (',' Members)?
//! Pair     := String ':' Value
//! Value    := String | Number | Object | Array | True | False | Null
//! Array    := '[' ']'  |  '[' Elements ']'
//! Elements := Value (',' Elements)?
//! ```
//!
//! The mathematical model is the family [`spec_parse_object`],
//! [`spec_parse_members`], [`spec_parse_pair`], [`spec_parse_value`],
//! [`spec_parse_array`], [`spec_parse_elements`]: each maps the token
//! sequence and a cursor to the parsed node and the count of tokens it
//! consumed, or to the parse error.  Each executable function is proved to
//! return exactly what its model says.

use vstd::prelude::*;

use crate::lex::lexable_token;
use crate::lex::quote_free;
use crate::lex::sep_after_number;
use crate::lex::spec_lex;
use crate::lex::token_text;
use crate::lex::token_views;
use crate::lex::tokens_text;
use crate::lex::well_separated;
use crate::lex::lemma_spec_lex_of_tokens;
use crate::lex::LexError;
use crate::lex::Token;
use crate::lex::TokenV;

verus! {

/// A top-level JSON object: empty, or a non-empty ordered chain of
/// members.
#[derive(Debug, PartialEq)]
pub enum Object {
    Empty,
    Nonempty(Box<Members>),
}

/// A non-empty ordered chain of `key: value` pairs, right-recursive: the
/// last pair in source order is the innermost link.  Duplicate keys are
/// kept as repeated pairs; nothing is reordered.
#[derive(Debug, PartialEq)]
pub enum Members {
    Pair(String, Value),
    Pairs(String, Value, Box<Members>),
}

/// A JSON array: empty, or a non-empty ordered chain of elements.
#[derive(Debug, PartialEq)]
pub enum Array {
    Empty,
    Nonempty(Box<Elements>),
}

/// A non-empty ordered chain of array element values, right-recursive.
#[derive(Debug, PartialEq)]
pub enum Elements {
    Single(Value),
    Many(Value, Box<Elements>),
}

/// A JSON value.
#[derive(Debug, PartialEq)]
pub enum Value {
    String(String),
    Number(JSONNumber),
    Object(Object),
    Array(Array),
    True,
    False,
    Null,
}

/// A numeric literal, with the integer/float distinction the tokenizer
/// made kept intact.  As in [`Token::Float`], a float is the pair of its
/// decoded digit runs.
#[derive(Debug, PartialEq)]
pub enum JSONNumber {
    Integer(i32),
    Float(i32, i32),
}

/// The parser's one error kind: the next token (or the absence of any
/// remaining token) does not satisfy the current grammar production.
#[derive(Debug, PartialEq)]
pub enum ParseError {
    ExpectedToken,
}

/// The mathematical value of an [`Object`].
pub ghost enum ObjectV {
    Empty,
    Nonempty(Box<MembersV>),
}

/// The mathematical value of a [`Members`] chain.
pub ghost enum MembersV {
    Pair(Seq<char>, ValueV),
    Pairs(Seq<char>, ValueV, Box<MembersV>),
}

/// The mathematical value of an [`Array`].
pub ghost enum ArrayV {
    Empty,
    Nonempty(Box<ElementsV>),
}

/// The mathematical value of an [`Elements`] chain.
pub ghost enum ElementsV {
    Single(ValueV),
    Many(ValueV, Box<ElementsV>),
}

/// The mathematical value of a [`Value`].
pub ghost enum ValueV {
    String(Seq<char>),
    Number(JSONNumber),
    Object(ObjectV),
    Array(ArrayV),
    True,
    False,
    Null,
}

/// The mathematical value of an [`Object`] tree.
pub open spec fn view_object(o: Object) -> ObjectV
    decreases o,
{
    match o {
        Object::Empty => ObjectV::Empty,
        Object::Nonempty(m) => ObjectV::Nonempty(Box::new(view_members(*m))),
    }
}

/// The mathematical value of a [`Members`] chain.
pub open spec fn view_members(m: Members) -> MembersV
    decreases m,
{
    match m {
        Members::Pair(k, v) => MembersV::Pair(k@, view_value(v)),
        Members::Pairs(k, v, rest) => MembersV::Pairs(
            k@,
            view_value(v),
            Box::new(view_members(*rest)),
        ),
    }
}

/// The mathematical value of an [`Array`] tree.
pub open spec fn view_array(a: Array) -> ArrayV
    decreases a,
{
    match a {
        Array::Empty => ArrayV::Empty,
        Array::Nonempty(e) => ArrayV::Nonempty(Box::new(view_elements(*e))),
    }
}

/// The mathematical value of an [`Elements`] chain.
pub open spec fn view_elements(e: Elements) -> ElementsV
    decreases e,
{
    match e {
        Elements::Single(v) => ElementsV::Single(view_value(v)),
        Elements::Many(v, rest) => ElementsV::Many(view_value(v), Box::new(view_elements(*rest))),
    }
}

/// The mathematical value of a [`Value`].
pub open spec fn view_value(v: Value) -> ValueV
    decreases v,
{
    match v {
        Value::String(s) => ValueV::String(s@),
        Value::Number(n) => ValueV::Number(n),
        Value::Object(o) => ValueV::Object(view_object(o)),
        Value::Array(a) => ValueV::Array(view_array(a)),
        Value::True => ValueV::True,
        Value::False => ValueV::False,
        Value::Null => ValueV::Null,
    }
}

impl View for Object {
    type V = ObjectV;

    open spec fn view(&self) -> ObjectV {
        view_object(*self)
    }
}

impl View for Members {
    type V = MembersV;

    open spec fn view(&self) -> MembersV {
        view_members(*self)
    }
}

impl View for Array {
    type V = ArrayV;

    open spec fn view(&self) -> ArrayV {
        view_array(*self)
    }
}

impl View for Elements {
    type V = ElementsV;

    open spec fn view(&self) -> ElementsV {
        view_elements(*self)
    }
}

impl View for Value {
    type V = ValueV;

    open spec fn view(&self) -> ValueV {
        view_value(*self)
    }
}

/// The object production at `pos`: `{`, then either `}` (empty) or a
/// member chain closed by `}`.  Yields the node and the count of tokens
/// consumed, or the parse error.
pub open spec fn spec_parse_object(ts: Seq<TokenV>, pos: int) -> Result<(ObjectV, nat), ParseError>
    decreases ts.len() - pos, 0int,
{
    if !(0 <= pos < ts.len() && ts[pos] is ObjectStart) {
        Err(ParseError::ExpectedToken)
    } else if pos + 1 < ts.len() && ts[pos + 1] is ObjectEnd {
        Ok((ObjectV::Empty, 2))
    } else {
        match spec_parse_members(ts, pos + 1) {
            Err(e) => Err(e),
            Ok((m, n)) => {
                if pos + 1 + n < ts.len() && ts[pos + 1 + n] is ObjectEnd {
                    Ok((ObjectV::Nonempty(Box::new(m)), (n + 2) as nat))
                } else {
                    Err(ParseError::ExpectedToken)
                }
            },
        }
    }
}

/// The member-chain production at `pos`: a pair, then either a comma and
/// the rest of the chain, or nothing.
pub open spec fn spec_parse_members(ts: Seq<TokenV>, pos: int) -> Result<
    (MembersV, nat),
    ParseError,
>
    decreases ts.len() - pos, 3int,
{
    match spec_parse_pair(ts, pos) {
        Err(e) => Err(e),
        Ok(((key, value), n)) => {
            if pos + n < ts.len() && ts[pos + n] is Comma {
                match spec_parse_members(ts, pos + n + 1) {
                    Err(e) => Err(e),
                    Ok((rest, n2)) => Ok(
                        (MembersV::Pairs(key, value, Box::new(rest)), (n + 1 + n2) as nat),
                    ),
                }
            } else {
                Ok((MembersV::Pair(key, value), n))
            }
        },
    }
}

/// The pair production at `pos`: a string key, a colon, and a value.
pub open spec fn spec_parse_pair(ts: Seq<TokenV>, pos: int) -> Result<
    ((Seq<char>, ValueV), nat),
    ParseError,
>
    decreases ts.len() - pos, 2int,
{
    if !(0 <= pos && pos + 1 < ts.len()) {
        Err(ParseError::ExpectedToken)
    } else {
        match (ts[pos], ts[pos + 1]) {
            (TokenV::String(key), TokenV::Colon) => match spec_parse_value(ts, pos + 2) {
                Err(e) => Err(e),
                Ok((v, n)) => Ok(((key, v), (2 + n) as nat)),
            },
            _ => Err(ParseError::ExpectedToken),
        }
    }
}

/// The value production at `pos`, dispatching on the next token's kind
/// with no further lookahead.
pub open spec fn spec_parse_value(ts: Seq<TokenV>, pos: int) -> Result<(ValueV, nat), ParseError>
    decreases ts.len() - pos, 1int,
{
    if !(0 <= pos < ts.len()) {
        Err(ParseError::ExpectedToken)
    } else {
        match ts[pos] {
            TokenV::String(s) => Ok((ValueV::String(s), 1)),
            TokenV::Integer(i) => Ok((ValueV::Number(JSONNumber::Integer(i)), 1)),
            TokenV::Float(w, f) => Ok((ValueV::Number(JSONNumber::Float(w, f)), 1)),
            TokenV::True => Ok((ValueV::True, 1)),
            TokenV::False => Ok((ValueV::False, 1)),
            TokenV::Null => Ok((ValueV::Null, 1)),
            TokenV::ObjectStart => match spec_parse_object(ts, pos) {
                Err(e) => Err(e),
                Ok((o, n)) => Ok((ValueV::Object(o), n)),
            },
            TokenV::ArrayStart => match spec_parse_array(ts, pos) {
                Err(e) => Err(e),
                Ok((a, n)) => Ok((ValueV::Array(a), n)),
            },
            _ => Err(ParseError::ExpectedToken),
        }
    }
}

/// The array production at `pos`: `[`, then either `]` (empty) or an
/// element chain closed by `]`.
pub open spec fn spec_parse_array(ts: Seq<TokenV>, pos: int) -> Result<(ArrayV, nat), ParseError>
    decreases ts.len() - pos, 0int,
{
    if !(0 <= pos < ts.len() && ts[pos] is ArrayStart) {
        Err(ParseError::ExpectedToken)
    } else if pos + 1 < ts.len() && ts[pos + 1] is ArrayEnd {
        Ok((ArrayV::Empty, 2))
    } else {
        match spec_parse_elements(ts, pos + 1) {
            Err(e) => Err(e),
            Ok((es, n)) => {
                if pos + 1 + n < ts.len() && ts[pos + 1 + n] is ArrayEnd {
                    Ok((ArrayV::Nonempty(Box::new(es)), (n + 2) as nat))
                } else {
                    Err(ParseError::ExpectedToken)
                }
            },
        }
    }
}

/// The element-chain production at `pos`: a value, then either a comma
/// and the rest of the chain, or nothing.
pub open spec fn spec_parse_elements(ts: Seq<TokenV>, pos: int) -> Result<
    (ElementsV, nat),
    ParseError,
>
    decreases ts.len() - pos, 3int,
{
    match spec_parse_value(ts, pos) {
        Err(e) => Err(e),
        Ok((v, n)) => {
            if pos + n < ts.len() && ts[pos + n] is Comma {
                match spec_parse_elements(ts, pos + n + 1) {
                    Err(e) => Err(e),
                    Ok((rest, n2)) => Ok(
                        (ElementsV::Many(v, Box::new(rest)), (n + 1 + n2) as nat),
                    ),
                }
            } else {
                Ok((ElementsV::Single(v), n))
            }
        },
    }
}

/// The token sequence that denotes an object tree: `{`, the member
/// tokens, `}`.  A ghost rendering used only to state the grammar laws;
/// the system itself has no serializer.
pub open spec fn object_token_seq(o: ObjectV) -> Seq<TokenV>
    decreases o,
{
    match o {
        ObjectV::Empty => seq![TokenV::ObjectStart, TokenV::ObjectEnd],
        ObjectV::Nonempty(m) => seq![TokenV::ObjectStart] + members_token_seq(*m) + seq![
            TokenV::ObjectEnd,
        ],
    }
}

/// The token sequence that denotes a member chain, pairs in chain order,
/// separated by commas.
pub open spec fn members_token_seq(m: MembersV) -> Seq<TokenV>
    decreases m,
{
    match m {
        MembersV::Pair(k, v) => seq![TokenV::String(k), TokenV::Colon] + value_token_seq(v),
        MembersV::Pairs(k, v, rest) => seq![TokenV::String(k), TokenV::Colon] + value_token_seq(v)
            + seq![TokenV::Comma] + members_token_seq(*rest),
    }
}

/// The token sequence that denotes an array tree.
pub open spec fn array_token_seq(a: ArrayV) -> Seq<TokenV>
    decreases a,
{
    match a {
        ArrayV::Empty => seq![TokenV::ArrayStart, TokenV::ArrayEnd],
        ArrayV::Nonempty(e) => seq![TokenV::ArrayStart] + elements_token_seq(*e) + seq![
            TokenV::ArrayEnd,
        ],
    }
}

/// The token sequence that denotes an element chain, values in chain
/// order, separated by commas.
pub open spec fn elements_token_seq(e: ElementsV) -> Seq<TokenV>
    decreases e,
{
    match e {
        ElementsV::Single(v) => value_token_seq(v),
        ElementsV::Many(v, rest) => value_token_seq(v) + seq![TokenV::Comma] + elements_token_seq(
            *rest,
        ),
    }
}

/// The token sequence that denotes a value.
pub open spec fn value_token_seq(v: ValueV) -> Seq<TokenV>
    decreases v,
{
    match v {
        ValueV::String(s) => seq![TokenV::String(s)],
        ValueV::Number(JSONNumber::Integer(i)) => seq![TokenV::Integer(i)],
        ValueV::Number(JSONNumber::Float(w, f)) => seq![TokenV::Float(w, f)],
        ValueV::True => seq![TokenV::True],
        ValueV::False => seq![TokenV::False],
        ValueV::Null => seq![TokenV::Null],
        ValueV::Object(o) => object_token_seq(o),
        ValueV::Array(a) => array_token_seq(a),
    }
}

/// A value's token rendering is never empty, and never begins with a
/// closing delimiter, so a non-empty object or array is never mistaken
/// for an empty one.
pub proof fn lemma_value_token_seq_first(v: ValueV)
    ensures
        value_token_seq(v).len() >= 1,
        value_token_seq(v)[0] !is ObjectEnd,
        value_token_seq(v)[0] !is ArrayEnd,
{
    match v {
        ValueV::Object(o) => {
            match o {
                ObjectV::Empty => {},
                ObjectV::Nonempty(_) => {},
            }
        },
        ValueV::Array(a) => {
            match a {
                ArrayV::Empty => {},
                ArrayV::Nonempty(_) => {},
            }
        },
        _ => {},
    }
}

/// A token of the window `r` laid over `ts` at `pos` can be read off `r`.
proof fn lemma_window_index(ts: Seq<TokenV>, pos: int, r: Seq<TokenV>, a: int)
    requires
        0 <= pos,
        pos + r.len() <= ts.len(),
        ts.subrange(pos, pos + r.len() as int) == r,
        0 <= a < r.len(),
    ensures
        ts[pos + a] == r[a],
{
    assert(ts.subrange(pos, pos + r.len() as int)[a] == ts[pos + a]);
}

/// A sub-window of the window `r` laid over `ts` at `pos` is the
/// corresponding part of `r`.
proof fn lemma_window_subrange(ts: Seq<TokenV>, pos: int, r: Seq<TokenV>, a: int, b: int)
    requires
        0 <= pos,
        pos + r.len() <= ts.len(),
        ts.subrange(pos, pos + r.len() as int) == r,
        0 <= a <= b <= r.len(),
    ensures
        ts.subrange(pos + a, pos + b) == r.subrange(a, b),
{
    assert forall|i: int| 0 <= i < b - a implies ts.subrange(pos + a, pos + b)[i] == r.subrange(
        a,
        b,
    )[i] by {
        assert(r.subrange(a, b)[i] == r[a + i]);
        assert(ts.subrange(pos, pos + r.len() as int)[a + i] == ts[pos + (a + i)]);
        assert(ts.subrange(pos + a, pos + b)[i] == ts[pos + a + i]);
    }
    assert(ts.subrange(pos + a, pos + b) =~= r.subrange(a, b));
}

/// Parsing an object rendering embedded in a larger token sequence
/// succeeds and reproduces the tree exactly.
pub proof fn lemma_parse_object_exact(ts: Seq<TokenV>, pos: int, o: ObjectV)
    requires
        0 <= pos,
        pos + object_token_seq(o).len() <= ts.len(),
        ts.subrange(pos, pos + object_token_seq(o).len() as int) == object_token_seq(o),
    ensures
        spec_parse_object(ts, pos) == Ok::<(ObjectV, nat), ParseError>(
            (o, object_token_seq(o).len() as nat),
        ),
    decreases o, 0int,
{
    let r = object_token_seq(o);
    match o {
        ObjectV::Empty => {
            lemma_window_index(ts, pos, r, 0);
            lemma_window_index(ts, pos, r, 1);
        },
        ObjectV::Nonempty(m) => {
            let rm = members_token_seq(*m);
            let lm = rm.len() as int;
            lemma_window_index(ts, pos, r, 0);
            assert(r[0] == TokenV::ObjectStart);
            match *m {
                MembersV::Pair(k, v) => {
                    assert(rm[0] == TokenV::String(k));
                },
                MembersV::Pairs(k, v, rest) => {
                    assert(rm[0] == TokenV::String(k));
                },
            }
            assert(r[1] == rm[0]);
            lemma_window_index(ts, pos, r, 1);
            lemma_window_subrange(ts, pos, r, 1, 1 + lm);
            assert(r.subrange(1, 1 + lm) =~= rm);
            assert(r[1 + lm] == TokenV::ObjectEnd);
            lemma_window_index(ts, pos, r, 1 + lm);
            lemma_parse_members_exact(ts, pos + 1, *m);
        },
    }
}

/// Parsing a member-chain rendering embedded in a larger token sequence,
/// with no comma immediately after it, succeeds and reproduces the chain
/// exactly: the same pairs, in the same source order.
pub proof fn lemma_parse_members_exact(ts: Seq<TokenV>, pos: int, m: MembersV)
    requires
        0 <= pos,
        pos + members_token_seq(m).len() <= ts.len(),
        ts.subrange(pos, pos + members_token_seq(m).len() as int) == members_token_seq(m),
        pos + members_token_seq(m).len() == ts.len() || ts[pos + members_token_seq(m).len()]
            !is Comma,
    ensures
        spec_parse_members(ts, pos) == Ok::<(MembersV, nat), ParseError>(
            (m, members_token_seq(m).len() as nat),
        ),
    decreases m, 1int,
{
    let r = members_token_seq(m);
    match m {
        MembersV::Pair(k, v) => {
            let rv = value_token_seq(v);
            let lv = rv.len() as int;
            lemma_value_token_seq_first(v);
            assert(r[0] == TokenV::String(k));
            assert(r[1] == TokenV::Colon);
            lemma_window_index(ts, pos, r, 0);
            lemma_window_index(ts, pos, r, 1);
            lemma_window_subrange(ts, pos, r, 2, 2 + lv);
            assert(r.subrange(2, 2 + lv) =~= rv);
            lemma_parse_value_exact(ts, pos + 2, v);
            assert(r.len() == 2 + lv);
            assert(spec_parse_value(ts, pos + 2) == Ok::<(ValueV, nat), ParseError>(
                (v, rv.len() as nat),
            ));
            assert(spec_parse_pair(ts, pos) == Ok::<((Seq<char>, ValueV), nat), ParseError>(
                ((k, v), (2 + lv) as nat),
            ));
            assert(!(pos + (2 + lv) < ts.len() && ts[pos + 2 + lv] is Comma));
            assert(spec_parse_members(ts, pos) == Ok::<(MembersV, nat), ParseError>(
                (MembersV::Pair(k, v), (2 + lv) as nat),
            ));
        },
        MembersV::Pairs(k, v, rest) => {
            let rv = value_token_seq(v);
            let lv = rv.len() as int;
            let rr = members_token_seq(*rest);
            let lr = rr.len() as int;
            lemma_value_token_seq_first(v);
            assert(r[0] == TokenV::String(k));
            assert(r[1] == TokenV::Colon);
            lemma_window_index(ts, pos, r, 0);
            lemma_window_index(ts, pos, r, 1);
            lemma_window_subrange(ts, pos, r, 2, 2 + lv);
            assert(r.subrange(2, 2 + lv) =~= rv);
            lemma_parse_value_exact(ts, pos + 2, v);
            assert(r[2 + lv] == TokenV::Comma);
            lemma_window_index(ts, pos, r, 2 + lv);
            lemma_window_subrange(ts, pos, r, 3 + lv, 3 + lv + lr);
            assert(r.subrange(3 + lv, 3 + lv + lr) =~= rr);
            lemma_parse_members_exact(ts, pos + 3 + lv, *rest);
        },
    }
}

/// Parsing a value rendering embedded in a larger token sequence succeeds
/// and reproduces the value exactly.
pub proof fn lemma_parse_value_exact(ts: Seq<TokenV>, pos: int, v: ValueV)
    requires
        0 <= pos,
        pos + value_token_seq(v).len() <= ts.len(),
        ts.subrange(pos, pos + value_token_seq(v).len() as int) == value_token_seq(v),
    ensures
        spec_parse_value(ts, pos) == Ok::<(ValueV, nat), ParseError>(
            (v, value_token_seq(v).len() as nat),
        ),
    decreases v, 2int,
{
    let r = value_token_seq(v);
    lemma_value_token_seq_first(v);
    lemma_window_index(ts, pos, r, 0);
    match v {
        ValueV::Object(o) => {
            match o {
                ObjectV::Empty => {},
                ObjectV::Nonempty(_) => {},
            }
            assert(r[0] == TokenV::ObjectStart);
            lemma_parse_object_exact(ts, pos, o);
        },
        ValueV::Array(a) => {
            match a {
                ArrayV::Empty => {},
                ArrayV::Nonempty(_) => {},
            }
            assert(r[0] == TokenV::ArrayStart);
            lemma_parse_array_exact(ts, pos, a);
        },
        _ => {},
    }
}

/// Parsing an array rendering embedded in a larger token sequence
/// succeeds and reproduces the tree exactly.
pub proof fn lemma_parse_array_exact(ts: Seq<TokenV>, pos: int, a: ArrayV)
    requires
        0 <= pos,
        pos + array_token_seq(a).len() <= ts.len(),
        ts.subrange(pos, pos + array_token_seq(a).len() as int) == array_token_seq(a),
    ensures
        spec_parse_array(ts, pos) == Ok::<(ArrayV, nat), ParseError>(
            (a, array_token_seq(a).len() as nat),
        ),
    decreases a, 0int,
{
    let r = array_token_seq(a);
    match a {
        ArrayV::Empty => {
            lemma_window_index(ts, pos, r, 0);
            lemma_window_index(ts, pos, r, 1);
        },
        ArrayV::Nonempty(e) => {
            let re = elements_token_seq(*e);
            let le = re.len() as int;
            lemma_window_index(ts, pos, r, 0);
            assert(r[0] == TokenV::ArrayStart);
            match *e {
                ElementsV::Single(v) => {
                    lemma_value_token_seq_first(v);
                    assert(re[0] == value_token_seq(v)[0]);
                },
                ElementsV::Many(v, rest) => {
                    lemma_value_token_seq_first(v);
                    assert(re[0] == value_token_seq(v)[0]);
                },
            }
            assert(r[1] == re[0]);
            lemma_window_index(ts, pos, r, 1);
            lemma_window_subrange(ts, pos, r, 1, 1 + le);
            assert(r.subrange(1, 1 + le) =~= re);
            assert(r[1 + le] == TokenV::ArrayEnd);
            lemma_window_index(ts, pos, r, 1 + le);
            lemma_parse_elements_exact(ts, pos + 1, *e);
        },
    }
}

/// Parsing an element-chain rendering embedded in a larger token
/// sequence, with no comma immediately after it, succeeds and reproduces
/// the chain exactly: the same values, in the same source order.
pub proof fn lemma_parse_elements_exact(ts: Seq<TokenV>, pos: int, e: ElementsV)
    requires
        0 <= pos,
        pos + elements_token_seq(e).len() <= ts.len(),
        ts.subrange(pos, pos + elements_token_seq(e).len() as int) == elements_token_seq(e),
        pos + elements_token_seq(e).len() == ts.len() || ts[pos + elements_token_seq(e).len()]
            !is Comma,
    ensures
        spec_parse_elements(ts, pos) == Ok::<(ElementsV, nat), ParseError>(
            (e, elements_token_seq(e).len() as nat),
        ),
    decreases e, 1int,
{
    let r = elements_token_seq(e);
    match e {
        ElementsV::Single(v) => {
            lemma_parse_value_exact(ts, pos, v);
        },
        ElementsV::Many(v, rest) => {
            let rv = value_token_seq(v);
            let lv = rv.len() as int;
            let rr = elements_token_seq(*rest);
            let lr = rr.len() as int;
            lemma_value_token_seq_first(v);
            lemma_window_subrange(ts, pos, r, 0, lv);
            assert(r.subrange(0, lv) =~= rv);
            assert(ts.subrange(pos, pos + lv) == rv);
            lemma_parse_value_exact(ts, pos, v);
            assert(r[lv] == TokenV::Comma);
            lemma_window_index(ts, pos, r, lv);
            lemma_window_subrange(ts, pos, r, 1 + lv, 1 + lv + lr);
            assert(r.subrange(1 + lv, 1 + lv + lr) =~= rr);
            lemma_parse_elements_exact(ts, pos + 1 + lv, *rest);
        },
    }
}

/// Law: the parser inverts the token rendering of every tree.  For every
/// object tree `o`, parsing the token sequence that denotes `o` consumes
/// it whole and yields `o` itself — so the parsed member chains hold
/// exactly the source pairs, as many as the source has and in source
/// order, and the same holds of every nested array and object.
pub proof fn lemma_parse_round_trip(o: ObjectV)
    ensures
        spec_parse_object(object_token_seq(o), 0) == Ok::<(ObjectV, nat), ParseError>(
            (o, object_token_seq(o).len() as nat),
        ),
{
    let r = object_token_seq(o);
    assert(r.subrange(0, r.len() as int) =~= r);
    lemma_parse_object_exact(r, 0, o);
}


/// Whether an object tree has a canonical document text: every string is
/// quote-free, every integer non-negative, and every float's whole part
/// non-zero ([`crate::lex::lexable_token`] explains each bound).
pub open spec fn wf_object(o: ObjectV) -> bool
    decreases o,
{
    match o {
        ObjectV::Empty => true,
        ObjectV::Nonempty(m) => wf_members(*m),
    }
}

/// Well-formedness of a member chain: see [`wf_object`].
pub open spec fn wf_members(m: MembersV) -> bool
    decreases m,
{
    match m {
        MembersV::Pair(k, v) => quote_free(k) && wf_value(v),
        MembersV::Pairs(k, v, rest) => quote_free(k) && wf_value(v) && wf_members(*rest),
    }
}

/// Well-formedness of an array tree: see [`wf_object`].
pub open spec fn wf_array(a: ArrayV) -> bool
    decreases a,
{
    match a {
        ArrayV::Empty => true,
        ArrayV::Nonempty(e) => wf_elements(*e),
    }
}

/// Well-formedness of an element chain: see [`wf_object`].
pub open spec fn wf_elements(e: ElementsV) -> bool
    decreases e,
{
    match e {
        ElementsV::Single(v) => wf_value(v),
        ElementsV::Many(v, rest) => wf_value(v) && wf_elements(*rest),
    }
}

/// Well-formedness of a value: see [`wf_object`].
pub open spec fn wf_value(v: ValueV) -> bool
    decreases v,
{
    match v {
        ValueV::String(s) => quote_free(s),
        ValueV::Number(JSONNumber::Integer(i)) => 0 <= i,
        ValueV::Number(JSONNumber::Float(w, f)) => 1 <= w && 0 <= f,
        ValueV::Object(o) => wf_object(o),
        ValueV::Array(a) => wf_array(a),
        _ => true,
    }
}

/// The token rendering of a well-formed object consists of lexable
/// tokens, with no numeric literal followed by a token that could extend
/// it.
pub proof fn lemma_object_tokens_lexable(o: ObjectV)
    requires
        wf_object(o),
    ensures
        forall|i: int|
            0 <= i < object_token_seq(o).len() ==> lexable_token(
                #[trigger] object_token_seq(o)[i],
            ),
        well_separated(object_token_seq(o)),
    decreases o, 0int,
{
    let r = object_token_seq(o);
    match o {
        ObjectV::Empty => {
            assert(r[0] == TokenV::ObjectStart);
            assert(r[1] == TokenV::ObjectEnd);
        },
        ObjectV::Nonempty(m) => {
            let rm = members_token_seq(*m);
            let lm = rm.len() as int;
            lemma_members_tokens_lexable(*m);
            assert forall|i: int| 0 <= i < r.len() implies lexable_token(#[trigger] r[i]) by {
                if i == 0 {
                    assert(r[i] == TokenV::ObjectStart);
                } else if i <= lm {
                    assert(r[i] == rm[i - 1]);
                } else {
                    assert(r[i] == TokenV::ObjectEnd);
                }
            }
            assert forall|i: int|
                0 <= i < r.len() - 1 && ((#[trigger] r[i]) is Integer
                    || r[i] is Float) implies sep_after_number(r[i + 1]) by {
                assert(r[0] == TokenV::ObjectStart);
                assert(1 <= i <= lm);
                assert(r[i] == rm[i - 1]);
                if i < lm {
                    assert(r[i + 1] == rm[i]);
                    assert(sep_after_number(rm[(i - 1) + 1]));
                } else {
                    assert(r[i + 1] == TokenV::ObjectEnd);
                    assert(token_text(TokenV::ObjectEnd)[0] == '}');
                }
            }
        },
    }
}

/// The token rendering of a well-formed member chain consists of lexable
/// tokens, with no numeric literal followed by a token that could extend
/// it.
pub proof fn lemma_members_tokens_lexable(m: MembersV)
    requires
        wf_members(m),
    ensures
        forall|i: int|
            0 <= i < members_token_seq(m).len() ==> lexable_token(
                #[trigger] members_token_seq(m)[i],
            ),
        well_separated(members_token_seq(m)),
    decreases m, 1int,
{
    let r = members_token_seq(m);
    match m {
        MembersV::Pair(k, v) => {
            let rv = value_token_seq(v);
            let lv = rv.len() as int;
            lemma_value_tokens_lexable(v);
            assert forall|i: int| 0 <= i < r.len() implies lexable_token(#[trigger] r[i]) by {
                if i == 0 {
                    assert(r[i] == TokenV::String(k));
                } else if i == 1 {
                    assert(r[i] == TokenV::Colon);
                } else {
                    assert(r[i] == rv[i - 2]);
                }
            }
            assert forall|i: int|
                0 <= i < r.len() - 1 && ((#[trigger] r[i]) is Integer
                    || r[i] is Float) implies sep_after_number(r[i + 1]) by {
                assert(r[0] == TokenV::String(k));
                assert(r[1] == TokenV::Colon);
                assert(2 <= i);
                assert(r[i] == rv[i - 2]);
                assert(r[i + 1] == rv[i - 1]);
                assert(sep_after_number(rv[(i - 2) + 1]));
            }
        },
        MembersV::Pairs(k, v, rest) => {
            let rv = value_token_seq(v);
            let lv = rv.len() as int;
            let rr = members_token_seq(*rest);
            let lr = rr.len() as int;
            lemma_value_tokens_lexable(v);
            lemma_members_tokens_lexable(*rest);
            assert forall|i: int| 0 <= i < r.len() implies lexable_token(#[trigger] r[i]) by {
                if i == 0 {
                    assert(r[i] == TokenV::String(k));
                } else if i == 1 {
                    assert(r[i] == TokenV::Colon);
                } else if i < 2 + lv {
                    assert(r[i] == rv[i - 2]);
                } else if i == 2 + lv {
                    assert(r[i] == TokenV::Comma);
                } else {
                    assert(r[i] == rr[i - 3 - lv]);
                }
            }
            assert forall|i: int|
                0 <= i < r.len() - 1 && ((#[trigger] r[i]) is Integer
                    || r[i] is Float) implies sep_after_number(r[i + 1]) by {
                assert(r[0] == TokenV::String(k));
                assert(r[1] == TokenV::Colon);
                assert(2 <= i);
                if i < 1 + lv {
                    assert(r[i] == rv[i - 2]);
                    assert(r[i + 1] == rv[i - 1]);
                    assert(sep_after_number(rv[(i - 2) + 1]));
                } else if i == 1 + lv {
                    assert(r[i + 1] == TokenV::Comma);
                    assert(token_text(TokenV::Comma)[0] == ',');
                } else if i == 2 + lv {
                    assert(r[i] == TokenV::Comma);
                } else {
                    assert(r[i] == rr[i - 3 - lv]);
                    if i + 1 < r.len() {
                        assert(r[i + 1] == rr[i - 2 - lv]);
                        assert(sep_after_number(rr[(i - 3 - lv) + 1]));
                    }
                }
            }
        },
    }
}

/// The token rendering of a well-formed value consists of lexable
/// tokens, with no numeric literal followed by a token that could extend
/// it.
pub proof fn lemma_value_tokens_lexable(v: ValueV)
    requires
        wf_value(v),
    ensures
        forall|i: int|
            0 <= i < value_token_seq(v).len() ==> lexable_token(#[trigger] value_token_seq(v)[i]),
        well_separated(value_token_seq(v)),
    decreases v, 2int,
{
    let r = value_token_seq(v);
    match v {
        ValueV::Object(o) => {
            lemma_object_tokens_lexable(o);
        },
        ValueV::Array(a) => {
            lemma_array_tokens_lexable(a);
        },
        _ => {
            assert(r.len() == 1);
        },
    }
}

/// The token rendering of a well-formed array consists of lexable
/// tokens, with no numeric literal followed by a token that could extend
/// it.
pub proof fn lemma_array_tokens_lexable(a: ArrayV)
    requires
        wf_array(a),
    ensures
        forall|i: int|
            0 <= i < array_token_seq(a).len() ==> lexable_token(#[trigger] array_token_seq(a)[i]),
        well_separated(array_token_seq(a)),
    decreases a, 0int,
{
    let r = array_token_seq(a);
    match a {
        ArrayV::Empty => {
            assert(r[0] == TokenV::ArrayStart);
            assert(r[1] == TokenV::ArrayEnd);
        },
        ArrayV::Nonempty(e) => {
            let re = elements_token_seq(*e);
            let le = re.len() as int;
            lemma_elements_tokens_lexable(*e);
            assert forall|i: int| 0 <= i < r.len() implies lexable_token(#[trigger] r[i]) by {
                if i == 0 {
                    assert(r[i] == TokenV::ArrayStart);
                } else if i <= le {
                    assert(r[i] == re[i - 1]);
                } else {
                    assert(r[i] == TokenV::ArrayEnd);
                }
            }
            assert forall|i: int|
                0 <= i < r.len() - 1 && ((#[trigger] r[i]) is Integer
                    || r[i] is Float) implies sep_after_number(r[i + 1]) by {
                assert(r[0] == TokenV::ArrayStart);
                assert(1 <= i <= le);
                assert(r[i] == re[i - 1]);
                if i < le {
                    assert(r[i + 1] == re[i]);
                    assert(sep_after_number(re[(i - 1) + 1]));
                } else {
                    assert(r[i + 1] == TokenV::ArrayEnd);
                    assert(token_text(TokenV::ArrayEnd)[0] == ']');
                }
            }
        },
    }
}

/// The token rendering of a well-formed element chain consists of
/// lexable tokens, with no numeric literal followed by a token that
/// could extend it.
pub proof fn lemma_elements_tokens_lexable(e: ElementsV)
    requires
        wf_elements(e),
    ensures
        forall|i: int|
            0 <= i < elements_token_seq(e).len() ==> lexable_token(
                #[trigger] elements_token_seq(e)[i],
            ),
        well_separated(elements_token_seq(e)),
    decreases e, 1int,
{
    let r = elements_token_seq(e);
    match e {
        ElementsV::Single(v) => {
            lemma_value_tokens_lexable(v);
        },
        ElementsV::Many(v, rest) => {
            let rv = value_token_seq(v);
            let lv = rv.len() as int;
            let rr = elements_token_seq(*rest);
            let lr = rr.len() as int;
            lemma_value_tokens_lexable(v);
            lemma_elements_tokens_lexable(*rest);
            assert forall|i: int| 0 <= i < r.len() implies lexable_token(#[trigger] r[i]) by {
                if i < lv {
                    assert(r[i] == rv[i]);
                } else if i == lv {
                    assert(r[i] == TokenV::Comma);
                } else {
                    assert(r[i] == rr[i - 1 - lv]);
                }
            }
            assert forall|i: int|
                0 <= i < r.len() - 1 && ((#[trigger] r[i]) is Integer
                    || r[i] is Float) implies sep_after_number(r[i + 1]) by {
                if i < lv - 1 {
                    assert(r[i] == rv[i]);
                    assert(r[i + 1] == rv[i + 1]);
                    assert(sep_after_number(rv[i + 1]));
                } else if i == lv - 1 {
                    assert(r[i + 1] == TokenV::Comma);
                    assert(token_text(TokenV::Comma)[0] == ',');
                } else if i == lv {
                    assert(r[i] == TokenV::Comma);
                } else {
                    assert(r[i] == rr[i - 1 - lv]);
                    if i + 1 < r.len() {
                        assert(r[i + 1] == rr[i - lv]);
                        assert(sep_after_number(rr[(i - 1 - lv) + 1]));
                    }
                }
            }
        },
    }
}

/// Law: tokenizing then parsing reproduces the tree.  Every well-formed
/// object tree `o` has a canonical document text — its tokens rendered
/// one after another, without whitespace and without escapes.  Scanning
/// that text yields exactly the token rendering of `o`, and parsing
/// those tokens yields `o` itself: the member chains hold the source
/// pairs, as many as the source has, in source order.
pub proof fn lemma_document_round_trip(o: ObjectV)
    requires
        wf_object(o),
    ensures
        spec_lex(tokens_text(object_token_seq(o)), 0) == Ok::<Seq<TokenV>, LexError>(
            object_token_seq(o),
        ),
        spec_parse_object(object_token_seq(o), 0) == Ok::<(ObjectV, nat), ParseError>(
            (o, object_token_seq(o).len() as nat),
        ),
{
    let tvs = object_token_seq(o);
    let text = tokens_text(tvs);
    lemma_object_tokens_lexable(o);
    assert(text.subrange(0, text.len() as int) =~= text);
    lemma_spec_lex_of_tokens(text, 0, tvs);
    lemma_parse_round_trip(o);
}

/// Parses the object production at the cursor, per [`spec_parse_object`]:
/// requires an object-open token; an immediately following object-close
/// yields the empty object; otherwise a member chain must follow, closed
/// by object-close.
pub fn parse_object(tokens: &Vec<Token>, pos: &mut usize) -> (r: Result<Object, ParseError>)
    requires
        *old(pos) <= tokens@.len(),
    ensures
        *old(pos) <= *final(pos) <= tokens@.len(),
        match r {
            Ok(o) => spec_parse_object(token_views(tokens@), *old(pos) as int) matches Ok((ov, n))
                && ov == o@ && *final(pos) == *old(pos) + n,
            Err(e) => spec_parse_object(token_views(tokens@), *old(pos) as int) == Err::<
                (ObjectV, nat),
                ParseError,
            >(e),
        },
    decreases tokens@.len() - *old(pos), 0int,
{
    let n = tokens.len();
    if *pos >= n {
        return Err(ParseError::ExpectedToken);
    }
    match &tokens[*pos] {
        Token::ObjectStart => {},
        _ => {
            return Err(ParseError::ExpectedToken);
        },
    }
    *pos += 1;
    if *pos < n {
        match &tokens[*pos] {
            Token::ObjectEnd => {
                *pos += 1;
                return Ok(Object::Empty);
            },
            _ => {},
        }
    }
    match parse_members(tokens, pos) {
        Err(e) => Err(e),
        Ok(members) => {
            if *pos < n {
                match &tokens[*pos] {
                    Token::ObjectEnd => {
                        *pos += 1;
                        return Ok(Object::Nonempty(Box::new(members)));
                    },
                    _ => {},
                }
            }
            Err(ParseError::ExpectedToken)
        },
    }
}

/// Parses the member-chain production at the cursor, per
/// [`spec_parse_members`].
fn parse_members(tokens: &Vec<Token>, pos: &mut usize) -> (r: Result<Members, ParseError>)
    requires
        *old(pos) <= tokens@.len(),
    ensures
        *old(pos) <= *final(pos) <= tokens@.len(),
        match r {
            Ok(m) => spec_parse_members(token_views(tokens@), *old(pos) as int) matches Ok(
                (mv, n),
            ) && mv == m@ && *final(pos) == *old(pos) + n,
            Err(e) => spec_parse_members(token_views(tokens@), *old(pos) as int) == Err::<
                (MembersV, nat),
                ParseError,
            >(e),
        },
    decreases tokens@.len() - *old(pos), 3int,
{
    match parse_pair(tokens, pos) {
        Err(e) => Err(e),
        Ok((key, value)) => {
            if *pos < tokens.len() {
                match &tokens[*pos] {
                    Token::Comma => {
                        *pos += 1;
                        return match parse_members(tokens, pos) {
                            Err(e) => Err(e),
                            Ok(rest) => Ok(Members::Pairs(key, value, Box::new(rest))),
                        };
                    },
                    _ => {},
                }
            }
            Ok(Members::Pair(key, value))
        },
    }
}

/// Parses the pair production at the cursor, per [`spec_parse_pair`]: a
/// string key, a colon, then a value.
fn parse_pair(tokens: &Vec<Token>, pos: &mut usize) -> (r: Result<(String, Value), ParseError>)
    requires
        *old(pos) <= tokens@.len(),
    ensures
        *old(pos) <= *final(pos) <= tokens@.len(),
        match r {
            Ok(kv) => spec_parse_pair(token_views(tokens@), *old(pos) as int) matches Ok(
                (kvv, n),
            ) && kvv.0 == kv.0@ && kvv.1 == kv.1@ && *final(pos) == *old(pos) + n,
            Err(e) => spec_parse_pair(token_views(tokens@), *old(pos) as int) == Err::<
                ((Seq<char>, ValueV), nat),
                ParseError,
            >(e),
        },
    decreases tokens@.len() - *old(pos), 2int,
{
    let n = tokens.len();
    if n - *pos >= 2 {
        match (&tokens[*pos], &tokens[*pos + 1]) {
            (Token::String(key), Token::Colon) => {
                let key = key.clone();
                *pos += 2;
                match parse_value(tokens, pos) {
                    Err(e) => Err(e),
                    Ok(value) => Ok((key, value)),
                }
            },
            _ => Err(ParseError::ExpectedToken),
        }
    } else {
        Err(ParseError::ExpectedToken)
    }
}

/// Parses the value production at the cursor, per [`spec_parse_value`]:
/// a one-token literal value, or a nested object or array.
pub fn parse_value(tokens: &Vec<Token>, pos: &mut usize) -> (r: Result<Value, ParseError>)
    requires
        *old(pos) <= tokens@.len(),
    ensures
        *old(pos) <= *final(pos) <= tokens@.len(),
        match r {
            Ok(v) => spec_parse_value(token_views(tokens@), *old(pos) as int) matches Ok((vv, n))
                && vv == v@ && *final(pos) == *old(pos) + n,
            Err(e) => spec_parse_value(token_views(tokens@), *old(pos) as int) == Err::<
                (ValueV, nat),
                ParseError,
            >(e),
        },
    decreases tokens@.len() - *old(pos), 1int,
{
    if *pos >= tokens.len() {
        return Err(ParseError::ExpectedToken);
    }
    match &tokens[*pos] {
        Token::String(s) => {
            let s = s.clone();
            *pos += 1;
            Ok(Value::String(s))
        },
        Token::Integer(i) => {
            let v = *i;
            *pos += 1;
            Ok(Value::Number(JSONNumber::Integer(v)))
        },
        Token::Float(w, f) => {
            let w = *w;
            let f = *f;
            *pos += 1;
            Ok(Value::Number(JSONNumber::Float(w, f)))
        },
        Token::True => {
            *pos += 1;
            Ok(Value::True)
        },
        Token::False => {
            *pos += 1;
            Ok(Value::False)
        },
        Token::Null => {
            *pos += 1;
            Ok(Value::Null)
        },
        Token::ObjectStart => match parse_object(tokens, pos) {
            Err(e) => Err(e),
            Ok(o) => Ok(Value::Object(o)),
        },
        Token::ArrayStart => match parse_array(tokens, pos) {
            Err(e) => Err(e),
            Ok(a) => Ok(Value::Array(a)),
        },
        _ => Err(ParseError::ExpectedToken),
    }
}

/// Parses the array production at the cursor, per [`spec_parse_array`]:
/// symmetric to the object production, with array delimiters and values
/// in place of pairs.
fn parse_array(tokens: &Vec<Token>, pos: &mut usize) -> (r: Result<Array, ParseError>)
    requires
        *old(pos) <= tokens@.len(),
    ensures
        *old(pos) <= *final(pos) <= tokens@.len(),
        match r {
            Ok(a) => spec_parse_array(token_views(tokens@), *old(pos) as int) matches Ok((av, n))
                && av == a@ && *final(pos) == *old(pos) + n,
            Err(e) => spec_parse_array(token_views(tokens@), *old(pos) as int) == Err::<
                (ArrayV, nat),
                ParseError,
            >(e),
        },
    decreases tokens@.len() - *old(pos), 0int,
{
    let n = tokens.len();
    if *pos >= n {
        return Err(ParseError::ExpectedToken);
    }
    match &tokens[*pos] {
        Token::ArrayStart => {},
        _ => {
            return Err(ParseError::ExpectedToken);
        },
    }
    *pos += 1;
    if *pos < n {
        match &tokens[*pos] {
            Token::ArrayEnd => {
                *pos += 1;
                return Ok(Array::Empty);
            },
            _ => {},
        }
    }
    match parse_elements(tokens, pos) {
        Err(e) => Err(e),
        Ok(elements) => {
            if *pos < n {
                match &tokens[*pos] {
                    Token::ArrayEnd => {
                        *pos += 1;
                        return Ok(Array::Nonempty(Box::new(elements)));
                    },
                    _ => {},
                }
            }
            Err(ParseError::ExpectedToken)
        },
    }
}

/// Parses the element-chain production at the cursor, per
/// [`spec_parse_elements`].
fn parse_elements(tokens: &Vec<Token>, pos: &mut usize) -> (r: Result<Elements, ParseError>)
    requires
        *old(pos) <= tokens@.len(),
    ensures
        *old(pos) <= *final(pos) <= tokens@.len(),
        match r {
            Ok(es) => spec_parse_elements(token_views(tokens@), *old(pos) as int) matches Ok(
                (ev, n),
            ) && ev == es@ && *final(pos) == *old(pos) + n,
            Err(e) => spec_parse_elements(token_views(tokens@), *old(pos) as int) == Err::<
                (ElementsV, nat),
                ParseError,
            >(e),
        },
    decreases tokens@.len() - *old(pos), 3int,
{
    match parse_value(tokens, pos) {
        Err(e) => Err(e),
        Ok(value) => {
            if *pos < tokens.len() {
                match &tokens[*pos] {
                    Token::Comma => {
                        *pos += 1;
                        return match parse_elements(tokens, pos) {
                            Err(e) => Err(e),
                            Ok(rest) => Ok(Elements::Many(value, Box::new(rest))),
                        };
                    },
                    _ => {},
                }
            }
            Ok(Elements::Single(value))
        },
    }
}

} // verus!
