//! Tokenizer: scans the input text once, left to right, producing an
//! ordered token sequence or failing at the first unrecognized lexeme.
//!
//! The mathematical model of tokenization is [`spec_lex`]: a recursive
//! specification that maps a character sequence and a cursor to either the
//! token sequence of the remaining input or a [`LexError`].  The executable
//! lexer is proved to return exactly what [`spec_lex`] says.

use vstd::prelude::*;
use vstd::string::StrSliceExecFns;

verus! {

/// One indivisible lexical unit produced by the tokenizer.
///
/// A floating-point literal is kept as its two decimal digit runs, each
/// decoded as an `i32`: `Float(w, f)` stands for the literal `w.f`
/// (so `1.5` is `Float(1, 5)`).  Turning the pair into a machine float is
/// the embedder's concern; the tree keeps the exact syntactic split that
/// the tokenizer made.
#[derive(Debug, PartialEq)]
pub enum Token {
    ObjectStart,
    ObjectEnd,
    ArrayStart,
    ArrayEnd,
    True,
    False,
    Null,
    Comma,
    Colon,
    Whitespace,
    Integer(i32),
    Float(i32, i32),
    String(String),
    /// Internal end-of-input sentinel; it ends the scan loop and is never
    /// part of the token sequence handed to the parser.
    NoMoreTokens,
}

/// The mathematical value of a [`Token`]: the same tag, with the string
/// payload abstracted to its character sequence.
pub ghost enum TokenV {
    ObjectStart,
    ObjectEnd,
    ArrayStart,
    ArrayEnd,
    True,
    False,
    Null,
    Comma,
    Colon,
    Whitespace,
    Integer(i32),
    Float(i32, i32),
    String(Seq<char>),
    NoMoreTokens,
}

impl View for Token {
    type V = TokenV;

    open spec fn view(&self) -> TokenV {
        match self {
            Token::ObjectStart => TokenV::ObjectStart,
            Token::ObjectEnd => TokenV::ObjectEnd,
            Token::ArrayStart => TokenV::ArrayStart,
            Token::ArrayEnd => TokenV::ArrayEnd,
            Token::True => TokenV::True,
            Token::False => TokenV::False,
            Token::Null => TokenV::Null,
            Token::Comma => TokenV::Comma,
            Token::Colon => TokenV::Colon,
            Token::Whitespace => TokenV::Whitespace,
            Token::Integer(n) => TokenV::Integer(*n),
            Token::Float(w, f) => TokenV::Float(*w, *f),
            Token::String(s) => TokenV::String(s@),
            Token::NoMoreTokens => TokenV::NoMoreTokens,
        }
    }
}

/// The mathematical value of a token sequence.
pub open spec fn token_views(ts: Seq<Token>) -> Seq<TokenV> {
    ts.map_values(|t: Token| t@)
}

/// The tokenizer's one error kind: some prefix of the remaining input is
/// not a token.
#[derive(Debug, PartialEq)]
pub enum LexError {
    InvalidToken,
}

/// Whether `c` is a decimal digit.
pub open spec fn is_digit(c: char) -> bool {
    '0' as int <= c as int && c as int <= '9' as int
}

/// The numeric value of a decimal digit character.
pub open spec fn digit_val(c: char) -> int {
    c as int - '0' as int
}

/// Whether `c` is one of the four whitespace characters the tokenizer
/// recognizes.
pub open spec fn is_whitespace_char(c: char) -> bool {
    c == '\n' || c == '\t' || c == '\r' || c == ' '
}

/// Length of the run of consecutive decimal digits starting at `pos`.
pub open spec fn digit_run_len(s: Seq<char>, pos: int) -> nat
    decreases s.len() - pos,
{
    if 0 <= pos < s.len() && is_digit(s[pos]) {
        (1 + digit_run_len(s, pos + 1)) as nat
    } else {
        0
    }
}

/// The decimal value of the digit characters `s[pos..end]`.
pub open spec fn digit_run_val(s: Seq<char>, pos: int, end: int) -> int
    decreases end - pos,
{
    if pos < end {
        digit_run_val(s, pos, end - 1) * 10 + digit_val(s[end - 1])
    } else {
        0
    }
}

/// Whether every character of `s[i..j]` is a decimal digit.
pub open spec fn all_digits(s: Seq<char>, i: int, j: int) -> bool {
    forall|k: int| i <= k < j ==> is_digit(#[trigger] s[k])
}

/// A digit run scanned at `pos`: its decoded value and the count of
/// characters it covers.  The run must be non-empty, and a run whose value
/// does not fit in an `i32` is rejected as an invalid token.
pub open spec fn spec_lex_digits(s: Seq<char>, pos: int) -> Result<(i32, nat), LexError> {
    let n = digit_run_len(s, pos);
    if n == 0 {
        Err(LexError::InvalidToken)
    } else {
        let v = digit_run_val(s, pos, pos + n);
        if v > i32::MAX {
            Err(LexError::InvalidToken)
        } else {
            Ok((v as i32, n))
        }
    }
}

/// A number scanned at `pos`: an integer digit run, optionally followed by
/// a decimal point and a fractional digit run.
pub open spec fn spec_lex_number(s: Seq<char>, pos: int) -> Result<(TokenV, nat), LexError> {
    match spec_lex_digits(s, pos) {
        Err(e) => Err(e),
        Ok((whole, n1)) => {
            if pos + n1 < s.len() && s[pos + n1] == '.' {
                match spec_lex_digits(s, pos + n1 + 1) {
                    Err(e) => Err(e),
                    Ok((frac, n2)) => Ok((TokenV::Float(whole, frac), (n1 + 1 + n2) as nat)),
                }
            } else {
                Ok((TokenV::Integer(whole), n1))
            }
        },
    }
}

/// The body of a string literal scanned from `pos` (just past the opening
/// quote): the characters up to the next `"`, copied verbatim, and the
/// count of characters consumed including that closing quote.  Reaching
/// end of input first is an error (unterminated string).
pub open spec fn spec_lex_string_body(s: Seq<char>, pos: int) -> Result<(Seq<char>, nat), LexError>
    decreases s.len() - pos,
{
    if !(0 <= pos < s.len()) {
        Err(LexError::InvalidToken)
    } else if s[pos] == '"' {
        Ok((Seq::empty(), 1))
    } else {
        match spec_lex_string_body(s, pos + 1) {
            Err(e) => Err(e),
            Ok((content, n)) => Ok((seq![s[pos]] + content, (1 + n) as nat)),
        }
    }
}

/// The exact spelling of the `true` literal.
pub open spec fn true_chars() -> Seq<char> {
    seq!['t', 'r', 'u', 'e']
}

/// The exact spelling of the `false` literal.
pub open spec fn false_chars() -> Seq<char> {
    seq!['f', 'a', 'l', 's', 'e']
}

/// The exact spelling of the `null` literal.
pub open spec fn null_chars() -> Seq<char> {
    seq!['n', 'u', 'l', 'l']
}

/// Whether `word` occurs in `s` starting exactly at `pos`.
pub open spec fn matches_at(s: Seq<char>, pos: int, word: Seq<char>) -> bool {
    pos + word.len() <= s.len() && s.subrange(pos, pos + word.len() as int) == word
}

/// One step of the scan: the token beginning at `pos` and the count of
/// characters it consumes, or the error that aborts tokenization.  At end
/// of input the step yields the sentinel and consumes nothing.
pub open spec fn spec_next(s: Seq<char>, pos: int) -> Result<(TokenV, nat), LexError> {
    if !(0 <= pos < s.len()) {
        Ok((TokenV::NoMoreTokens, 0))
    } else {
        let c = s[pos];
        if c == '{' {
            Ok((TokenV::ObjectStart, 1))
        } else if c == '}' {
            Ok((TokenV::ObjectEnd, 1))
        } else if c == '[' {
            Ok((TokenV::ArrayStart, 1))
        } else if c == ']' {
            Ok((TokenV::ArrayEnd, 1))
        } else if c == ',' {
            Ok((TokenV::Comma, 1))
        } else if c == ':' {
            Ok((TokenV::Colon, 1))
        } else if c == '0' {
            Ok((TokenV::Integer(0), 1))
        } else if is_digit(c) {
            spec_lex_number(s, pos)
        } else if c == '"' {
            match spec_lex_string_body(s, pos + 1) {
                Err(e) => Err(e),
                Ok((content, n)) => Ok((TokenV::String(content), (1 + n) as nat)),
            }
        } else if c == 't' {
            if matches_at(s, pos, true_chars()) {
                Ok((TokenV::True, 4))
            } else {
                Err(LexError::InvalidToken)
            }
        } else if c == 'f' {
            if matches_at(s, pos, false_chars()) {
                Ok((TokenV::False, 5))
            } else {
                Err(LexError::InvalidToken)
            }
        } else if c == 'n' {
            if matches_at(s, pos, null_chars()) {
                Ok((TokenV::Null, 4))
            } else {
                Err(LexError::InvalidToken)
            }
        } else if is_whitespace_char(c) {
            Ok((TokenV::Whitespace, 1))
        } else {
            Err(LexError::InvalidToken)
        }
    }
}

/// The digit run starting at `pos` stays inside `s`, consists of digits
/// only, and stops at the first non-digit.
pub proof fn lemma_digit_run_len_facts(s: Seq<char>, pos: int)
    requires
        0 <= pos <= s.len(),
    ensures
        pos + digit_run_len(s, pos) <= s.len(),
        all_digits(s, pos, pos + digit_run_len(s, pos)),
        pos + digit_run_len(s, pos) == s.len() || !is_digit(s[pos + digit_run_len(s, pos)]),
    decreases s.len() - pos,
{
    if pos < s.len() && is_digit(s[pos]) {
        lemma_digit_run_len_facts(s, pos + 1);
    }
}

/// The value of an all-digit run is non-negative.
pub proof fn lemma_digit_run_val_nonneg(s: Seq<char>, pos: int, end: int)
    requires
        all_digits(s, pos, end),
    ensures
        digit_run_val(s, pos, end) >= 0,
    decreases end - pos,
{
    if pos < end {
        lemma_digit_run_val_nonneg(s, pos, end - 1);
    }
}

/// Extending an all-digit run never shrinks its value.
pub proof fn lemma_digit_run_val_mono(s: Seq<char>, pos: int, mid: int, end: int)
    requires
        pos <= mid <= end,
        all_digits(s, pos, end),
    ensures
        digit_run_val(s, pos, mid) <= digit_run_val(s, pos, end),
    decreases end - mid,
{
    if mid < end {
        lemma_digit_run_val_nonneg(s, pos, end - 1);
        lemma_digit_run_val_mono(s, pos, mid, end - 1);
    }
}

/// A successfully scanned string body stays inside `s`.
pub proof fn lemma_string_body_bounds(s: Seq<char>, pos: int)
    requires
        0 <= pos,
    ensures
        spec_lex_string_body(s, pos) matches Ok((content, n)) ==> 1 <= n && pos + n <= s.len(),
    decreases s.len() - pos,
{
    if 0 <= pos < s.len() && s[pos] != '"' {
        lemma_string_body_bounds(s, pos + 1);
    }
}

/// Every token the scan step yields, other than the sentinel, consumes at
/// least one character and stays inside `s`.
pub proof fn lemma_spec_next_bounds(s: Seq<char>, pos: int)
    requires
        0 <= pos,
    ensures
        spec_next(s, pos) matches Ok((t, n)) ==> {
            &&& (t is NoMoreTokens ==> n == 0)
            &&& (t !is NoMoreTokens ==> 1 <= n && pos + n <= s.len())
        },
{
    if pos < s.len() {
        let c = s[pos];
        if c != '{' && c != '}' && c != '[' && c != ']' && c != ',' && c != ':' && c != '0'
            && is_digit(c) {
            lemma_digit_run_len_facts(s, pos);
            if digit_run_len(s, pos) > 0 {
                let n1 = digit_run_len(s, pos) as int;
                if pos + n1 < s.len() && s[pos + n1] == '.' {
                    lemma_digit_run_len_facts(s, pos + n1 + 1);
                }
            }
        }
        if c == '"' {
            lemma_string_body_bounds(s, pos + 1);
        }
    }
}

/// The token sequence of the input from `pos` on, or the error at the
/// first invalid lexeme.  The end-of-input sentinel ends the scan without
/// being appended.
pub open spec fn spec_lex(s: Seq<char>, pos: int) -> Result<Seq<TokenV>, LexError>
    decreases s.len() - pos,
    when 0 <= pos
    via spec_lex_decreases
{
    match spec_next(s, pos) {
        Err(e) => Err(e),
        Ok((t, n)) => {
            if t is NoMoreTokens {
                Ok(Seq::empty())
            } else {
                match spec_lex(s, pos + n) {
                    Err(e) => Err(e),
                    Ok(rest) => Ok(seq![t] + rest),
                }
            }
        },
    }
}

#[via_fn]
proof fn spec_lex_decreases(s: Seq<char>, pos: int) {
    lemma_spec_next_bounds(s, pos);
}

/// Relies on `String::push`: it appends exactly the given character to
/// the end of the string.
#[verifier::external_body]
fn push_char(s: &mut String, c: char)
    ensures
        final(s)@ == old(s)@.push(c),
{
    s.push(c)
}

/// Decides [`is_digit`].
fn char_is_digit(c: char) -> (b: bool)
    ensures
        b == is_digit(c),
{
    let u = c as u32;
    48 <= u && u <= 57
}

/// Computes [`digit_val`].
fn char_digit_val(c: char) -> (d: u32)
    requires
        is_digit(c),
    ensures
        d as int == digit_val(c),
{
    c as u32 - 48
}

/// Scans the digit run at the cursor and decodes it, per
/// [`spec_lex_digits`].
#[verifier::loop_isolation(false)]
fn lex_digits(chars: &Vec<char>, pos: &mut usize) -> (r: Result<i32, LexError>)
    requires
        *old(pos) <= chars@.len(),
    ensures
        *old(pos) <= *final(pos) <= chars@.len(),
        match r {
            Ok(v) => spec_lex_digits(chars@, *old(pos) as int) == Ok::<(i32, nat), LexError>(
                (v, (*final(pos) - *old(pos)) as nat),
            ),
            Err(e) => spec_lex_digits(chars@, *old(pos) as int) == Err::<(i32, nat), LexError>(e),
        },
{
    let ghost s = chars@;
    let ghost start = *pos as int;
    proof {
        lemma_digit_run_len_facts(s, start);
    }
    let ghost n = digit_run_len(s, start);
    if *pos == chars.len() || !char_is_digit(chars[*pos]) {
        return Err(LexError::InvalidToken);
    }
    let mut val: i64 = 0;
    while *pos < chars.len() && char_is_digit(chars[*pos])
        invariant
            s == chars@,
            start <= *pos as int <= s.len(),
            all_digits(s, start, *pos as int),
            n == digit_run_len(s, start),
            n == (*pos as int - start) + digit_run_len(s, *pos as int),
            0 <= val <= i32::MAX,
            val == digit_run_val(s, start, *pos as int),
        decreases s.len() - *pos,
    {
        let c = chars[*pos];
        let d = char_digit_val(c);
        let next_val: i64 = val * 10 + (d as i64);
        proof {
            assert(digit_run_val(s, start, *pos + 1) == val * 10 + digit_val(c));
        }
        if next_val > (i32::MAX as i64) {
            proof {
                lemma_digit_run_val_mono(s, start, *pos + 1, start + n);
            }
            return Err(LexError::InvalidToken);
        }
        val = next_val;
        *pos += 1;
    }
    Ok(val as i32)
}

/// Scans the number at the cursor, per [`spec_lex_number`]: an integer
/// digit run, optionally followed by `.` and a fractional digit run.
fn lex_number(chars: &Vec<char>, pos: &mut usize) -> (r: Result<Token, LexError>)
    requires
        *old(pos) <= chars@.len(),
    ensures
        *old(pos) <= *final(pos) <= chars@.len(),
        match r {
            Ok(t) => spec_lex_number(chars@, *old(pos) as int) matches Ok((tv, n)) && tv == t@
                && *final(pos) == *old(pos) + n,
            Err(e) => spec_lex_number(chars@, *old(pos) as int) == Err::<(TokenV, nat), LexError>(
                e,
            ),
        },
{
    match lex_digits(chars, pos) {
        Err(e) => Err(e),
        Ok(whole) => {
            if *pos < chars.len() && chars[*pos] == '.' {
                *pos += 1;
                match lex_digits(chars, pos) {
                    Err(e) => Err(e),
                    Ok(frac) => Ok(Token::Float(whole, frac)),
                }
            } else {
                Ok(Token::Integer(whole))
            }
        },
    }
}

/// Scans the string literal at the cursor: characters are copied verbatim
/// (backslash sequences included) until the closing quote, per
/// [`spec_lex_string_body`].
#[verifier::loop_isolation(false)]
fn lex_string(chars: &Vec<char>, pos: &mut usize) -> (r: Result<Token, LexError>)
    requires
        *old(pos) < chars@.len(),
        chars@[*old(pos) as int] == '"',
    ensures
        *old(pos) <= *final(pos) <= chars@.len(),
        match r {
            Ok(t) => spec_lex_string_body(chars@, *old(pos) + 1) matches Ok((content, n))
                && t@ == TokenV::String(content) && *final(pos) == *old(pos) + 1 + n,
            Err(e) => spec_lex_string_body(chars@, *old(pos) + 1) == Err::<
                (Seq<char>, nat),
                LexError,
            >(e),
        },
{
    let ghost s = chars@;
    let ghost q0 = *pos + 1;
    let n = chars.len();
    let mut string = String::new();
    *pos += 1;
    while *pos < n && chars[*pos] != '"'
        invariant
            s == chars@,
            q0 <= *pos as int <= s.len(),
            string@.len() == *pos as int - q0,
            match spec_lex_string_body(s, *pos as int) {
                Ok((content, m)) => spec_lex_string_body(s, q0) == Ok::<
                    (Seq<char>, nat),
                    LexError,
                >((string@ + content, (*pos as int - q0 + m) as nat)),
                Err(e) => spec_lex_string_body(s, q0) == Err::<(Seq<char>, nat), LexError>(e),
            },
        decreases s.len() - *pos,
    {
        let ghost string0 = string@;
        let ghost p = *pos as int;
        push_char(&mut string, chars[*pos]);
        *pos += 1;
        proof {
            if let Ok((content, m)) = spec_lex_string_body(s, p + 1) {
                assert(string0 + (seq![s[p]] + content) =~= string0.push(s[p]) + content);
            }
        }
    }
    if *pos < chars.len() {
        proof {
            assert(string@ + Seq::<char>::empty() =~= string@);
        }
        *pos += 1;
        Ok(Token::String(string))
    } else {
        Err(LexError::InvalidToken)
    }
}

/// Matches the exact spelling `true` at the cursor.
fn lex_true(chars: &Vec<char>, pos: &mut usize) -> (r: Result<Token, LexError>)
    requires
        *old(pos) <= chars@.len(),
    ensures
        *old(pos) <= *final(pos) <= chars@.len(),
        match r {
            Ok(t) => t == Token::True && matches_at(chars@, *old(pos) as int, true_chars())
                && *final(pos) == *old(pos) + 4,
            Err(e) => e == LexError::InvalidToken && !matches_at(
                chars@,
                *old(pos) as int,
                true_chars(),
            ),
        },
{
    let ghost s = chars@;
    let ghost p = *pos as int;
    if chars.len() - *pos >= 4 && chars[*pos] == 't' && chars[*pos + 1] == 'r' && chars[*pos + 2]
        == 'u' && chars[*pos + 3] == 'e' {
        proof {
            assert(s.subrange(p, p + 4) =~= true_chars());
        }
        *pos += 4;
        Ok(Token::True)
    } else {
        proof {
            if matches_at(s, p, true_chars()) {
                assert(s.subrange(p, p + 4)[0] == s[p]);
                assert(s.subrange(p, p + 4)[1] == s[p + 1]);
                assert(s.subrange(p, p + 4)[2] == s[p + 2]);
                assert(s.subrange(p, p + 4)[3] == s[p + 3]);
            }
        }
        Err(LexError::InvalidToken)
    }
}

/// Matches the exact spelling `false` at the cursor.
fn lex_false(chars: &Vec<char>, pos: &mut usize) -> (r: Result<Token, LexError>)
    requires
        *old(pos) <= chars@.len(),
    ensures
        *old(pos) <= *final(pos) <= chars@.len(),
        match r {
            Ok(t) => t == Token::False && matches_at(chars@, *old(pos) as int, false_chars())
                && *final(pos) == *old(pos) + 5,
            Err(e) => e == LexError::InvalidToken && !matches_at(
                chars@,
                *old(pos) as int,
                false_chars(),
            ),
        },
{
    let ghost s = chars@;
    let ghost p = *pos as int;
    if chars.len() - *pos >= 5 && chars[*pos] == 'f' && chars[*pos + 1] == 'a' && chars[*pos + 2]
        == 'l' && chars[*pos + 3] == 's' && chars[*pos + 4] == 'e' {
        proof {
            assert(s.subrange(p, p + 5) =~= false_chars());
        }
        *pos += 5;
        Ok(Token::False)
    } else {
        proof {
            if matches_at(s, p, false_chars()) {
                assert(s.subrange(p, p + 5)[0] == s[p]);
                assert(s.subrange(p, p + 5)[1] == s[p + 1]);
                assert(s.subrange(p, p + 5)[2] == s[p + 2]);
                assert(s.subrange(p, p + 5)[3] == s[p + 3]);
                assert(s.subrange(p, p + 5)[4] == s[p + 4]);
            }
        }
        Err(LexError::InvalidToken)
    }
}

/// Matches the exact spelling `null` at the cursor.
fn lex_null(chars: &Vec<char>, pos: &mut usize) -> (r: Result<Token, LexError>)
    requires
        *old(pos) <= chars@.len(),
    ensures
        *old(pos) <= *final(pos) <= chars@.len(),
        match r {
            Ok(t) => t == Token::Null && matches_at(chars@, *old(pos) as int, null_chars())
                && *final(pos) == *old(pos) + 4,
            Err(e) => e == LexError::InvalidToken && !matches_at(
                chars@,
                *old(pos) as int,
                null_chars(),
            ),
        },
{
    let ghost s = chars@;
    let ghost p = *pos as int;
    if chars.len() - *pos >= 4 && chars[*pos] == 'n' && chars[*pos + 1] == 'u' && chars[*pos + 2]
        == 'l' && chars[*pos + 3] == 'l' {
        proof {
            assert(s.subrange(p, p + 4) =~= null_chars());
        }
        *pos += 4;
        Ok(Token::Null)
    } else {
        proof {
            if matches_at(s, p, null_chars()) {
                assert(s.subrange(p, p + 4)[0] == s[p]);
                assert(s.subrange(p, p + 4)[1] == s[p + 1]);
                assert(s.subrange(p, p + 4)[2] == s[p + 2]);
                assert(s.subrange(p, p + 4)[3] == s[p + 3]);
            }
        }
        Err(LexError::InvalidToken)
    }
}

/// One step of the scan: the token at the cursor, per [`spec_next`].
/// Dispatches on a single character of lookahead.
fn next(chars: &Vec<char>, pos: &mut usize) -> (r: Result<Token, LexError>)
    requires
        *old(pos) <= chars@.len(),
    ensures
        *old(pos) <= *final(pos) <= chars@.len(),
        match r {
            Ok(t) => spec_next(chars@, *old(pos) as int) matches Ok((tv, n)) && tv == t@
                && *final(pos) == *old(pos) + n,
            Err(e) => spec_next(chars@, *old(pos) as int) == Err::<(TokenV, nat), LexError>(e),
        },
{
    if *pos == chars.len() {
        return Ok(Token::NoMoreTokens);
    }
    let c = chars[*pos];
    if c == '{' {
        *pos += 1;
        Ok(Token::ObjectStart)
    } else if c == '}' {
        *pos += 1;
        Ok(Token::ObjectEnd)
    } else if c == '[' {
        *pos += 1;
        Ok(Token::ArrayStart)
    } else if c == ']' {
        *pos += 1;
        Ok(Token::ArrayEnd)
    } else if c == ',' {
        *pos += 1;
        Ok(Token::Comma)
    } else if c == ':' {
        *pos += 1;
        Ok(Token::Colon)
    } else if c == '0' {
        *pos += 1;
        Ok(Token::Integer(0))
    } else if char_is_digit(c) {
        lex_number(chars, pos)
    } else if c == '"' {
        lex_string(chars, pos)
    } else if c == 't' {
        lex_true(chars, pos)
    } else if c == 'f' {
        lex_false(chars, pos)
    } else if c == 'n' {
        lex_null(chars, pos)
    } else if c == '\n' || c == '\t' || c == '\r' || c == ' ' {
        *pos += 1;
        Ok(Token::Whitespace)
    } else {
        Err(LexError::InvalidToken)
    }
}

/// Appending a token to an already-scanned prefix, or passing an error
/// through.
pub open spec fn lex_join(
    prefix: Seq<TokenV>,
    r: Result<Seq<TokenV>, LexError>,
) -> Result<Seq<TokenV>, LexError> {
    match r {
        Ok(rest) => Ok(prefix + rest),
        Err(e) => Err(e),
    }
}

/// The tokenizer: it owns the character buffer of one input document.
#[derive(Debug)]
pub struct Lexer {
    pub chars: Vec<char>,
}

impl Lexer {
    /// Builds a tokenizer over the characters of `text`.
    #[verifier::loop_isolation(false)]
    pub fn new(text: &str) -> (r: Lexer)
        ensures
            r.chars@ == text@,
    {
        let n = text.unicode_len();
        let mut chars: Vec<char> = Vec::new();
        let mut i: usize = 0;
        while i < n
            invariant
                i <= n,
                n == text@.len(),
                chars@.len() == i,
                forall|j: int| 0 <= j < i ==> chars@[j] == text@[j],
            decreases n - i,
        {
            chars.push(text.get_char(i));
            i += 1;
        }
        proof {
            assert(chars@ =~= text@);
        }
        Lexer { chars }
    }

    /// Scans the whole input, producing the ordered token sequence that
    /// [`spec_lex`] assigns to it, or the lex error at the first invalid
    /// lexeme.
    #[verifier::loop_isolation(false)]
    pub fn lex(&mut self) -> (r: Result<Vec<Token>, LexError>)
        ensures
            final(self).chars@ == old(self).chars@,
            match r {
                Ok(tokens) => spec_lex(old(self).chars@, 0) == Ok::<Seq<TokenV>, LexError>(
                    token_views(tokens@),
                ),
                Err(e) => spec_lex(old(self).chars@, 0) == Err::<Seq<TokenV>, LexError>(e),
            },
    {
        let ghost s = self.chars@;
        let mut tokens: Vec<Token> = Vec::new();
        let mut pos: usize = 0;
        proof {
            assert(token_views(Seq::<Token>::empty()) =~= Seq::<TokenV>::empty());
            if let Ok(rest) = spec_lex(s, 0) {
                assert(Seq::<TokenV>::empty() + rest =~= rest);
            }
        }
        loop
            invariant
                self.chars@ == s,
                pos <= s.len(),
                spec_lex(s, 0) == lex_join(token_views(tokens@), spec_lex(s, pos as int)),
            decreases s.len() - pos,
        {
            let ghost p0 = pos as int;
            let ghost tv0 = token_views(tokens@);
            let step = next(&self.chars, &mut pos);
            match step {
                Ok(t) => {
                    match t {
                        Token::NoMoreTokens => {
                            proof {
                                assert(tv0 + Seq::<TokenV>::empty() =~= tv0);
                            }
                            return Ok(tokens);
                        },
                        _ => {
                            tokens.push(t);
                            proof {
                                assert(token_views(tokens@) =~= tv0.push(t@));
                                if let Ok(rest) = spec_lex(s, pos as int) {
                                    assert(tv0 + (seq![t@] + rest) =~= tv0.push(t@) + rest);
                                }
                            }
                        },
                    }
                },
                Err(e) => {
                    return Err(e);
                },
            }
        }
    }
}

/// A sequence with its whitespace tokens removed, in order.
pub open spec fn non_whitespace(ts: Seq<Token>) -> Seq<Token> {
    ts.filter(|t: Token| t@ !is Whitespace)
}

/// Appending one element to a sequence extends its whitespace-filtered
/// form by that element exactly when the element is not whitespace.
proof fn lemma_non_whitespace_push(ts: Seq<Token>, t: Token)
    ensures
        non_whitespace(ts.push(t)) == if t@ !is Whitespace {
            non_whitespace(ts).push(t)
        } else {
            non_whitespace(ts)
        },
{
    reveal(Seq::filter);
    assert(ts.push(t).drop_last() =~= ts);
}

/// Removes the whitespace tokens, keeping every other token in order.
/// The result is the sequence the parser consumes.
#[verifier::loop_isolation(false)]
pub fn remove_whitespace(tokens: Vec<Token>) -> (r: Vec<Token>)
    ensures
        r@ == non_whitespace(tokens@),
{
    let ghost all = tokens@;
    let mut kept: Vec<Token> = Vec::new();
    proof {
        reveal(Seq::filter);
        assert(all.subrange(0, 0) =~= Seq::<Token>::empty());
    }
    for t in it: tokens.into_iter()
        invariant
            it.seq() == all,
            kept@ == non_whitespace(all.subrange(0, it.index() as int)),
    {
        let ghost i = it.index() as int;
        let keep = match &t {
            Token::Whitespace => false,
            _ => true,
        };
        if keep {
            kept.push(t);
        }
        proof {
            assert(all.subrange(0, i + 1) =~= all.subrange(0, i).push(all[i]));
            lemma_non_whitespace_push(all.subrange(0, i), all[i]);
        }
    }
    proof {
        assert(all.subrange(0, all.len() as int) =~= all);
    }
    kept
}

/// The decimal digit character for a value between 0 and 9.
pub open spec fn digit_char(d: int) -> char {
    if d == 0 {
        '0'
    } else if d == 1 {
        '1'
    } else if d == 2 {
        '2'
    } else if d == 3 {
        '3'
    } else if d == 4 {
        '4'
    } else if d == 5 {
        '5'
    } else if d == 6 {
        '6'
    } else if d == 7 {
        '7'
    } else if d == 8 {
        '8'
    } else {
        '9'
    }
}

/// The canonical decimal spelling of a non-negative number: no sign, no
/// leading zeros (except for the number 0 itself).
pub open spec fn digits_text(n: int) -> Seq<char>
    decreases n,
{
    if n <= 9 {
        seq![digit_char(n)]
    } else {
        digits_text(n / 10).push(digit_char(n % 10))
    }
}

/// The canonical text of one token: the character sequence whose scan
/// yields exactly that token.
pub open spec fn token_text(t: TokenV) -> Seq<char> {
    match t {
        TokenV::ObjectStart => seq!['{'],
        TokenV::ObjectEnd => seq!['}'],
        TokenV::ArrayStart => seq!['['],
        TokenV::ArrayEnd => seq![']'],
        TokenV::Comma => seq![','],
        TokenV::Colon => seq![':'],
        TokenV::True => true_chars(),
        TokenV::False => false_chars(),
        TokenV::Null => null_chars(),
        TokenV::Whitespace => seq![' '],
        TokenV::Integer(i) => digits_text(i as int),
        TokenV::Float(w, f) => digits_text(w as int) + seq!['.'] + digits_text(f as int),
        TokenV::String(s) => seq!['"'] + s + seq!['"'],
        TokenV::NoMoreTokens => Seq::empty(),
    }
}

/// The canonical text of a token sequence: the token texts, one after
/// another, with nothing in between.
pub open spec fn tokens_text(tvs: Seq<TokenV>) -> Seq<char>
    decreases tvs.len(),
{
    if tvs.len() == 0 {
        Seq::empty()
    } else {
        token_text(tvs[0]) + tokens_text(tvs.drop_first())
    }
}

/// Whether a character sequence contains no quote character, so that it
/// can stand verbatim between the quotes of a string literal (escapes
/// are not decoded).
pub open spec fn quote_free(s: Seq<char>) -> bool {
    forall|i: int| 0 <= i < s.len() ==> #[trigger] s[i] != '"'
}

/// Whether the canonical text of `t` scans back to `t`: the sentinel has
/// no text; an integer must be non-negative; a float's whole part must
/// not be zero (a document beginning `0.` tokenizes the zero alone) and
/// its fractional part non-negative; a string must not contain the quote
/// character.
pub open spec fn lexable_token(t: TokenV) -> bool {
    match t {
        TokenV::NoMoreTokens => false,
        TokenV::Integer(i) => 0 <= i,
        TokenV::Float(w, f) => 1 <= w && 0 <= f,
        TokenV::String(s) => quote_free(s),
        _ => true,
    }
}

/// Whether a token's text may directly follow a numeric literal without
/// being absorbed into it: its first character continues no digit run
/// and opens no fractional part.
pub open spec fn sep_after_number(t: TokenV) -> bool {
    !is_digit(token_text(t)[0]) && token_text(t)[0] != '.'
}

/// Whether adjacent tokens keep their identity in the concatenated text:
/// a numeric literal is never followed by a token that could extend it.
pub open spec fn well_separated(tvs: Seq<TokenV>) -> bool {
    forall|i: int|
        0 <= i < tvs.len() - 1 && ((#[trigger] tvs[i]) is Integer || tvs[i] is Float)
            ==> sep_after_number(tvs[i + 1])
}

/// A character of the window `r` laid over `s` at `pos` can be read off
/// `r`.
proof fn lemma_char_window_index(s: Seq<char>, pos: int, r: Seq<char>, a: int)
    requires
        0 <= pos,
        pos + r.len() <= s.len(),
        s.subrange(pos, pos + r.len() as int) == r,
        0 <= a < r.len(),
    ensures
        s[pos + a] == r[a],
{
    assert(s.subrange(pos, pos + r.len() as int)[a] == s[pos + a]);
}

/// A sub-window of the window `r` laid over `s` at `pos` is the
/// corresponding part of `r`.
proof fn lemma_char_window_subrange(s: Seq<char>, pos: int, r: Seq<char>, a: int, b: int)
    requires
        0 <= pos,
        pos + r.len() <= s.len(),
        s.subrange(pos, pos + r.len() as int) == r,
        0 <= a <= b <= r.len(),
    ensures
        s.subrange(pos + a, pos + b) == r.subrange(a, b),
{
    assert forall|i: int| 0 <= i < b - a implies s.subrange(pos + a, pos + b)[i] == r.subrange(
        a,
        b,
    )[i] by {
        assert(r.subrange(a, b)[i] == r[a + i]);
        assert(s.subrange(pos, pos + r.len() as int)[a + i] == s[pos + (a + i)]);
        assert(s.subrange(pos + a, pos + b)[i] == s[pos + a + i]);
    }
    assert(s.subrange(pos + a, pos + b) =~= r.subrange(a, b));
}

/// The canonical decimal spelling of a number is made of digits, is
/// non-empty, and begins with a non-zero digit for numbers above zero.
pub proof fn lemma_digits_text_props(n: int)
    requires
        0 <= n,
    ensures
        digits_text(n).len() >= 1,
        forall|i: int| 0 <= i < digits_text(n).len() ==> is_digit(#[trigger] digits_text(n)[i]),
        1 <= n ==> digits_text(n)[0] != '0',
    decreases n,
{
    if n > 9 {
        lemma_digits_text_props(n / 10);
    }
}

/// A digit run covering exactly an all-digit window ends at the window's
/// end.
proof fn lemma_digit_run_len_of_window(s: Seq<char>, pos: int, len: int)
    requires
        0 <= pos,
        0 <= len,
        pos + len <= s.len(),
        all_digits(s, pos, pos + len),
        pos + len == s.len() || !is_digit(s[pos + len]),
    ensures
        digit_run_len(s, pos) == len,
    decreases len,
{
    if len > 0 {
        lemma_digit_run_len_of_window(s, pos + 1, len - 1);
    }
}

/// Scanning the canonical decimal spelling of a number recovers the
/// number.
proof fn lemma_digit_run_val_of_digits(s: Seq<char>, pos: int, n: int)
    requires
        0 <= pos,
        0 <= n,
        pos + digits_text(n).len() <= s.len(),
        s.subrange(pos, pos + digits_text(n).len() as int) == digits_text(n),
    ensures
        digit_run_val(s, pos, pos + digits_text(n).len()) == n,
    decreases n,
{
    let r = digits_text(n);
    if n <= 9 {
        lemma_char_window_index(s, pos, r, 0);
        assert(digit_run_val(s, pos, pos) == 0);
        assert(digit_run_val(s, pos, pos + 1) == digit_val(s[pos]));
    } else {
        let rp = digits_text(n / 10);
        let lp = rp.len() as int;
        lemma_char_window_subrange(s, pos, r, 0, lp);
        assert(r.subrange(0, lp) =~= rp);
        lemma_digit_run_val_of_digits(s, pos, n / 10);
        lemma_char_window_index(s, pos, r, lp);
        assert(r[lp] == digit_char(n % 10));
        assert(digit_val(digit_char(n % 10)) == n % 10);
        assert(digit_run_val(s, pos, pos + lp + 1) == digit_run_val(s, pos, pos + lp) * 10
            + digit_val(s[pos + lp]));
    }
}

/// Scanning a quote-free window closed by a quote recovers the window as
/// the string body.
proof fn lemma_string_body_of_window(s: Seq<char>, pos: int, content: Seq<char>)
    requires
        0 <= pos,
        pos + content.len() + 1 <= s.len(),
        s.subrange(pos, pos + content.len() as int) == content,
        forall|i: int| 0 <= i < content.len() ==> #[trigger] content[i] != '"',
        s[pos + content.len()] == '"',
    ensures
        spec_lex_string_body(s, pos) == Ok::<(Seq<char>, nat), LexError>(
            (content, (content.len() + 1) as nat),
        ),
    decreases content.len(),
{
    if content.len() == 0 {
        assert(content =~= Seq::<char>::empty());
        assert(s[pos] == '"');
    } else {
        lemma_char_window_index(s, pos, content, 0);
        assert(s[pos] == content[0]);
        lemma_char_window_subrange(s, pos, content, 1, content.len() as int);
        lemma_string_body_of_window(s, pos + 1, content.drop_first());
        assert(seq![content[0]] + content.drop_first() =~= content);
    }
}

/// The scan step at the canonical text of a lexable token yields exactly
/// that token, provided the following character (if any) cannot extend a
/// numeric literal.
proof fn lemma_spec_next_of_token(s: Seq<char>, pos: int, t: TokenV)
    requires
        0 <= pos,
        lexable_token(t),
        pos + token_text(t).len() <= s.len(),
        s.subrange(pos, pos + token_text(t).len() as int) == token_text(t),
        (t is Integer || t is Float) ==> (pos + token_text(t).len() == s.len() || (!is_digit(
            s[pos + token_text(t).len()],
        ) && s[pos + token_text(t).len()] != '.')),
    ensures
        spec_next(s, pos) == Ok::<(TokenV, nat), LexError>((t, token_text(t).len() as nat)),
{
    let r = token_text(t);
    match t {
        TokenV::ObjectStart => {
            lemma_char_window_index(s, pos, r, 0);
        },
        TokenV::ObjectEnd => {
            lemma_char_window_index(s, pos, r, 0);
        },
        TokenV::ArrayStart => {
            lemma_char_window_index(s, pos, r, 0);
        },
        TokenV::ArrayEnd => {
            lemma_char_window_index(s, pos, r, 0);
        },
        TokenV::Comma => {
            lemma_char_window_index(s, pos, r, 0);
        },
        TokenV::Colon => {
            lemma_char_window_index(s, pos, r, 0);
        },
        TokenV::Whitespace => {
            lemma_char_window_index(s, pos, r, 0);
        },
        TokenV::True => {
            lemma_char_window_index(s, pos, r, 0);
            assert(s.subrange(pos, pos + 4) =~= true_chars());
        },
        TokenV::False => {
            lemma_char_window_index(s, pos, r, 0);
            assert(s.subrange(pos, pos + 5) =~= false_chars());
        },
        TokenV::Null => {
            lemma_char_window_index(s, pos, r, 0);
            assert(s.subrange(pos, pos + 4) =~= null_chars());
        },
        TokenV::String(content) => {
            lemma_char_window_index(s, pos, r, 0);
            assert(r[0] == '"');
            lemma_char_window_subrange(s, pos, r, 1, 1 + content.len() as int);
            assert(r.subrange(1, 1 + content.len() as int) =~= content);
            lemma_char_window_index(s, pos, r, 1 + content.len() as int);
            assert(r[1 + content.len() as int] == '"');
            lemma_string_body_of_window(s, pos + 1, content);
        },
        TokenV::Integer(i) => {
            lemma_digits_text_props(i as int);
            lemma_char_window_index(s, pos, r, 0);
            if i == 0 {
                assert(s[pos] == '0');
            } else {
                assert(s[pos] == r[0]);
                assert(is_digit(s[pos]) && s[pos] != '0');
                assert forall|k: int| pos <= k < pos + r.len() implies is_digit(
                    #[trigger] s[k],
                ) by {
                    lemma_char_window_index(s, pos, r, k - pos);
                }
                lemma_digit_run_len_of_window(s, pos, r.len() as int);
                lemma_digit_run_val_of_digits(s, pos, i as int);
            }
        },
        TokenV::Float(w, f) => {
            let rw = digits_text(w as int);
            let lw = rw.len() as int;
            let rf = digits_text(f as int);
            let lf = rf.len() as int;
            lemma_digits_text_props(w as int);
            lemma_digits_text_props(f as int);
            lemma_char_window_subrange(s, pos, r, 0, lw);
            assert(r.subrange(0, lw) =~= rw);
            lemma_char_window_index(s, pos, r, 0);
            assert(r[0] == rw[0]);
            assert(is_digit(s[pos]) && s[pos] != '0');
            assert forall|k: int| pos <= k < pos + lw implies is_digit(#[trigger] s[k]) by {
                lemma_char_window_index(s, pos, r, k - pos);
                assert(r[k - pos] == rw[k - pos]);
            }
            lemma_char_window_index(s, pos, r, lw);
            assert(r[lw] == '.');
            lemma_digit_run_len_of_window(s, pos, lw);
            lemma_digit_run_val_of_digits(s, pos, w as int);
            lemma_char_window_subrange(s, pos, r, lw + 1, lw + 1 + lf);
            assert(r.subrange(lw + 1, lw + 1 + lf) =~= rf);
            assert forall|k: int| pos + lw + 1 <= k < pos + lw + 1 + lf implies is_digit(
                #[trigger] s[k],
            ) by {
                lemma_char_window_index(s, pos, r, k - pos);
                assert(r[k - pos] == rf[k - pos - lw - 1]);
            }
            lemma_digit_run_len_of_window(s, pos + lw + 1, lf);
            lemma_digit_run_val_of_digits(s, pos + lw + 1, f as int);
        },
        TokenV::NoMoreTokens => {},
    }
}

/// The canonical text of a lexable token is never empty.
pub proof fn lemma_token_text_len(t: TokenV)
    requires
        lexable_token(t),
    ensures
        token_text(t).len() >= 1,
{
    match t {
        TokenV::Integer(i) => {
            lemma_digits_text_props(i as int);
        },
        TokenV::Float(w, f) => {
            lemma_digits_text_props(w as int);
            lemma_digits_text_props(f as int);
        },
        _ => {},
    }
}

/// Law: the tokenizer inverts the canonical text of every lexable,
/// well-separated token sequence.  Scanning the concatenated token texts
/// yields exactly those tokens, in order.
pub proof fn lemma_spec_lex_of_tokens(s: Seq<char>, pos: int, tvs: Seq<TokenV>)
    requires
        0 <= pos,
        pos + tokens_text(tvs).len() == s.len(),
        s.subrange(pos, s.len() as int) == tokens_text(tvs),
        forall|i: int| 0 <= i < tvs.len() ==> lexable_token(#[trigger] tvs[i]),
        well_separated(tvs),
    ensures
        spec_lex(s, pos) == Ok::<Seq<TokenV>, LexError>(tvs),
    decreases tvs.len(),
{
    let text = tokens_text(tvs);
    if tvs.len() == 0 {
        assert(pos == s.len());
        assert(tvs =~= Seq::<TokenV>::empty());
    } else {
        let t = tvs[0];
        let rt = token_text(t);
        let lt = rt.len() as int;
        let rest = tvs.drop_first();
        let rest_text = tokens_text(rest);
        assert(lexable_token(t));
        lemma_token_text_len(t);
        assert(text == rt + rest_text);
        assert(s.subrange(pos, pos + text.len() as int) == text);
        lemma_char_window_subrange(s, pos, text, 0, lt);
        assert(text.subrange(0, lt) =~= rt);
        if t is Integer || t is Float {
            if rest.len() == 0 {
                assert(rest_text =~= Seq::<char>::empty());
                assert(pos + lt == s.len());
            } else {
                let u = rest[0];
                assert(u == tvs[1]);
                assert(lexable_token(u));
                lemma_token_text_len(u);
                assert(rest_text == token_text(u) + tokens_text(rest.drop_first()));
                assert(rest_text[0] == token_text(u)[0]);
                lemma_char_window_index(s, pos, text, lt);
                assert(text[lt] == rest_text[0]);
                assert(sep_after_number(u));
            }
        }
        lemma_spec_next_of_token(s, pos, t);
        assert forall|i: int| 0 <= i < rest.len() implies lexable_token(#[trigger] rest[i]) by {
            assert(rest[i] == tvs[i + 1]);
        }
        assert forall|i: int|
            0 <= i < rest.len() - 1 && ((#[trigger] rest[i]) is Integer
                || rest[i] is Float) implies sep_after_number(rest[i + 1]) by {
            assert(rest[i] == tvs[i + 1]);
            assert(rest[i + 1] == tvs[i + 2]);
        }
        lemma_char_window_subrange(s, pos, text, lt, text.len() as int);
        assert(text.subrange(lt, text.len() as int) =~= rest_text);
        assert(pos + lt + rest_text.len() == s.len());
        assert(s.subrange(pos + lt, s.len() as int) == rest_text);
        lemma_spec_lex_of_tokens(s, pos + lt, rest);
        assert(seq![t] + rest =~= tvs);
    }
}


/// The sentinel never appears in the token sequence of an input.
pub proof fn lemma_spec_lex_no_sentinel(s: Seq<char>, pos: int)
    requires
        0 <= pos,
    ensures
        spec_lex(s, pos) matches Ok(ts) ==> forall|i: int|
            0 <= i < ts.len() ==> #[trigger] ts[i] !is NoMoreTokens,
    decreases s.len() - pos,
{
    lemma_spec_next_bounds(s, pos);
    if let Ok((t, n)) = spec_next(s, pos) {
        if t !is NoMoreTokens {
            lemma_spec_lex_no_sentinel(s, pos + n as int);
        }
    }
}

} // verus!
