//! A JSON reader: `parse` turns text into a `Json` tree, `render` writes a tree
//! back as compact JSON text.
use vstd::prelude::*;
use vstd::utf8::*;
use vstd::string::StringSliceAdditionalSpecFns;
use vstd::arithmetic::power::pow;

use crate::text::{
    char_from_u32, decimal, decimal_text, lemma_boundary_after_ascii, lemma_boundary_at_ascii, lemma_chars_of_bytes,
    lemma_valid_between_boundaries, push_char, str_from_utf8,
};
use vstd::string::StringExecFns;
use crate::number::{lemma_number_end_local, representable_lexeme};

verus! {

broadcast use {vstd::seq::group_seq_axioms, vstd::slice::group_slice_axioms};

/// The mathematical value of a JSON document. A number is the text of its literal.
pub enum JsonModel {
    Null,
    Bool(bool),
    Number(Seq<char>),
    String(Seq<char>),
    Array(Seq<JsonModel>),
    Object(Seq<(Seq<char>, JsonModel)>),
}

/// A JSON value. A number keeps the text of its literal; in a parsed value
/// the literal stands for a finite double.
#[derive(Debug)]
pub enum Json {
    Null,
    Bool(bool),
    Number(String),
    String(String),
    Array(Vec<Json>),
    Object(Vec<(String, Json)>),
}

impl Json {
    pub open spec fn model(self) -> JsonModel
        decreases self,
    {
        match self {
            Json::Null => JsonModel::Null,
            Json::Bool(b) => JsonModel::Bool(b),
            Json::Number(n) => JsonModel::Number(n@),
            Json::String(s) => JsonModel::String(s@),
            Json::Array(items) => JsonModel::Array(Json::models(items@)),
            Json::Object(members) => JsonModel::Object(Json::member_models(members@)),
        }
    }

    pub open spec fn models(items: Seq<Json>) -> Seq<JsonModel>
        decreases items,
    {
        if items.len() == 0 {
            Seq::empty()
        } else {
            seq![items[0].model()] + Json::models(items.drop_first())
        }
    }

    pub open spec fn member_models(members: Seq<(String, Json)>) -> Seq<(Seq<char>, JsonModel)>
        decreases members,
    {
        if members.len() == 0 {
            Seq::empty()
        } else {
            seq![(members[0].0@, members[0].1.model())] + Json::member_models(
                members.drop_first(),
            )
        }
    }
}

/// Where parsing stopped and what was expected there.
#[derive(Debug)]
pub struct ParseError {
    pub pos: usize,
    pub msg: &'static str,
}

impl ParseError {
    /// The text that reports the error.
    pub fn message(&self) -> (s: String)
        ensures
            s@ == "expected "@ + self.msg@ + " at byte "@ + decimal(self.pos as nat),
    {
        let mut s = String::from_str("expected ");
        s.append(self.msg);
        s.append(" at byte ");
        s.append(decimal_text(self.pos).as_str());
        s
    }
}

/* The grammar, as functions from the input bytes and a position to a value and
   the position after it, or to the error that the reader reports. */

pub type Parsed<T> = Result<(T, int), ParseError>;

pub open spec fn fail<T>(p: int, msg: &'static str) -> Result<T, ParseError> {
    Err(ParseError { pos: p as usize, msg })
}

pub open spec fn at(b: Seq<u8>, p: int, c: u8) -> bool {
    0 <= p < b.len() && b[p] == c
}

pub open spec fn is_ws(c: u8) -> bool {
    c == (' ' as u8) || c == ('\t' as u8) || c == ('\n' as u8) || c == ('\r' as u8)
}

pub open spec fn is_digit(c: u8) -> bool {
    ('0' as u8) <= c <= ('9' as u8)
}

/// The position after the whitespace that starts at `p`.
pub open spec fn skip_ws(b: Seq<u8>, p: int) -> int
    decreases b.len() - p,
{
    if 0 <= p < b.len() && is_ws(b[p]) {
        skip_ws(b, p + 1)
    } else {
        p
    }
}

/// The position after the digits that start at `p`.
pub open spec fn digit_run(b: Seq<u8>, p: int) -> int
    decreases b.len() - p,
{
    if 0 <= p < b.len() && is_digit(b[p]) {
        digit_run(b, p + 1)
    } else {
        p
    }
}

/// One or more digits.
pub open spec fn spec_digits(b: Seq<u8>, p: int) -> Result<int, ParseError> {
    let q = digit_run(b, p);
    if q == p {
        fail(p, "a digit")
    } else {
        Ok(q)
    }
}

/// The literal `lit`, which is also the message when it is missing.
pub open spec fn spec_expect(b: Seq<u8>, p: int, lit: &'static str) -> Result<int, ParseError> {
    let l = lit.spec_bytes();
    if 0 <= p && p + l.len() <= b.len() && b.subrange(p, p + l.len()) == l {
        Ok(p + l.len())
    } else {
        fail(p, lit)
    }
}

/// The end of a number literal: `-? (0 | digits) (. digits)? ([eE] [+-]? digits)?`.
pub open spec fn number_end(b: Seq<u8>, p: int) -> Result<int, ParseError> {
    let p1 = if at(b, p, ('-' as u8)) { p + 1 } else { p };
    let r2 = if at(b, p1, ('0' as u8)) { Ok(p1 + 1) } else { spec_digits(b, p1) };
    match r2 {
        Err(e) => Err(e),
        Ok(p2) => {
            let r3 = if at(b, p2, ('.' as u8)) { spec_digits(b, p2 + 1) } else { Ok(p2) };
            match r3 {
                Err(e) => Err(e),
                Ok(p3) => {
                    if at(b, p3, ('e' as u8)) || at(b, p3, ('E' as u8)) {
                        let p4 = if at(b, p3 + 1, ('+' as u8)) || at(b, p3 + 1, ('-' as u8)) {
                            p3 + 2
                        } else {
                            p3 + 1
                        };
                        spec_digits(b, p4)
                    } else {
                        Ok(p3)
                    }
                },
            }
        },
    }
}

/// The number written by a run of decimal digits.
pub open spec fn digits_value(s: Seq<u8>) -> nat
    decreases s.len(),
{
    if s.len() == 0 {
        0
    } else {
        digits_value(s.drop_last()) * 10 + (s.last() - ('0' as u8)) as nat
    }
}

/// The length of a number literal's sign: 1 when it starts with `-`.
pub open spec fn sign_len(l: Seq<u8>) -> int {
    if at(l, 0, ('-' as u8)) {
        1
    } else {
        0
    }
}

/// The end of a number literal's integer digits.
pub open spec fn int_end(l: Seq<u8>) -> int {
    digit_run(l, sign_len(l))
}

/// A number literal has a fraction: a `.` follows its integer digits.
pub open spec fn has_fraction(l: Seq<u8>) -> bool {
    at(l, int_end(l), ('.' as u8))
}

/// The end of a number literal's fraction digits (its integer digits' end
/// when it has no fraction).
pub open spec fn frac_end(l: Seq<u8>) -> int {
    if has_fraction(l) {
        digit_run(l, int_end(l) + 1)
    } else {
        int_end(l)
    }
}

/// The digits of a number literal's fraction.
pub open spec fn fraction(l: Seq<u8>) -> Seq<u8> {
    if has_fraction(l) {
        l.subrange(int_end(l) + 1, frac_end(l))
    } else {
        Seq::empty()
    }
}

/// Where the digits of a number literal's exponent start, past `e` and sign.
pub open spec fn exp_digits_start(l: Seq<u8>) -> int {
    let e0 = frac_end(l) + 1;
    if at(l, e0, ('+' as u8)) || at(l, e0, ('-' as u8)) {
        e0 + 1
    } else {
        e0
    }
}

/// The value of a number literal's exponent; 0 when it has none.
pub open spec fn exponent(l: Seq<u8>) -> int {
    if frac_end(l) < l.len() {
        let v = digits_value(l.subrange(exp_digits_start(l), l.len() as int)) as int;
        if at(l, frac_end(l) + 1, ('-' as u8)) {
            -v
        } else {
            v
        }
    } else {
        0
    }
}

/// A number literal as its significant digits `d` and a power of ten `e`:
/// the literal stands for `d * 10^e`, negated when it starts with `-`.
pub open spec fn lexeme_parts(l: Seq<u8>) -> (Seq<u8>, int) {
    (l.subrange(sign_len(l), int_end(l)) + fraction(l), exponent(l) - fraction(l).len())
}

/// 2^1024 - 2^970: the least magnitude that a decimal number rounds up to
/// infinity when read as an IEEE 754 double (round to nearest, ties to even).
pub open spec fn overflow_threshold() -> nat {
    179769313486231580793728971405303415079934132710037826936173778980444968292764750946649017977587207096330286416692887910946555547851940402630657488671505820681908902000708383676273854845817711531764475730270069855571366959622842914819860834936475292719074168444365510704342711559699508093042880177904174497792nat
}

/// The digits `d` scaled by 10^e stand for less than the overflow threshold.
pub open spec fn scaled_below_threshold(d: Seq<u8>, e: int) -> bool {
    if e >= 0 {
        digits_value(d) * pow(10, e as nat) < overflow_threshold()
    } else {
        digits_value(d) < overflow_threshold() * pow(10, (-e) as nat)
    }
}

/// The number literal `l` reads as a finite double: its magnitude is below the
/// overflow threshold.
pub open spec fn representable(l: Seq<u8>) -> bool {
    let (d, e) = lexeme_parts(l);
    scaled_below_threshold(d, e)
}

pub open spec fn spec_number(b: Seq<u8>, p: int) -> Parsed<JsonModel> {
    match number_end(b, p) {
        Err(e) => Err(e),
        Ok(q) => {
            if representable(b.subrange(p, q)) {
                Ok((JsonModel::Number(decode_utf8(b.subrange(p, q))), q))
            } else {
                fail(p, "a representable number")
            }
        },
    }
}

/// The value of a hex digit.
pub open spec fn hex_value(c: u8) -> Option<u32> {
    if ('0' as u8) <= c <= ('9' as u8) {
        Some((c - ('0' as u8)) as u32)
    } else if ('a' as u8) <= c <= ('f' as u8) {
        Some((c - ('a' as u8) + 10) as u32)
    } else if ('A' as u8) <= c <= ('F' as u8) {
        Some((c - ('A' as u8) + 10) as u32)
    } else {
        None
    }
}

pub open spec fn hex_at(b: Seq<u8>, p: int) -> Option<u32> {
    if 0 <= p < b.len() {
        hex_value(b[p])
    } else {
        None
    }
}

/// Four hex digits.
pub open spec fn spec_hex4(b: Seq<u8>, p: int) -> Parsed<u32> {
    match (hex_at(b, p), hex_at(b, p + 1), hex_at(b, p + 2), hex_at(b, p + 3)) {
        (None, _, _, _) => fail(p, "a hex digit"),
        (Some(_), None, _, _) => fail(p + 1, "a hex digit"),
        (Some(_), Some(_), None, _) => fail(p + 2, "a hex digit"),
        (Some(_), Some(_), Some(_), None) => fail(p + 3, "a hex digit"),
        (Some(d0), Some(d1), Some(d2), Some(d3)) => Ok(
            ((d0 * 4096 + d1 * 256 + d2 * 16 + d3) as u32, p + 4),
        ),
    }
}

/// The char with the given code, or an error at `start` when it is not one.
pub open spec fn scalar_at(code: u32, start: int, q: int) -> Parsed<char> {
    if is_scalar(code) {
        Ok((code as char, q))
    } else {
        fail(start, "a Unicode scalar value")
    }
}

/// The digits of a `\u` escape, with a second escape for a surrogate pair.
pub open spec fn spec_unicode_escape(b: Seq<u8>, p: int) -> Parsed<char> {
    match spec_hex4(b, p) {
        Err(e) => Err(e),
        Ok((hi, q1)) => {
            if 0xD800 <= hi <= 0xDBFF {
                match spec_expect(b, q1, "\\u") {
                    Err(e) => Err(e),
                    Ok(q2) => match spec_hex4(b, q2) {
                        Err(e) => Err(e),
                        Ok((lo, q3)) => {
                            if !(0xDC00 <= lo <= 0xDFFF) {
                                fail(p, "a low surrogate")
                            } else {
                                scalar_at(
                                    (0x10000 + (hi - 0xD800) * 1024 + (lo - 0xDC00)) as u32,
                                    p,
                                    q3,
                                )
                            }
                        },
                    },
                }
            } else {
                scalar_at(hi, p, q1)
            }
        },
    }
}

/// What follows a backslash in a string.
#[verifier::opaque]
pub open spec fn spec_escape(b: Seq<u8>, p: int) -> Parsed<char> {
    if at(b, p, ('"' as u8)) {
        Ok(('"', p + 1))
    } else if at(b, p, ('\\' as u8)) {
        Ok(('\\', p + 1))
    } else if at(b, p, ('/' as u8)) {
        Ok(('/', p + 1))
    } else if at(b, p, ('b' as u8)) {
        Ok(('\u{8}', p + 1))
    } else if at(b, p, ('f' as u8)) {
        Ok(('\u{c}', p + 1))
    } else if at(b, p, ('n' as u8)) {
        Ok(('\n', p + 1))
    } else if at(b, p, ('r' as u8)) {
        Ok(('\r', p + 1))
    } else if at(b, p, ('t' as u8)) {
        Ok(('\t', p + 1))
    } else if at(b, p, ('u' as u8)) {
        spec_unicode_escape(b, p + 1)
    } else {
        fail(p, "an escape character")
    }
}

/// The rest of a string: `acc` holds the chars read so far, and the bytes from
/// `run` to `p` are copied as they are.
pub open spec fn string_body(b: Seq<u8>, p: int, run: int, acc: Seq<char>) -> Parsed<Seq<char>>
    decreases b.len() - p,
{
    if !(0 <= p < b.len()) {
        fail(p, "a closing quote")
    } else if b[p] == ('"' as u8) {
        Ok((acc + decode_utf8(b.subrange(run, p)), p + 1))
    } else if b[p] == ('\\' as u8) {
        proof {
            lemma_escape_end(b, p + 1);
        }
        match spec_escape(b, p + 1) {
            Err(e) => Err(e),
            Ok((c, q)) => string_body(b, q, q, acc + decode_utf8(b.subrange(run, p)) + seq![c]),
        }
    } else if b[p] < 0x20 {
        fail(p, "an escaped control character")
    } else {
        string_body(b, p + 1, run, acc)
    }
}

pub open spec fn spec_string(b: Seq<u8>, p: int) -> Parsed<Seq<char>> {
    match spec_expect(b, p, "\"") {
        Err(e) => Err(e),
        Ok(q) => string_body(b, q, q, Seq::empty()),
    }
}

/// A value.
pub open spec fn spec_value(b: Seq<u8>, p: int) -> Parsed<JsonModel>
    decreases b.len() - p, 1int,
{
    if at(b, p, ('n' as u8)) {
        match spec_expect(b, p, "null") {
            Err(e) => Err(e),
            Ok(q) => Ok((JsonModel::Null, q)),
        }
    } else if at(b, p, ('t' as u8)) {
        match spec_expect(b, p, "true") {
            Err(e) => Err(e),
            Ok(q) => Ok((JsonModel::Bool(true), q)),
        }
    } else if at(b, p, ('f' as u8)) {
        match spec_expect(b, p, "false") {
            Err(e) => Err(e),
            Ok(q) => Ok((JsonModel::Bool(false), q)),
        }
    } else if at(b, p, ('-' as u8)) || (0 <= p < b.len() && is_digit(b[p])) {
        spec_number(b, p)
    } else if at(b, p, ('"' as u8)) {
        match spec_string(b, p) {
            Err(e) => Err(e),
            Ok((s, q)) => Ok((JsonModel::String(s), q)),
        }
    } else if at(b, p, ('[' as u8)) {
        spec_array(b, p)
    } else if at(b, p, ('{' as u8)) {
        spec_object(b, p)
    } else {
        fail(p, "a JSON value")
    }
}

/// An array whose `[` is at `p`.
pub open spec fn spec_array(b: Seq<u8>, p: int) -> Parsed<JsonModel>
    decreases b.len() - p, 0int,
{
    if 0 <= p < b.len() {
        let p1 = skip_ws(b, p + 1);
        proof {
            lemma_skip_ws(b, p + 1);
        }
        if at(b, p1, (']' as u8)) {
            Ok((JsonModel::Array(Seq::empty()), p1 + 1))
        } else {
            spec_items(b, p1, Seq::empty())
        }
    } else {
        fail(p, "a JSON value")
    }
}

/// The items of an array from `p` on; `acc` holds the items read so far.
pub open spec fn spec_items(b: Seq<u8>, p: int, acc: Seq<JsonModel>) -> Parsed<JsonModel>
    decreases b.len() - p, 2int,
{
    let p1 = skip_ws(b, p);
    proof {
        lemma_skip_ws(b, p);
    }
    match spec_value(b, p1) {
        Err(e) => Err(e),
        Ok((v, q)) => {
            let r = skip_ws(b, q);
            if at(b, r, (',' as u8)) {
                if r + 1 > p {
                    spec_items(b, r + 1, acc.push(v))
                } else {
                    // a value always takes at least one byte
                    fail(r, "',' or ']'")
                }
            } else if at(b, r, (']' as u8)) {
                Ok((JsonModel::Array(acc.push(v)), r + 1))
            } else {
                fail(r, "',' or ']'")
            }
        },
    }
}

/// An object whose `{` is at `p`.
pub open spec fn spec_object(b: Seq<u8>, p: int) -> Parsed<JsonModel>
    decreases b.len() - p, 0int,
{
    if 0 <= p < b.len() {
        let p1 = skip_ws(b, p + 1);
        proof {
            lemma_skip_ws(b, p + 1);
        }
        if at(b, p1, ('}' as u8)) {
            Ok((JsonModel::Object(Seq::empty()), p1 + 1))
        } else {
            spec_members(b, p1, Seq::empty())
        }
    } else {
        fail(p, "a JSON value")
    }
}

/// The members of an object from `p` on; `acc` holds the members read so far.
pub open spec fn spec_members(
    b: Seq<u8>,
    p: int,
    acc: Seq<(Seq<char>, JsonModel)>,
) -> Parsed<JsonModel>
    decreases b.len() - p, 2int,
{
    let p1 = skip_ws(b, p);
    match spec_string(b, p1) {
        Err(e) => Err(e),
        Ok((key, q1)) => {
            let r1 = skip_ws(b, q1);
            match spec_expect(b, r1, ":") {
                Err(e) => Err(e),
                Ok(q2) => {
                    let r2 = skip_ws(b, q2);
                    proof {
                        lemma_skip_ws(b, p);
                        lemma_skip_ws(b, q1);
                        lemma_skip_ws(b, q2);
                        lemma_string_advances(b, p1);
                    }
                    match spec_value(b, r2) {
                        Err(e) => Err(e),
                        Ok((v, q3)) => {
                            let r3 = skip_ws(b, q3);
                            if at(b, r3, (',' as u8)) {
                                if r3 + 1 > p {
                                    spec_members(b, r3 + 1, acc.push((key, v)))
                                } else {
                                    // a value always takes at least one byte
                                    fail(r3, "',' or '}'")
                                }
                            } else if at(b, r3, ('}' as u8)) {
                                Ok((JsonModel::Object(acc.push((key, v))), r3 + 1))
                            } else {
                                fail(r3, "',' or '}'")
                            }
                        },
                    }
                },
            }
        },
    }
}

/// A document: one value with optional whitespace around it.
pub open spec fn spec_parse(b: Seq<u8>) -> Result<JsonModel, ParseError> {
    let p = skip_ws(b, 0);
    match spec_value(b, p) {
        Err(e) => Err(e),
        Ok((v, q)) => {
            let r = skip_ws(b, q);
            if r < b.len() {
                fail(r, "end of input")
            } else {
                Ok(v)
            }
        },
    }
}

pub proof fn lemma_skip_ws(b: Seq<u8>, p: int)
    ensures
        skip_ws(b, p) >= p,
        0 <= p <= b.len() ==> skip_ws(b, p) <= b.len(),
        forall|i: int| p <= i < skip_ws(b, p) ==> is_ws(#[trigger] b[i]),
        0 <= p ==> !(0 <= skip_ws(b, p) < b.len() && is_ws(b[skip_ws(b, p)])),
    decreases b.len() - p,
{
    if 0 <= p < b.len() && is_ws(b[p]) {
        lemma_skip_ws(b, p + 1);
    }
}

pub proof fn lemma_digit_run(b: Seq<u8>, p: int)
    ensures
        digit_run(b, p) >= p,
        0 <= p <= b.len() ==> digit_run(b, p) <= b.len(),
        forall|i: int| p <= i < digit_run(b, p) ==> is_digit(#[trigger] b[i]),
        0 <= p ==> !(0 <= digit_run(b, p) < b.len() && is_digit(b[digit_run(b, p)])),
    decreases b.len() - p,
{
    if 0 <= p < b.len() && is_digit(b[p]) {
        lemma_digit_run(b, p + 1);
    }
}

pub proof fn lemma_string_body_advances(b: Seq<u8>, p: int, run: int, acc: Seq<char>)
    ensures
        string_body(b, p, run, acc) matches Ok((s, q)) ==> q > p,
    decreases b.len() - p,
{
    if 0 <= p < b.len() && b[p] != ('"' as u8) {
        if b[p] == ('\\' as u8) {
            lemma_escape_end(b, p + 1);
            match spec_escape(b, p + 1) {
                Err(e) => {},
                Ok((c, q)) => {
                    lemma_string_body_advances(
                        b,
                        q,
                        q,
                        acc + decode_utf8(b.subrange(run, p)) + seq![c],
                    );
                },
            }
        } else if b[p] >= 0x20 {
            lemma_string_body_advances(b, p + 1, run, acc);
        }
    }
}

pub proof fn lemma_string_advances(b: Seq<u8>, p: int)
    ensures
        spec_string(b, p) matches Ok((s, q)) ==> q > p,
{
    if let Ok(q) = spec_expect(b, p, "\"") {
        lemma_string_body_advances(b, q, q, Seq::empty());
    }
}


pub proof fn lemma_models_push(items: Seq<Json>, x: Json)
    ensures
        Json::models(items.push(x)) == Json::models(items).push(x.model()),
    decreases items.len(),
{
    reveal_with_fuel(Json::models, 2);
    if items.len() > 0 {
        lemma_models_push(items.drop_first(), x);
        assert(items.push(x).drop_first() =~= items.drop_first().push(x));
    }
    assert(Json::models(items.push(x)) =~= Json::models(items).push(x.model()));
}

pub proof fn lemma_member_models_push(members: Seq<(String, Json)>, x: (String, Json))
    ensures
        Json::member_models(members.push(x)) == Json::member_models(members).push(
            (x.0@, x.1.model()),
        ),
    decreases members.len(),
{
    reveal_with_fuel(Json::member_models, 2);
    if members.len() > 0 {
        lemma_member_models_push(members.drop_first(), x);
        assert(members.push(x).drop_first() =~= members.drop_first().push(x));
    }
    assert(Json::member_models(members.push(x)) =~= Json::member_models(members).push(
        (x.0@, x.1.model()),
    ));
}

/// An escape ends right after an ASCII byte.
pub proof fn lemma_escape_end(b: Seq<u8>, p: int)
    requires
        0 <= p,
    ensures
        spec_escape(b, p) matches Ok((c, q)) ==> p < q <= b.len() && b[q - 1] < 0x80,
{
    reveal(spec_escape);
}

/// The bytes of an ASCII literal are its chars.
pub proof fn lemma_ascii_literal(s: &str)
    requires
        is_ascii_chars(s@),
    ensures
        s.spec_bytes().len() == s@.len(),
        forall|i: int| 0 <= i < s@.len() ==> #[trigger] s.spec_bytes()[i] == s@[i] as u8,
{
    is_ascii_chars_encode_utf8(s@);
}

pub proof fn lemma_expect_quote(b: Seq<u8>, p: int)
    ensures
        spec_expect(b, p, "\"") matches Ok(q) ==> q == p + 1 && b[p] == ('"' as u8),
{
    reveal_strlit("\"");
    lemma_ascii_literal("\"");
    if let Ok(q) = spec_expect(b, p, "\"") {
        assert(b.subrange(p, q)[0] == b[p]);
    }
}

/// A number literal is a nonempty run of ASCII bytes that ends in a digit.
pub proof fn lemma_number_end(b: Seq<u8>, p: int)
    requires
        0 <= p <= b.len(),
    ensures
        number_end(b, p) matches Ok(q) ==> {
            &&& p < q <= b.len()
            &&& is_digit(b[q - 1])
            &&& forall|i: int| p <= i < q ==> #[trigger] b[i] < 0x80
        },
{
    let p1 = if at(b, p, ('-' as u8)) { p + 1 } else { p };
    lemma_digit_run(b, p1);
    let r2 = if at(b, p1, ('0' as u8)) { Ok(p1 + 1) } else { spec_digits(b, p1) };
    if let Ok(p2) = r2 {
        lemma_digit_run(b, p2 + 1);
        let r3 = if at(b, p2, ('.' as u8)) { spec_digits(b, p2 + 1) } else { Ok(p2) };
        if let Ok(p3) = r3 {
            lemma_digit_run(b, p3 + 1);
            lemma_digit_run(b, p3 + 2);
        }
    }
}

/// A literal that was found has been read past.
pub proof fn lemma_expect_advances(b: Seq<u8>, p: int, lit: &'static str)
    requires
        lit@.len() > 0,
    ensures
        spec_expect(b, p, lit) matches Ok(q) ==> q > p,
{
    encode_utf8_valid_utf8(lit@);
    if lit.spec_bytes().len() == 0 {
        encode_utf8_decode_utf8(lit@);
    }
}

/// The input together with the reading position.
struct Parser<'a> {
    bytes: &'a [u8],
    pos: usize,
}

impl<'a> Parser<'a> {
    spec fn wf(&self) -> bool {
        &&& valid_utf8(self.bytes@)
        &&& self.pos <= self.bytes@.len()
        &&& self.bytes@.len() <= usize::MAX
    }

    fn peek(&self) -> (r: Option<u8>)
        ensures
            r == (if self.pos < self.bytes@.len() {
                Some(self.bytes@[self.pos as int])
            } else {
                None::<u8>
            }),
    {
        if self.pos < self.bytes.len() {
            Some(self.bytes[self.pos])
        } else {
            None
        }
    }

    fn err(&self, msg: &'static str) -> (e: ParseError)
        ensures
            e == (ParseError { pos: self.pos, msg }),
    {
        ParseError { pos: self.pos, msg }
    }

    fn skip_ws(&mut self)
        requires
            old(self).wf(),
        ensures
            final(self).wf(),
            final(self).bytes == old(self).bytes,
            final(self).pos == skip_ws(old(self).bytes@, old(self).pos as int),
    {
        let ghost start = self.pos as int;
        while self.pos < self.bytes.len() && (self.bytes[self.pos] == (' ' as u8) || self.bytes[self.pos]
            == ('\t' as u8) || self.bytes[self.pos] == ('\n' as u8) || self.bytes[self.pos] == ('\r' as u8))
            invariant
                self.wf(),
                self.bytes == old(self).bytes,
                skip_ws(self.bytes@, self.pos as int) == skip_ws(self.bytes@, start),
            decreases self.bytes@.len() - self.pos,
        {
            self.pos += 1;
        }
    }

    fn expect(&mut self, s: &'static str) -> (r: Result<(), ParseError>)
        requires
            old(self).wf(),
        ensures
            final(self).wf(),
            final(self).bytes == old(self).bytes,
            match spec_expect(old(self).bytes@, old(self).pos as int, s) {
                Ok(q) => r is Ok && final(self).pos == q,
                Err(e) => r == Err::<(), ParseError>(e),
            },
    {
        let lit = s.as_bytes();
        if lit.len() <= self.bytes.len() - self.pos {
            let mut i: usize = 0;
            while i < lit.len()
                invariant
                    self.wf(),
                    self.bytes == old(self).bytes,
                    self.pos == old(self).pos,
                    lit@ == s.spec_bytes(),
                    self.pos + lit@.len() <= self.bytes@.len(),
                    i <= lit@.len(),
                    forall|k: int| 0 <= k < i ==> self.bytes@[self.pos + k] == lit@[k],
                decreases lit@.len() - i,
            {
                if self.bytes[self.pos + i] != lit[i] {
                    proof {
                        let sub = self.bytes@.subrange(self.pos as int, self.pos + lit@.len());
                        assert(sub[i as int] != lit@[i as int]);
                    }
                    return Err(self.err(s));
                }
                i += 1;
            }
            proof {
                assert(self.bytes@.subrange(self.pos as int, self.pos + lit@.len()) =~= lit@);
            }
            self.pos += lit.len();
            Ok(())
        } else {
            Err(self.err(s))
        }
    }

    fn digits(&mut self) -> (r: Result<(), ParseError>)
        requires
            old(self).wf(),
        ensures
            final(self).wf(),
            final(self).bytes == old(self).bytes,
            match spec_digits(old(self).bytes@, old(self).pos as int) {
                Ok(q) => r is Ok && final(self).pos == q,
                Err(e) => r == Err::<(), ParseError>(e),
            },
    {
        let start = self.pos;
        while self.pos < self.bytes.len() && ('0' as u8) <= self.bytes[self.pos] && self.bytes[self.pos]
            <= ('9' as u8)
            invariant
                self.wf(),
                self.bytes == old(self).bytes,
                start <= self.pos,
                digit_run(self.bytes@, self.pos as int) == digit_run(self.bytes@, start as int),
            decreases self.bytes@.len() - self.pos,
        {
            self.pos += 1;
        }
        if self.pos == start {
            Err(self.err("a digit"))
        } else {
            Ok(())
        }
    }

    fn number(&mut self) -> (r: Result<Json, ParseError>)
        requires
            old(self).wf(),
        ensures
            final(self).wf(),
            final(self).bytes == old(self).bytes,
            match spec_number(old(self).bytes@, old(self).pos as int) {
                Ok((v, q)) => r matches Ok(j) && j.model() == v && final(self).pos == q,
                Err(e) => r == Err::<Json, ParseError>(e),
            },
            r is Ok ==> final(self).pos > old(self).pos,
    {
        let ghost b = self.bytes@;
        let start = self.pos;
        if self.peek() == Some('-' as u8) {
            self.pos += 1;
        }
        if self.peek() == Some('0' as u8) {
            self.pos += 1;
        } else {
            match self.digits() {
                Ok(()) => {},
                Err(e) => return Err(e),
            }
        }
        if self.peek() == Some('.' as u8) {
            self.pos += 1;
            match self.digits() {
                Ok(()) => {},
                Err(e) => return Err(e),
            }
        }
        if self.peek() == Some('e' as u8) || self.peek() == Some('E' as u8) {
            self.pos += 1;
            if self.peek() == Some('+' as u8) || self.peek() == Some('-' as u8) {
                self.pos += 1;
            }
            match self.digits() {
                Ok(()) => {},
                Err(e) => return Err(e),
            }
        }
        assert(number_end(b, start as int) == Ok::<int, ParseError>(self.pos as int));
        proof {
            lemma_number_end(b, start as int);
            lemma_number_end_local(b, start as int, self.pos as int);
        }
        let lexeme = &self.bytes[start..self.pos];
        if !representable_lexeme(lexeme) {
            return Err(ParseError { pos: start, msg: "a representable number" });
        }
        proof {
            assert(b[start as int] < 0x80);
            lemma_boundary_at_ascii(b, start as int);
            lemma_boundary_after_ascii(b, self.pos as int);
            lemma_valid_between_boundaries(b, start as int, self.pos as int);
        }
        let text = str_from_utf8(lexeme).unwrap();
        proof {
            lemma_chars_of_bytes(text, lexeme@);
        }
        Ok(Json::Number(text.to_owned()))
    }

    fn hex_digit(&mut self) -> (r: Result<u32, ParseError>)
        requires
            old(self).wf(),
        ensures
            final(self).wf(),
            final(self).bytes == old(self).bytes,
            match hex_at(old(self).bytes@, old(self).pos as int) {
                Some(d) => r == Ok::<u32, ParseError>(d) && final(self).pos == old(self).pos + 1,
                None => r == Err::<u32, ParseError>(
                    ParseError { pos: old(self).pos, msg: "a hex digit" },
                ),
            },
    {
        let d = match self.peek() {
            Some(c) => {
                if ('0' as u8) <= c && c <= ('9' as u8) {
                    (c - ('0' as u8)) as u32
                } else if ('a' as u8) <= c && c <= ('f' as u8) {
                    (c - ('a' as u8) + 10) as u32
                } else if ('A' as u8) <= c && c <= ('F' as u8) {
                    (c - ('A' as u8) + 10) as u32
                } else {
                    return Err(self.err("a hex digit"));
                }
            },
            None => return Err(self.err("a hex digit")),
        };
        self.pos += 1;
        Ok(d)
    }

    fn hex4(&mut self) -> (r: Result<u32, ParseError>)
        requires
            old(self).wf(),
        ensures
            final(self).wf(),
            final(self).bytes == old(self).bytes,
            match spec_hex4(old(self).bytes@, old(self).pos as int) {
                Ok((v, q)) => r == Ok::<u32, ParseError>(v) && final(self).pos == q,
                Err(e) => r == Err::<u32, ParseError>(e),
            },
    {
        let d0 = match self.hex_digit() {
            Ok(d) => d,
            Err(e) => return Err(e),
        };
        let d1 = match self.hex_digit() {
            Ok(d) => d,
            Err(e) => return Err(e),
        };
        let d2 = match self.hex_digit() {
            Ok(d) => d,
            Err(e) => return Err(e),
        };
        let d3 = match self.hex_digit() {
            Ok(d) => d,
            Err(e) => return Err(e),
        };
        Ok(d0 * 4096 + d1 * 256 + d2 * 16 + d3)
    }

    fn unicode_escape(&mut self) -> (r: Result<char, ParseError>)
        requires
            old(self).wf(),
        ensures
            final(self).wf(),
            final(self).bytes == old(self).bytes,
            match spec_unicode_escape(old(self).bytes@, old(self).pos as int) {
                Ok((c, q)) => r == Ok::<char, ParseError>(c) && final(self).pos == q,
                Err(e) => r == Err::<char, ParseError>(e),
            },
    {
        let start = self.pos;
        let hi = match self.hex4() {
            Ok(v) => v,
            Err(e) => return Err(e),
        };
        let code = if 0xD800 <= hi && hi <= 0xDBFF {
            match self.expect("\\u") {
                Ok(()) => {},
                Err(e) => return Err(e),
            }
            let lo = match self.hex4() {
                Ok(v) => v,
                Err(e) => return Err(e),
            };
            if !(0xDC00 <= lo && lo <= 0xDFFF) {
                return Err(ParseError { pos: start, msg: "a low surrogate" });
            }
            0x10000 + (hi - 0xD800) * 1024 + (lo - 0xDC00)
        } else {
            hi
        };
        match char_from_u32(code) {
            Some(c) => {
                proof {
                    char_u32_cast(c, code);
                }
                Ok(c)
            },
            None => Err(ParseError { pos: start, msg: "a Unicode scalar value" }),
        }
    }

    fn escape(&mut self) -> (r: Result<char, ParseError>)
        requires
            old(self).wf(),
        ensures
            final(self).wf(),
            final(self).bytes == old(self).bytes,
            match spec_escape(old(self).bytes@, old(self).pos as int) {
                Ok((c, q)) => r == Ok::<char, ParseError>(c) && final(self).pos == q,
                Err(e) => r == Err::<char, ParseError>(e),
            },
    {
        reveal(spec_escape);
        let c = match self.peek() {
            Some(b) => {
                if b == ('"' as u8) {
                    '"'
                } else if b == ('\\' as u8) {
                    '\\'
                } else if b == ('/' as u8) {
                    '/'
                } else if b == ('b' as u8) {
                    '\u{8}'
                } else if b == ('f' as u8) {
                    '\u{c}'
                } else if b == ('n' as u8) {
                    '\n'
                } else if b == ('r' as u8) {
                    '\r'
                } else if b == ('t' as u8) {
                    '\t'
                } else if b == ('u' as u8) {
                    self.pos += 1;
                    return self.unicode_escape();
                } else {
                    return Err(self.err("an escape character"));
                }
            },
            None => return Err(self.err("an escape character")),
        };
        self.pos += 1;
        Ok(c)
    }

    fn string(&mut self) -> (r: Result<String, ParseError>)
        requires
            old(self).wf(),
        ensures
            final(self).wf(),
            final(self).bytes == old(self).bytes,
            match spec_string(old(self).bytes@, old(self).pos as int) {
                Ok((s, q)) => r matches Ok(out) && out@ == s && final(self).pos == q,
                Err(e) => r == Err::<String, ParseError>(e),
            },
            r is Ok ==> final(self).pos > old(self).pos,
    {
        let ghost b = self.bytes@;
        let ghost start = self.pos as int;
        match self.expect("\"") {
            Ok(()) => {},
            Err(e) => return Err(e),
        }
        proof {
            lemma_expect_quote(b, start);
            lemma_boundary_after_ascii(b, self.pos as int);
        }
        let mut out = String::new();
        let mut run = self.pos;
        loop
            invariant
                self.wf(),
                self.bytes == old(self).bytes,
                b == self.bytes@,
                start == old(self).pos,
                start < run <= self.pos,
                is_char_boundary(b, run as int),
                spec_string(b, start) == string_body(b, self.pos as int, run as int, out@),
            decreases b.len() - self.pos,
        {
            let ghost acc = out@;
            let ghost p = self.pos as int;
            match self.peek() {
                None => return Err(self.err("a closing quote")),
                Some(c) => {
                    if c == ('"' as u8) {
                        self.flush(run, &mut out);
                        self.pos += 1;
                        return Ok(out);
                    } else if c == ('\\' as u8) {
                        self.flush(run, &mut out);
                        self.pos += 1;
                        proof {
                            lemma_escape_end(b, p + 1);
                        }
                        let ghost flushed = out@;
                        match self.escape() {
                            Ok(ch) => {
                                push_char(&mut out, ch);
                                assert(out@ =~= flushed + seq![ch]);
                            },
                            Err(e) => return Err(e),
                        }
                        run = self.pos;
                        proof {
                            lemma_boundary_after_ascii(b, run as int);
                        }
                    } else if c < 0x20 {
                        return Err(self.err("an escaped control character"));
                    } else {
                        self.pos += 1;
                    }
                },
            }
        }
    }

    fn value(&mut self) -> (r: Result<Json, ParseError>)
        requires
            old(self).wf(),
        ensures
            final(self).wf(),
            final(self).bytes == old(self).bytes,
            match spec_value(old(self).bytes@, old(self).pos as int) {
                Ok((v, q)) => r matches Ok(j) && j.model() == v && final(self).pos == q,
                Err(e) => r == Err::<Json, ParseError>(e),
            },
            r is Ok ==> final(self).pos > old(self).pos,
        decreases old(self).bytes@.len() - old(self).pos, 1int,
    {
        match self.peek() {
            Some(c) => {
                if c == ('n' as u8) {
                    match self.expect("null") {
                        Ok(()) => {
                            proof {
                                reveal_strlit("null");
                                lemma_expect_advances(self.bytes@, old(self).pos as int, "null");
                            }
                            Ok(Json::Null)
                        },
                        Err(e) => Err(e),
                    }
                } else if c == ('t' as u8) {
                    match self.expect("true") {
                        Ok(()) => {
                            proof {
                                reveal_strlit("true");
                                lemma_expect_advances(self.bytes@, old(self).pos as int, "true");
                            }
                            Ok(Json::Bool(true))
                        },
                        Err(e) => Err(e),
                    }
                } else if c == ('f' as u8) {
                    match self.expect("false") {
                        Ok(()) => {
                            proof {
                                reveal_strlit("false");
                                lemma_expect_advances(self.bytes@, old(self).pos as int, "false");
                            }
                            Ok(Json::Bool(false))
                        },
                        Err(e) => Err(e),
                    }
                } else if c == ('-' as u8) || (('0' as u8) <= c && c <= ('9' as u8)) {
                    self.number()
                } else if c == ('"' as u8) {
                    match self.string() {
                        Ok(s) => Ok(Json::String(s)),
                        Err(e) => Err(e),
                    }
                } else if c == ('[' as u8) {
                    self.array()
                } else if c == ('{' as u8) {
                    self.object()
                } else {
                    Err(self.err("a JSON value"))
                }
            },
            None => Err(self.err("a JSON value")),
        }
    }

    fn array(&mut self) -> (r: Result<Json, ParseError>)
        requires
            old(self).wf(),
            old(self).pos < old(self).bytes@.len(),
        ensures
            final(self).wf(),
            final(self).bytes == old(self).bytes,
            match spec_array(old(self).bytes@, old(self).pos as int) {
                Ok((v, q)) => r matches Ok(j) && j.model() == v && final(self).pos == q,
                Err(e) => r == Err::<Json, ParseError>(e),
            },
            r is Ok ==> final(self).pos > old(self).pos,
        decreases old(self).bytes@.len() - old(self).pos, 0int,
    {
        let ghost b = self.bytes@;
        let ghost start = self.pos as int;
        self.pos += 1;
        let mut items: Vec<Json> = Vec::new();
        self.skip_ws();
        proof {
            lemma_skip_ws(b, start + 1);
        }
        match self.peek() {
            Some(c) => {
                if c == (']' as u8) {
                    self.pos += 1;
                    proof {
                        assert(Json::models(items@) =~= Seq::<JsonModel>::empty());
                    }
                    return Ok(Json::Array(items));
                }
            },
            None => {},
        }
        assert(Json::models(items@) =~= Seq::<JsonModel>::empty());
        loop
            invariant
                self.wf(),
                self.bytes == old(self).bytes,
                b == self.bytes@,
                start == old(self).pos,
                start < self.pos,
                spec_array(b, start) == spec_items(b, self.pos as int, Json::models(items@)),
            decreases b.len() - self.pos,
        {
            let ghost p = self.pos as int;
            let ghost acc = Json::models(items@);
            self.skip_ws();
            proof {
                lemma_skip_ws(b, p);
            }
            let v = match self.value() {
                Ok(v) => v,
                Err(e) => return Err(e),
            };
            let ghost vm = v.model();
            let ghost q = self.pos as int;
            proof {
                lemma_models_push(items@, v);
            }
            items.push(v);
            self.skip_ws();
            proof {
                lemma_skip_ws(b, q);
            }
            match self.peek() {
                Some(c) => {
                    if c == (',' as u8) {
                        self.pos += 1;
                    } else if c == (']' as u8) {
                        self.pos += 1;
                        return Ok(Json::Array(items));
                    } else {
                        return Err(self.err("',' or ']'"));
                    }
                },
                None => return Err(self.err("',' or ']'")),
            }
        }
    }

    fn object(&mut self) -> (r: Result<Json, ParseError>)
        requires
            old(self).wf(),
            old(self).pos < old(self).bytes@.len(),
        ensures
            final(self).wf(),
            final(self).bytes == old(self).bytes,
            match spec_object(old(self).bytes@, old(self).pos as int) {
                Ok((v, q)) => r matches Ok(j) && j.model() == v && final(self).pos == q,
                Err(e) => r == Err::<Json, ParseError>(e),
            },
            r is Ok ==> final(self).pos > old(self).pos,
        decreases old(self).bytes@.len() - old(self).pos, 0int,
    {
        let ghost b = self.bytes@;
        let ghost start = self.pos as int;
        self.pos += 1;
        let mut members: Vec<(String, Json)> = Vec::new();
        self.skip_ws();
        proof {
            lemma_skip_ws(b, start + 1);
        }
        match self.peek() {
            Some(c) => {
                if c == ('}' as u8) {
                    self.pos += 1;
                    proof {
                        assert(Json::member_models(members@) =~= Seq::<(Seq<char>, JsonModel)>::empty());
                    }
                    return Ok(Json::Object(members));
                }
            },
            None => {},
        }
        assert(Json::member_models(members@) =~= Seq::<(Seq<char>, JsonModel)>::empty());
        loop
            invariant
                self.wf(),
                self.bytes == old(self).bytes,
                b == self.bytes@,
                start == old(self).pos,
                start < self.pos,
                spec_object(b, start) == spec_members(b, self.pos as int, Json::member_models(members@)),
            decreases b.len() - self.pos,
        {
            let ghost p = self.pos as int;
            self.skip_ws();
            proof {
                lemma_skip_ws(b, p);
            }
            let key = match self.string() {
                Ok(k) => k,
                Err(e) => return Err(e),
            };
            let ghost q1 = self.pos as int;
            self.skip_ws();
            proof {
                lemma_skip_ws(b, q1);
            }
            match self.expect(":") {
                Ok(()) => {},
                Err(e) => return Err(e),
            }
            let ghost q2 = self.pos as int;
            proof {
                reveal_strlit(":");
                lemma_expect_advances(b, skip_ws(b, q1), ":");
            }
            self.skip_ws();
            proof {
                lemma_skip_ws(b, q2);
            }
            let v = match self.value() {
                Ok(v) => v,
                Err(e) => return Err(e),
            };
            let ghost q3 = self.pos as int;
            proof {
                lemma_member_models_push(members@, (key, v));
            }
            members.push((key, v));
            self.skip_ws();
            proof {
                lemma_skip_ws(b, q3);
            }
            match self.peek() {
                Some(c) => {
                    if c == (',' as u8) {
                        self.pos += 1;
                    } else if c == ('}' as u8) {
                        self.pos += 1;
                        return Ok(Json::Object(members));
                    } else {
                        return Err(self.err("',' or '}'"));
                    }
                },
                None => return Err(self.err("',' or '}'")),
            }
        }
    }

    /// Appends the bytes from `run` up to the reading position, which sits on
    /// an ASCII byte.
    fn flush(&self, run: usize, out: &mut String)
        requires
            self.wf(),
            run <= self.pos < self.bytes@.len(),
            self.bytes@[self.pos as int] < 0x80,
            is_char_boundary(self.bytes@, run as int),
        ensures
            final(out)@ == old(out)@ + decode_utf8(self.bytes@.subrange(run as int, self.pos as int)),
    {
        proof {
            lemma_boundary_at_ascii(self.bytes@, self.pos as int);
            lemma_valid_between_boundaries(self.bytes@, run as int, self.pos as int);
        }
        let piece = str_from_utf8(&self.bytes[run..self.pos]).unwrap();
        proof {
            lemma_chars_of_bytes(piece, self.bytes@.subrange(run as int, self.pos as int));
        }
        out.append(piece);
    }
}

/// Reads a JSON document: one value, with optional whitespace around it.
pub fn parse(s: &str) -> (r: Result<Json, ParseError>)
    ensures
        match spec_parse(s.spec_bytes()) {
            Ok(v) => r matches Ok(j) && j.model() == v,
            Err(e) => r == Err::<Json, ParseError>(e),
        },
        r matches Err(e) ==> e.pos <= s.spec_bytes().len(),
        r is Ok ==> crate::positions::only_ws_after_value(s.spec_bytes()),
        r matches Ok(j) ==> crate::readback::readable(j.model()),
{
    let bytes = s.as_bytes();
    proof {
        encode_utf8_valid_utf8(s@);
        assert(bytes@.len() == bytes.len());
        crate::positions::law_parse_positions(s.spec_bytes());
        crate::readback::law_parsed_readable(s.spec_bytes());
    }
    let mut p = Parser { bytes, pos: 0 };
    p.skip_ws();
    let value = match p.value() {
        Ok(v) => v,
        Err(e) => return Err(e),
    };
    p.skip_ws();
    if p.pos < p.bytes.len() {
        return Err(p.err("end of input"));
    }
    Ok(value)
}

/* Writing JSON text. */

/// The hex digit for a number below 16, in lower case.
pub open spec fn hex_char(d: nat) -> char {
    if d < 10 {
        ((d + 48) as u8) as char
    } else {
        ((d + 87) as u8) as char
    }
}

/// How one char of a string is written inside quotes.
pub open spec fn escaped_char(c: char) -> Seq<char> {
    if c == '"' {
        seq!['\\', '"']
    } else if c == '\\' {
        seq!['\\', '\\']
    } else if c == '\n' {
        seq!['\\', 'n']
    } else if c == '\r' {
        seq!['\\', 'r']
    } else if c == '\t' {
        seq!['\\', 't']
    } else if (c as u32) < 0x20 {
        seq!['\\', 'u', '0', '0', hex_char((c as u32) as nat / 16), hex_char((c as u32) as nat % 16)]
    } else {
        seq![c]
    }
}

/// The chars of a string, escaped, without the quotes.
pub open spec fn escaped(s: Seq<char>) -> Seq<char>
    decreases s.len(),
{
    if s.len() == 0 {
        Seq::empty()
    } else {
        escaped(s.drop_last()) + escaped_char(s.last())
    }
}

/// A string as a JSON string literal.
pub open spec fn quoted(s: Seq<char>) -> Seq<char> {
    seq!['"'] + escaped(s) + seq!['"']
}

/// The compact text of a value: no whitespace, members in their order.
pub open spec fn render(v: JsonModel) -> Seq<char>
    decreases v,
{
    match v {
        JsonModel::Null => seq!['n', 'u', 'l', 'l'],
        JsonModel::Bool(b) => if b {
            seq!['t', 'r', 'u', 'e']
        } else {
            seq!['f', 'a', 'l', 's', 'e']
        },
        JsonModel::Number(n) => n,
        JsonModel::String(s) => quoted(s),
        JsonModel::Array(items) => seq!['['] + render_items(items) + seq![']'],
        JsonModel::Object(members) => seq!['{'] + render_members(members) + seq!['}'],
    }
}

/// Items separated by commas.
pub open spec fn render_items(items: Seq<JsonModel>) -> Seq<char>
    decreases items,
{
    if items.len() == 0 {
        Seq::empty()
    } else if items.len() == 1 {
        render(items[0])
    } else {
        render_items(items.drop_last()) + seq![','] + render(items.last())
    }
}

/// Members `"key":value` separated by commas.
pub open spec fn render_members(members: Seq<(Seq<char>, JsonModel)>) -> Seq<char>
    decreases members,
{
    if members.len() == 0 {
        Seq::empty()
    } else if members.len() == 1 {
        quoted(members[0].0) + seq![':'] + render(members[0].1)
    } else {
        render_members(members.drop_last()) + seq![','] + quoted(members.last().0) + seq![':']
            + render(members.last().1)
    }
}

pub proof fn lemma_models_index(items: Seq<Json>)
    ensures
        Json::models(items).len() == items.len(),
        forall|i: int| 0 <= i < items.len() ==> #[trigger] Json::models(items)[i] == items[i].model(),
    decreases items.len(),
{
    if items.len() > 0 {
        lemma_models_index(items.drop_first());
        assert forall|i: int| 0 <= i < items.len() implies #[trigger] Json::models(items)[i]
            == items[i].model() by {
            if i > 0 {
                assert(items.drop_first()[i - 1] == items[i]);
            }
        }
    }
}

pub proof fn lemma_member_models_index(members: Seq<(String, Json)>)
    ensures
        Json::member_models(members).len() == members.len(),
        forall|i: int|
            0 <= i < members.len() ==> #[trigger] Json::member_models(members)[i] == (
            members[i].0@,
            members[i].1.model(),
        ),
    decreases members.len(),
{
    if members.len() > 0 {
        lemma_member_models_index(members.drop_first());
        assert forall|i: int| 0 <= i < members.len() implies #[trigger] Json::member_models(
            members,
        )[i] == (members[i].0@, members[i].1.model()) by {
            if i > 0 {
                assert(members.drop_first()[i - 1] == members[i]);
            }
        }
    }
}

pub proof fn lemma_escaped_push(s: Seq<char>, c: char)
    ensures
        escaped(s.push(c)) == escaped(s) + escaped_char(c),
{
    assert(s.push(c).drop_last() =~= s);
}

/// Appends a string as a JSON string literal.
pub fn write_string(out: &mut String, s: &str)
    ensures
        final(out)@ == old(out)@ + quoted(s@),
{
    push_char(out, '"');
    let ghost start = out@;
    assert(s@.take(0) =~= Seq::<char>::empty());
    for c in it: s.chars()
        invariant
            it.seq() == s@,
            out@ == start + escaped(s@.take(it.index() as int)),
    {
        let ghost before = out@;
        if c == '"' {
            push_char(out, '\\');
            push_char(out, '"');
        } else if c == '\\' {
            push_char(out, '\\');
            push_char(out, '\\');
        } else if c == '\n' {
            push_char(out, '\\');
            push_char(out, 'n');
        } else if c == '\r' {
            push_char(out, '\\');
            push_char(out, 'r');
        } else if c == '\t' {
            push_char(out, '\\');
            push_char(out, 't');
        } else if (c as u32) < 0x20 {
            let code = c as u32;
            push_char(out, '\\');
            push_char(out, 'u');
            push_char(out, '0');
            push_char(out, '0');
            push_char(out, hex_digit_char(code / 16));
            push_char(out, hex_digit_char(code % 16));
        } else {
            push_char(out, c);
        }
        proof {
            let k = it.index() as int;
            assert(s@.take(k + 1) =~= s@.take(k).push(c));
            lemma_escaped_push(s@.take(k), c);
            assert(out@ =~= before + escaped_char(c));
        }
    }
    assert(s@.take(s@.len() as int) =~= s@);
    push_char(out, '"');
    assert(out@ =~= old(out)@ + quoted(s@));
}

fn hex_digit_char(d: u32) -> (c: char)
    requires
        d < 16,
    ensures
        c == hex_char(d as nat),
{
    if d < 10 {
        ((d + 48) as u8) as char
    } else {
        ((d + 87) as u8) as char
    }
}

impl Json {
    /// The compact JSON text of the value.
    pub fn to_string(&self) -> (s: String)
        ensures
            s@ == render(self.model()),
    {
        let mut out = String::new();
        self.write(&mut out);
        out
    }

    fn write(&self, out: &mut String)
        ensures
            final(out)@ == old(out)@ + render(self.model()),
        decreases self,
    {
        let ghost start = out@;
        match self {
            Json::Null => {
                push_char(out, 'n');
                push_char(out, 'u');
                push_char(out, 'l');
                push_char(out, 'l');
            },
            Json::Bool(b) => {
                if *b {
                    push_char(out, 't');
                    push_char(out, 'r');
                    push_char(out, 'u');
                    push_char(out, 'e');
                } else {
                    push_char(out, 'f');
                    push_char(out, 'a');
                    push_char(out, 'l');
                    push_char(out, 's');
                    push_char(out, 'e');
                }
            },
            Json::Number(n) => {
                out.append(n.as_str());
            },
            Json::String(s) => {
                write_string(out, s.as_str());
            },
            Json::Array(items) => {
                push_char(out, '[');
                let ghost ms = Json::models(items@);
                proof {
                    lemma_models_index(items@);
                    assert(ms.take(0) =~= Seq::<JsonModel>::empty());
                }
                let mut i: usize = 0;
                while i < items.len()
                    invariant
                        i <= items@.len(),
                        *self == Json::Array(*items),
                        ms == Json::models(items@),
                        ms.len() == items@.len(),
                        forall|k: int| 0 <= k < items@.len() ==> #[trigger] ms[k] == items@[k].model(),
                        out@ == start + seq!['['] + render_items(ms.take(i as int)),
                    decreases items@.len() - i,
                {
                    if i > 0 {
                        push_char(out, ',');
                    }
                    proof {
                        assert(decreases_to!(*self => (*self)->Array_0));
                        assert(decreases_to!(*items => items@));
                        assert(decreases_to!(items@ => items@[i as int]));
                    }
                    items[i].write(out);
                    proof {
                        assert(ms.take(i + 1).drop_last() =~= ms.take(i as int));
                        if i == 0 {
                            assert(ms.take(1) =~= seq![ms[0]]);
                        }
                    }
                    i += 1;
                }
                push_char(out, ']');
                proof {
                    assert(ms.take(items@.len() as int) =~= ms);
                }
            },
            Json::Object(members) => {
                push_char(out, '{');
                let ghost ms = Json::member_models(members@);
                proof {
                    lemma_member_models_index(members@);
                    assert(ms.take(0) =~= Seq::<(Seq<char>, JsonModel)>::empty());
                }
                let mut i: usize = 0;
                while i < members.len()
                    invariant
                        i <= members@.len(),
                        *self == Json::Object(*members),
                        ms == Json::member_models(members@),
                        ms.len() == members@.len(),
                        forall|k: int|
                            0 <= k < members@.len() ==> #[trigger] ms[k] == (
                                members@[k].0@,
                                members@[k].1.model(),
                            ),
                        out@ == start + seq!['{'] + render_members(ms.take(i as int)),
                    decreases members@.len() - i,
                {
                    if i > 0 {
                        push_char(out, ',');
                    }
                    write_string(out, members[i].0.as_str());
                    push_char(out, ':');
                    proof {
                        assert(decreases_to!(*self => (*self)->Object_0));
                        assert(decreases_to!(*members => members@));
                        assert(decreases_to!(members@ => members@[i as int]));
                        assert(decreases_to!(members@[i as int] => members@[i as int].1));
                    }
                    members[i].1.write(out);
                    proof {
                        assert(ms.take(i + 1).drop_last() =~= ms.take(i as int));
                        if i == 0 {
                            assert(ms.take(1) =~= seq![ms[0]]);
                        }
                    }
                    i += 1;
                }
                push_char(out, '}');
                proof {
                    assert(ms.take(members@.len() as int) =~= ms);
                }
            },
        }
    }
}


/* Reading a parsed value. */

/// The index of the first member with the given key.
pub open spec fn first_key(members: Seq<(Seq<char>, JsonModel)>, key: Seq<char>) -> Option<int>
    decreases members.len(),
{
    if members.len() == 0 {
        None
    } else if members[0].0 == key {
        Some(0)
    } else {
        match first_key(members.drop_first(), key) {
            Some(i) => Some(i + 1),
            None => None,
        }
    }
}

pub proof fn lemma_first_key(members: Seq<(Seq<char>, JsonModel)>, key: Seq<char>)
    ensures
        first_key(members, key) matches Some(i) ==> 0 <= i < members.len() && members[i].0 == key
            && forall|k: int| 0 <= k < i ==> #[trigger] members[k].0 != key,
        first_key(members, key) is None ==> forall|k: int|
            0 <= k < members.len() ==> #[trigger] members[k].0 != key,
    decreases members.len(),
{
    if members.len() > 0 {
        let rest = members.drop_first();
        lemma_first_key(rest, key);
        assert forall|k: int| 0 < k < members.len() implies #[trigger] members[k] == rest[k - 1] by {}
        if members[0].0 != key {
            if let Some(i) = first_key(rest, key) {
                assert(members[i + 1] == rest[i]);
                assert forall|k: int| 0 <= k < i + 1 implies #[trigger] members[k].0 != key by {
                    if k > 0 {
                        assert(members[k] == rest[k - 1]);
                    }
                }
            } else {
                assert forall|k: int| 0 <= k < members.len() implies #[trigger] members[k].0 != key by {
                    if k > 0 {
                        assert(members[k] == rest[k - 1]);
                    }
                }
            }
        }
    }
}

/// The value of a literal made of decimal digits only.
pub open spec fn decimal_value(s: Seq<char>) -> nat
    decreases s.len(),
{
    if s.len() == 0 {
        0
    } else {
        decimal_value(s.drop_last()) * 10 + ((s.last() as u32) - 48) as nat
    }
}

pub open spec fn all_decimal_digits(s: Seq<char>) -> bool {
    &&& s.len() > 0
    &&& forall|i: int| 0 <= i < s.len() ==> '0' <= #[trigger] s[i] <= '9'
}

/// The member of an object with the given key.
pub open spec fn field(v: JsonModel, key: Seq<char>) -> Option<JsonModel> {
    match v {
        JsonModel::Object(ms) => match first_key(ms, key) {
            Some(i) => Some(ms[i].1),
            None => None,
        },
        _ => None,
    }
}

/// A number that `Json::as_usize` reads.
pub open spec fn usize_value(v: JsonModel) -> Option<nat> {
    match v {
        JsonModel::Number(n) => if all_decimal_digits(n) && decimal_value(n) <= usize::MAX {
            Some(decimal_value(n))
        } else {
            None
        },
        _ => None,
    }
}

/// Whether two string slices hold the same chars.
pub fn str_eq(a: &str, b: &str) -> (r: bool)
    ensures
        r == (a@ == b@),
{
    let x = a.as_bytes();
    let y = b.as_bytes();
    proof {
        encode_utf8_decode_utf8(a@);
        encode_utf8_decode_utf8(b@);
    }
    if x.len() != y.len() {
        return false;
    }
    let mut i: usize = 0;
    while i < x.len()
        invariant
            x@ == a.spec_bytes(),
            y@ == b.spec_bytes(),
            x@.len() == y@.len(),
            i <= x@.len(),
            forall|k: int| 0 <= k < i ==> x@[k] == y@[k],
        decreases x@.len() - i,
    {
        if x[i] != y[i] {
            return false;
        }
        i += 1;
    }
    assert(x@ =~= y@);
    true
}

impl Json {
    /// The value of the first member with the given key, when this is an object.
    pub fn get(&self, key: &str) -> (r: Option<&Json>)
        ensures
            match self.model() {
                JsonModel::Object(ms) => match first_key(ms, key@) {
                    Some(i) => r matches Some(j) && j.model() == ms[i].1,
                    None => r is None,
                },
                _ => r is None,
            },
    {
        match self {
            Json::Object(members) => {
                let ghost ms = Json::member_models(members@);
                proof {
                    lemma_member_models_index(members@);
                    lemma_first_key(ms, key@);
                }
                let mut i: usize = 0;
                while i < members.len()
                    invariant
                        i <= members@.len(),
                        *self == Json::Object(*members),
                        ms == Json::member_models(members@),
                        ms.len() == members@.len(),
                        forall|k: int|
                            0 <= k < members@.len() ==> #[trigger] ms[k] == (
                                members@[k].0@,
                                members@[k].1.model(),
                            ),
                        forall|k: int| 0 <= k < i ==> #[trigger] ms[k].0 != key@,
                    decreases members@.len() - i,
                {
                    if str_eq(members[i].0.as_str(), key) {
                        proof {
                            lemma_first_key(ms, key@);
                            assert(ms[i as int].0 == key@);
                            let i0 = first_key(ms, key@)->0;
                            if i0 < i {
                                assert(ms[i0].0 != key@);
                            } else if i0 > i {
                                assert(ms[i as int].0 != key@);
                            }
                        }
                        return Some(&members[i].1);
                    }
                    i += 1;
                }
                None
            },
            _ => None,
        }
    }

    /// The text of a number literal.
    pub fn as_number(&self) -> (r: Option<&str>)
        ensures
            match self.model() {
                JsonModel::Number(n) => r matches Some(s) && s@ == n,
                _ => r is None,
            },
    {
        match self {
            Json::Number(n) => Some(n.as_str()),
            _ => None,
        }
    }

    pub fn as_str(&self) -> (r: Option<&str>)
        ensures
            match self.model() {
                JsonModel::String(s) => r matches Some(t) && t@ == s,
                _ => r is None,
            },
    {
        match self {
            Json::String(s) => Some(s.as_str()),
            _ => None,
        }
    }

    pub fn as_bool(&self) -> (r: Option<bool>)
        ensures
            match self.model() {
                JsonModel::Bool(b) => r == Some(b),
                _ => r is None,
            },
    {
        match self {
            Json::Bool(b) => Some(*b),
            _ => None,
        }
    }

    pub fn as_array(&self) -> (r: Option<&[Json]>)
        ensures
            match self.model() {
                JsonModel::Array(items) => r matches Some(a) && Json::models(a@) == items,
                _ => r is None,
            },
    {
        match self {
            Json::Array(items) => Some(items.as_slice()),
            _ => None,
        }
    }

    pub fn as_object(&self) -> (r: Option<&[(String, Json)]>)
        ensures
            match self.model() {
                JsonModel::Object(members) => r matches Some(m) && Json::member_models(m@)
                    == members,
                _ => r is None,
            },
    {
        match self {
            Json::Object(members) => Some(members.as_slice()),
            _ => None,
        }
    }

    /// A number written with decimal digits only (no sign, fraction or
    /// exponent) whose value fits `usize`.
    pub fn as_usize(&self) -> (r: Option<usize>)
        ensures
            r == (match self.model() {
                JsonModel::Number(n) => if all_decimal_digits(n) && decimal_value(n)
                    <= usize::MAX {
                    Some(decimal_value(n) as usize)
                } else {
                    None
                },
                _ => None::<usize>,
            }),
    {
        match self {
            Json::Number(n) => decimal_usize(n.as_str()),
            _ => None,
        }
    }
}

pub proof fn lemma_decimal_value_grows(s: Seq<char>, k: int)
    requires
        0 <= k <= s.len(),
        forall|i: int| 0 <= i < s.len() ==> '0' <= #[trigger] s[i] <= '9',
    ensures
        decimal_value(s.take(k)) <= decimal_value(s),
    decreases s.len() - k,
{
    if k < s.len() {
        lemma_decimal_value_grows(s, k + 1);
        assert(s.take(k + 1).drop_last() =~= s.take(k));
        assert(s.take(k + 1).last() == s[k]);
    } else {
        assert(s.take(k) =~= s);
    }
}

/// The value of a literal of decimal digits, when it fits `usize`.
fn decimal_usize(s: &str) -> (r: Option<usize>)
    ensures
        r == (if all_decimal_digits(s@) && decimal_value(s@) <= usize::MAX {
            Some(decimal_value(s@) as usize)
        } else {
            None::<usize>
        }),
{
    let mut v: usize = 0;
    assert(s@.take(0) =~= Seq::<char>::empty());
    for c in it: s.chars()
        invariant
            it.seq() == s@,
            forall|i: int| 0 <= i < it.index() ==> '0' <= #[trigger] s@[i] <= '9',
            v == decimal_value(s@.take(it.index() as int)),
    {
        let ghost n = it.index() as int;
        if !('0' <= c && c <= '9') {
            return None;
        }
        let d = (c as u32 - 48) as usize;
        proof {
            assert(s@.take(n + 1).drop_last() =~= s@.take(n as int));
        }
        if v > (usize::MAX - d) / 10 {
            proof {
                assert(decimal_value(s@.take(n + 1)) > usize::MAX);
                if all_decimal_digits(s@) {
                    lemma_decimal_value_grows(s@, n + 1);
                }
            }
            return None;
        }
        v = v * 10 + d;
    }
    proof {
        assert(s@.take(s@.len() as int) =~= s@);
    }
    if s.is_empty() {
        return None;
    }
    Some(v)
}

/// Law: a hex digit reads as its value in base 16, in either case: `0` to
/// `9` are 0 to 9, and `a` to `f` and `A` to `F` are both 10 to 15; no
/// other byte is a hex digit.
pub proof fn law_hex_digits(c: u8)
    ensures
        ('0' as u8) <= c <= ('9' as u8) ==> hex_value(c) == Some((c - 48) as u32),
        ('a' as u8) <= c <= ('f' as u8) ==> hex_value(c) == Some((c - 87) as u32),
        ('A' as u8) <= c <= ('F' as u8) ==> hex_value(c) == Some((c - 55) as u32),
        ('A' as u8) <= c <= ('F' as u8) ==> hex_value(c) == hex_value((c + 32) as u8),
        hex_value(c) is Some <==> (('0' as u8) <= c <= ('9' as u8) || ('a' as u8) <= c <= ('f' as u8)
            || ('A' as u8) <= c <= ('F' as u8)),
        hex_value(c) matches Some(v) ==> v < 16,
{
}

/// Law: the hex digit that the writer puts for a value below 16 reads back
/// as that value, and so does the same digit in upper case.
pub proof fn law_hex_char_reads_back(d: nat)
    requires
        d < 16,
    ensures
        hex_value((hex_char(d) as u32) as u8) == Some(d as u32),
        d >= 10 ==> hex_value(((hex_char(d) as u32) - 32) as u8) == Some(d as u32),
{
}

/// The decimal digits of a number read back as the number.
proof fn lemma_decimal_reads_back(n: nat)
    ensures
        all_decimal_digits(decimal(n)),
        decimal_value(decimal(n)) == n,
    decreases n,
{
    let s = decimal(n);
    if n < 10 {
        assert(s.drop_last() =~= Seq::<char>::empty());
        assert((s.last() as u32) == 48 + n);
        assert(decimal_value(Seq::<char>::empty()) == 0);
        assert(decimal_value(s) == 0 * 10 + n);
    } else {
        lemma_decimal_reads_back(n / 10);
        assert(s.drop_last() =~= decimal(n / 10));
        assert((s.last() as u32) == 48 + n % 10);
        assert forall|i: int| 0 <= i < s.len() implies '0' <= #[trigger] s[i] <= '9' by {
            if i < s.len() - 1 {
                assert(s[i] == decimal(n / 10)[i]);
            }
        }
        assert(decimal_value(s) == (n / 10) * 10 + n % 10);
        assert((n / 10) * 10 + n % 10 == n) by (nonlinear_arith);
    }
}

/// Law: an integer setting reads as the number its digits write: the
/// decimal digits of any number that fits `usize` read as that number, and
/// only a number literal of decimal digits reads as an integer.
pub proof fn law_usize_value(n: nat, v: JsonModel)
    ensures
        n <= usize::MAX ==> usize_value(JsonModel::Number(decimal(n))) == Some(n),
        usize_value(v) matches Some(k) ==> k <= usize::MAX && (v matches JsonModel::Number(t)
            && all_decimal_digits(t) && decimal_value(t) == k),
{
    lemma_decimal_reads_back(n);
}

/// Law: the one-letter escapes stand for the chars JSON gives them: `\"`,
/// `\\` and `\/` for themselves, `\b` backspace, `\f` form feed, `\n` line
/// feed, `\r` carriage return and `\t` tab; each takes one byte after the
/// backslash.
pub proof fn law_simple_escapes(b: Seq<u8>, p: int)
    requires
        0 <= p < b.len(),
    ensures
        b[p] == ('"' as u8) ==> spec_escape(b, p) == Ok::<(char, int), ParseError>(('"', p + 1)),
        b[p] == ('\\' as u8) ==> spec_escape(b, p) == Ok::<(char, int), ParseError>(('\\', p + 1)),
        b[p] == ('/' as u8) ==> spec_escape(b, p) == Ok::<(char, int), ParseError>(('/', p + 1)),
        b[p] == ('b' as u8) ==> spec_escape(b, p) == Ok::<(char, int), ParseError>(('\u{8}', p + 1)),
        b[p] == ('f' as u8) ==> spec_escape(b, p) == Ok::<(char, int), ParseError>(('\u{c}', p + 1)),
        b[p] == ('n' as u8) ==> spec_escape(b, p) == Ok::<(char, int), ParseError>(('\u{a}', p + 1)),
        b[p] == ('r' as u8) ==> spec_escape(b, p) == Ok::<(char, int), ParseError>(('\u{d}', p + 1)),
        b[p] == ('t' as u8) ==> spec_escape(b, p) == Ok::<(char, int), ParseError>(('\u{9}', p + 1)),
{
    reveal(spec_escape);
}

} // verus!
