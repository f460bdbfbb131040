//! Where parsing stops: every position the reader reports lies within the
//! text, and a document that reads leaves only whitespace after its value.
use vstd::prelude::*;

use crate::json::{
    at, is_ws, lemma_digit_run, lemma_escape_end, lemma_skip_ws, number_end, skip_ws, spec_array,
    spec_digits, spec_escape, spec_expect, spec_hex4, spec_items, spec_members, spec_number,
    spec_object, spec_parse, spec_string, spec_unicode_escape, spec_value, string_body,
    JsonModel, Parsed, ParseError,
};

verus! {

/// A reading step stays within the first `n` bytes: an error lies at most
/// at `n`, and the position after what was read lies in `0..=n`.
pub open spec fn within<T>(r: Parsed<T>, n: int) -> bool {
    match r {
        Err(e) => e.pos <= n,
        Ok((_, q)) => 0 <= q <= n,
    }
}

/// The same, for a step that gives only the position after what it read.
pub open spec fn end_within(r: Result<int, ParseError>, n: int) -> bool {
    match r {
        Err(e) => e.pos <= n,
        Ok(q) => 0 <= q <= n,
    }
}

proof fn lemma_expect_within(b: Seq<u8>, p: int, lit: &'static str)
    requires
        0 <= p <= b.len() <= usize::MAX,
    ensures
        end_within(spec_expect(b, p, lit), b.len() as int),
{
}

proof fn lemma_digits_within(b: Seq<u8>, p: int)
    requires
        0 <= p <= b.len() <= usize::MAX,
    ensures
        end_within(spec_digits(b, p), b.len() as int),
{
    lemma_digit_run(b, p);
}

proof fn lemma_number_within(b: Seq<u8>, p: int)
    requires
        0 <= p <= b.len() <= usize::MAX,
    ensures
        end_within(number_end(b, p), b.len() as int),
        within(spec_number(b, p), b.len() as int),
{
    let p1 = if at(b, p, ('-' as u8)) { p + 1 } else { p };
    lemma_digits_within(b, p1);
    lemma_digit_run(b, p1);
    let p2 = if at(b, p1, ('0' as u8)) { p1 + 1 } else { crate::json::digit_run(b, p1) };
    if p2 + 1 <= b.len() {
        lemma_digits_within(b, p2 + 1);
        lemma_digit_run(b, p2 + 1);
    }
    let p3 = if at(b, p2, ('.' as u8)) { crate::json::digit_run(b, p2 + 1) } else { p2 };
    if p3 + 2 <= b.len() {
        lemma_digits_within(b, p3 + 2);
    }
    if p3 + 1 <= b.len() {
        lemma_digits_within(b, p3 + 1);
    }
}

proof fn lemma_hex4_within(b: Seq<u8>, p: int)
    requires
        0 <= p <= b.len() <= usize::MAX,
    ensures
        within(spec_hex4(b, p), b.len() as int),
{
}

proof fn lemma_unicode_within(b: Seq<u8>, p: int)
    requires
        0 <= p <= b.len() <= usize::MAX,
    ensures
        within(spec_unicode_escape(b, p), b.len() as int),
{
    lemma_hex4_within(b, p);
    if let Ok((hi, q1)) = spec_hex4(b, p) {
        lemma_expect_within(b, q1, "\\u");
        if let Ok(q2) = spec_expect(b, q1, "\\u") {
            lemma_hex4_within(b, q2);
        }
    }
}

proof fn lemma_escape_within(b: Seq<u8>, p: int)
    requires
        0 <= p <= b.len() <= usize::MAX,
    ensures
        within(spec_escape(b, p), b.len() as int),
{
    reveal(spec_escape);
    if at(b, p, ('u' as u8)) {
        lemma_unicode_within(b, p + 1);
    }
}

proof fn lemma_body_within(b: Seq<u8>, p: int, run: int, acc: Seq<char>)
    requires
        0 <= p <= b.len() <= usize::MAX,
    ensures
        within(string_body(b, p, run, acc), b.len() as int),
    decreases b.len() - p,
{
    if 0 <= p < b.len() && b[p] != ('"' as u8) {
        if b[p] == ('\\' as u8) {
            lemma_escape_end(b, p + 1);
            lemma_escape_within(b, p + 1);
            if let Ok((c, q)) = spec_escape(b, p + 1) {
                lemma_body_within(b, q, q, acc + vstd::utf8::decode_utf8(b.subrange(run, p)) + seq![c]);
            }
        } else if b[p] >= 0x20 {
            lemma_body_within(b, p + 1, run, acc);
        }
    }
}

proof fn lemma_string_within(b: Seq<u8>, p: int)
    requires
        0 <= p <= b.len() <= usize::MAX,
    ensures
        within(spec_string(b, p), b.len() as int),
{
    lemma_expect_within(b, p, "\"");
    if let Ok(q) = spec_expect(b, p, "\"") {
        lemma_body_within(b, q, q, Seq::empty());
    }
}

proof fn lemma_value_within(b: Seq<u8>, p: int)
    requires
        0 <= p <= b.len() <= usize::MAX,
    ensures
        within(spec_value(b, p), b.len() as int),
    decreases b.len() - p, 1int,
{
    lemma_expect_within(b, p, "null");
    lemma_expect_within(b, p, "true");
    lemma_expect_within(b, p, "false");
    lemma_number_within(b, p);
    lemma_string_within(b, p);
    if at(b, p, ('[' as u8)) {
        lemma_array_within(b, p);
    } else if at(b, p, ('{' as u8)) {
        lemma_object_within(b, p);
    }
}

proof fn lemma_array_within(b: Seq<u8>, p: int)
    requires
        0 <= p <= b.len() <= usize::MAX,
    ensures
        within(spec_array(b, p), b.len() as int),
    decreases b.len() - p, 0int,
{
    if 0 <= p < b.len() {
        let p1 = skip_ws(b, p + 1);
        lemma_skip_ws(b, p + 1);
        if !at(b, p1, (']' as u8)) {
            lemma_items_within(b, p1, Seq::empty());
        }
    }
}

proof fn lemma_items_within(b: Seq<u8>, p: int, acc: Seq<JsonModel>)
    requires
        0 <= p <= b.len() <= usize::MAX,
    ensures
        within(spec_items(b, p, acc), b.len() as int),
    decreases b.len() - p, 2int,
{
    let p1 = skip_ws(b, p);
    lemma_skip_ws(b, p);
    lemma_value_within(b, p1);
    if let Ok((v, q)) = spec_value(b, p1) {
        let r = skip_ws(b, q);
        lemma_skip_ws(b, q);
        if at(b, r, (',' as u8)) && r + 1 > p {
            lemma_items_within(b, r + 1, acc.push(v));
        }
    }
}

proof fn lemma_object_within(b: Seq<u8>, p: int)
    requires
        0 <= p <= b.len() <= usize::MAX,
    ensures
        within(spec_object(b, p), b.len() as int),
    decreases b.len() - p, 0int,
{
    if 0 <= p < b.len() {
        let p1 = skip_ws(b, p + 1);
        lemma_skip_ws(b, p + 1);
        if !at(b, p1, ('}' as u8)) {
            lemma_members_within(b, p1, Seq::empty());
        }
    }
}

proof fn lemma_members_within(b: Seq<u8>, p: int, acc: Seq<(Seq<char>, JsonModel)>)
    requires
        0 <= p <= b.len() <= usize::MAX,
    ensures
        within(spec_members(b, p, acc), b.len() as int),
    decreases b.len() - p, 2int,
{
    let p1 = skip_ws(b, p);
    lemma_skip_ws(b, p);
    lemma_string_within(b, p1);
    if let Ok((key, q1)) = spec_string(b, p1) {
        let r1 = skip_ws(b, q1);
        lemma_skip_ws(b, q1);
        crate::json::lemma_string_advances(b, p1);
        lemma_expect_within(b, r1, ":");
        if let Ok(q2) = spec_expect(b, r1, ":") {
            let r2 = skip_ws(b, q2);
            lemma_skip_ws(b, q2);
            lemma_value_within(b, r2);
            if let Ok((v, q3)) = spec_value(b, r2) {
                let r3 = skip_ws(b, q3);
                lemma_skip_ws(b, q3);
                if at(b, r3, (',' as u8)) && r3 + 1 > p {
                    lemma_members_within(b, r3 + 1, acc.push((key, v)));
                }
            }
        }
    }
}

/// The value that starts after the leading whitespace of `b` reads, and
/// only whitespace follows it.
pub open spec fn only_ws_after_value(b: Seq<u8>) -> bool {
    spec_value(b, skip_ws(b, 0)) matches Ok((v, q)) && 0 <= q <= b.len() && forall|i: int|
        q <= i < b.len() ==> is_ws(#[trigger] b[i])
}

/// Law: reading a document reports no error past its end, and a document
/// that reads is the one value that starts after its leading whitespace,
/// with only whitespace after that value.
pub proof fn law_parse_positions(b: Seq<u8>)
    requires
        b.len() <= usize::MAX,
    ensures
        spec_parse(b) matches Err(e) ==> e.pos <= b.len(),
        spec_parse(b) is Ok ==> only_ws_after_value(b) && spec_parse(b) == Ok::<
            JsonModel,
            ParseError,
        >(spec_value(b, skip_ws(b, 0))->Ok_0.0),
{
    let p = skip_ws(b, 0);
    lemma_skip_ws(b, 0);
    lemma_value_within(b, p);
    if let Ok((v, q)) = spec_value(b, p) {
        lemma_skip_ws(b, q);
    }
}

} // verus!
