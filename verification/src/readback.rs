//! Reading printed text back: the compact text of a value parses as that
//! value again.
use vstd::prelude::*;
use vstd::utf8::*;
use vstd::string::StringSliceAdditionalSpecFns;

use crate::json::{
    at, digit_run, escaped, escaped_char, hex_char, is_digit, is_ws, lemma_ascii_literal,
    lemma_digit_run, lemma_skip_ws, number_end, quoted, render, render_items, render_members,
    representable,
    skip_ws, spec_array, spec_escape, spec_expect, spec_items, spec_members, spec_number,
    spec_object, spec_parse, spec_string, spec_value, string_body, JsonModel, ParseError,
};
use crate::number::{lemma_digit_run_local, lemma_number_end_local};
use crate::text::{
    lemma_boundary_after_ascii, lemma_boundary_at_ascii, lemma_encode_concat,
    lemma_valid_between_boundaries,
};

verus! {

broadcast use vstd::seq::group_seq_axioms;

/// Escaping distributes over concatenation.
proof fn lemma_escaped_concat(a: Seq<char>, b: Seq<char>)
    ensures
        escaped(a + b) == escaped(a) + escaped(b),
    decreases b.len(),
{
    if b.len() == 0 {
        assert(a + b =~= a);
        assert(escaped(a) + escaped(b) =~= escaped(a));
    } else {
        lemma_escaped_concat(a, b.drop_last());
        assert((a + b).drop_last() =~= a + b.drop_last());
        assert((a + b).last() == b.last());
    }
}

/// The encoding of one char is the encoding of its scalar value.
proof fn lemma_encode_one(c: char)
    ensures
        encode_utf8(seq![c]) == encode_scalar(c as u32),
{
    reveal_with_fuel(encode_utf8, 2);
    assert(seq![c].drop_first() =~= Seq::<char>::empty());
    assert(encode_scalar(c as u32) + Seq::<u8>::empty() =~= encode_scalar(c as u32));
}

/// The escaped text of one char is what `escaped_char` writes.
proof fn lemma_escaped_one(c: char)
    ensures
        escaped(seq![c]) == escaped_char(c),
{
    reveal_with_fuel(escaped, 2);
    assert(seq![c].drop_last() =~= Seq::<char>::empty());
    assert(Seq::<char>::empty() + escaped_char(c) =~= escaped_char(c));
}

/// A char written as itself inside quotes.
pub open spec fn plain(c: char) -> bool {
    c != '"' && c != '\\' && (c as u32) >= 0x20
}

/// No byte of a plain char is a quote, a backslash or a control byte.
proof fn lemma_plain_bytes(c: char)
    requires
        plain(c),
    ensures
        forall|i: int|
            0 <= i < encode_utf8(seq![c]).len() ==> {
                let x = #[trigger] encode_utf8(seq![c])[i];
                x != ('"' as u8) && x != ('\\' as u8) && x >= 0x20
            },
{
    let v = c as u32;
    char_is_scalar(c);
    lemma_encode_one(c);
    if has_width_1_encoding(v) {
        assert((v & 0x7F) == v) by (bit_vector)
            requires
                v <= 0x7F,
        ;
    } else {
        assert(0xC0u8 | ((v >> 6) & 0x1F) as u8 >= 0xC0u8) by (bit_vector);
        assert(0xE0u8 | ((v >> 12) & 0x0F) as u8 >= 0xC0u8) by (bit_vector);
        assert(0xF0u8 | ((v >> 18) & 0x7) as u8 >= 0xC0u8) by (bit_vector);
        assert(0x80u8 | (v & 0x3F) as u8 >= 0x80u8) by (bit_vector);
        assert(0x80u8 | ((v >> 6) & 0x3F) as u8 >= 0x80u8) by (bit_vector);
        assert(0x80u8 | ((v >> 12) & 0x3F) as u8 >= 0x80u8) by (bit_vector);
    }
}

/// The hex digit that `hex_char` writes reads back as its value.
proof fn lemma_hex_char(d: nat)
    requires
        d < 16,
    ensures
        crate::json::hex_value(hex_char(d) as u8) == Some(d as u32),
        (hex_char(d) as u32) < 0x80,
{
}

/// The escape sequence of a char that is not plain is ASCII.
proof fn lemma_escape_ascii(c: char)
    requires
        !plain(c),
    ensures
        is_ascii_chars(escaped_char(c)),
        encode_utf8(escaped_char(c)).len() == escaped_char(c).len(),
        escaped_char(c).len() >= 2,
{
    let v = c as u32;
    if (v as nat) < 0x20 && c != '\n' && c != '\r' && c != '\t' {
        lemma_hex_char(v as nat / 16);
        lemma_hex_char(v as nat % 16);
    }
    is_ascii_chars_encode_utf8(escaped_char(c));
}

/// An escape sequence that `escaped_char` writes reads back as its char.
proof fn lemma_escape_reads_back(c: char, b: Seq<u8>, p: int)
    requires
        !plain(c),
        0 <= p,
        p + escaped_char(c).len() <= b.len(),
        b.subrange(p, p + escaped_char(c).len()) == encode_utf8(escaped_char(c)),
    ensures
        is_ascii_chars(escaped_char(c)),
        encode_utf8(escaped_char(c)).len() == escaped_char(c).len(),
        b[p] == ('\\' as u8),
        spec_escape(b, p + 1) == Ok::<(char, int), crate::json::ParseError>(
            (c, p + escaped_char(c).len()),
        ),
{
    reveal(spec_escape);
    let e = escaped_char(c);
    let v = c as u32;
    lemma_escape_ascii(c);
    is_ascii_chars_encode_utf8(e);
    assert forall|i: int| 0 <= i < e.len() implies #[trigger] b[p + i] == e[i] as u8 by {
        assert(b.subrange(p, p + e.len())[i] == b[p + i]);
    }
    if (v as nat) < 0x20 && c != '\n' && c != '\r' && c != '\t' {
        let hi = v as nat / 16;
        let lo = v as nat % 16;
        assert(b[p + 4] == hex_char(hi) as u8);
        assert(b[p + 5] == hex_char(lo) as u8);
        char_u32_cast(c, v);
        assert(((0 * 4096 + 0 * 256 + hi * 16 + lo) as u32) == v);
    }
}

/// Between `p` and `q` the bytes are neither quotes, backslashes nor control
/// bytes: the string body reads over them unchanged.
proof fn lemma_body_skips_plain(b: Seq<u8>, p: int, q: int, run: int, acc: Seq<char>)
    requires
        0 <= p <= q <= b.len(),
        forall|i: int|
            p <= i < q ==> #[trigger] b[i] != ('"' as u8) && b[i] != ('\\' as u8) && b[i] >= 0x20,
    ensures
        string_body(b, p, run, acc) == string_body(b, q, run, acc),
    decreases q - p,
{
    if p < q {
        lemma_body_skips_plain(b, p + 1, q, run, acc);
    }
}

/// A string body whose bytes are the escaped chars `t`, followed by a closing
/// quote, reads as `t`, after the chars already read and those still pending
/// in the raw run.
#[verifier::spinoff_prover]
proof fn lemma_body_reads_back(
    b: Seq<u8>,
    p: int,
    run: int,
    acc: Seq<char>,
    pending: Seq<char>,
    t: Seq<char>,
    q: int,
)
    requires
        0 <= run <= p <= q < b.len(),
        b.subrange(run, p) == encode_utf8(pending),
        b.subrange(p, q) == encode_utf8(escaped(t)),
        b[q] == ('"' as u8),
    ensures
        string_body(b, p, run, acc) == Ok::<(Seq<char>, int), crate::json::ParseError>(
            (acc + pending + t, q + 1),
        ),
    decreases t.len(),
{
    encode_utf8_decode_utf8(pending);
    if t.len() == 0 {
        assert(escaped(t) =~= Seq::<char>::empty());
        assert(acc + pending + t =~= acc + pending);
    } else {
        let c = t[0];
        let rest = t.drop_first();
        assert(t =~= seq![c] + rest);
        lemma_escaped_concat(seq![c], rest);
        lemma_escaped_one(c);
        lemma_encode_concat(escaped_char(c), escaped(rest));
        let x = encode_utf8(escaped_char(c));
        let y = encode_utf8(escaped(rest));
        assert(b.subrange(p, q) == x + y);
        let k = x.len() as int;
        let mid = p + k;
        assert(b.subrange(p, mid) =~= x) by {
            assert forall|i: int| 0 <= i < k implies b.subrange(p, mid)[i] == x[i] by {
                assert(b.subrange(p, q)[i] == b[p + i]);
            }
        }
        assert(b.subrange(mid, q) =~= y) by {
            assert forall|i: int| 0 <= i < y.len() implies b.subrange(mid, q)[i] == y[i] by {
                assert(b.subrange(p, q)[k + i] == b[mid + i]);
            }
        }
        if plain(c) {
            assert(escaped_char(c) =~= seq![c]);
            lemma_plain_bytes(c);
            assert forall|i: int| p <= i < mid implies #[trigger] b[i] != ('"' as u8) && b[i] != (
            '\\' as u8) && b[i] >= 0x20 by {
                assert(b[i] == encode_utf8(seq![c])[i - p]);
            }
            lemma_body_skips_plain(b, p, mid, run, acc);
            lemma_encode_concat(pending, seq![c]);
            assert(b.subrange(run, mid) =~= b.subrange(run, p) + b.subrange(p, mid));
            lemma_body_reads_back(b, mid, run, acc, pending + seq![c], rest, q);
            assert(acc + (pending + seq![c]) + rest =~= acc + pending + t);
        } else {
            lemma_escape_ascii(c);
            lemma_escape_reads_back(c, b, p);
            assert(b.subrange(mid, mid) =~= encode_utf8(Seq::<char>::empty()));
            let acc2 = acc + decode_utf8(b.subrange(run, p)) + seq![c];
            lemma_body_reads_back(b, mid, mid, acc2, Seq::empty(), rest, q);
            assert(acc2 + Seq::<char>::empty() + rest =~= acc + pending + t);
        }
    }
}

/// A quoted string reads back as the string.
pub proof fn lemma_string_reads_back(s: Seq<char>, b: Seq<u8>, p: int)
    requires
        0 <= p,
        p + encode_utf8(quoted(s)).len() <= b.len(),
        b.subrange(p, p + encode_utf8(quoted(s)).len()) == encode_utf8(quoted(s)),
    ensures
        spec_string(b, p) == Ok::<(Seq<char>, int), crate::json::ParseError>(
            (s, p + encode_utf8(quoted(s)).len()),
        ),
{
    let body = encode_utf8(escaped(s));
    lemma_encode_concat(seq!['"'], escaped(s));
    lemma_encode_concat(seq!['"'] + escaped(s), seq!['"']);
    is_ascii_chars_encode_utf8(seq!['"']);
    let quote = encode_utf8(seq!['"']);
    assert(is_ascii_chars(seq!['"']));
    assert(quote.len() == 1 && quote[0] == ('"' as u8));
    let all = encode_utf8(quoted(s));
    assert(all == quote + body + quote);
    let n = all.len() as int;
    assert(n == body.len() + 2);
    let q = p + 1 + body.len();
    assert(b[p] == all[0]);
    assert(b[q] == all[n - 1]);
    assert(b.subrange(p + 1, q) =~= body) by {
        assert forall|i: int| 0 <= i < body.len() implies b.subrange(p + 1, q)[i] == body[i] by {
            assert(b.subrange(p, p + n)[1 + i] == b[p + 1 + i]);
            assert(all[1 + i] == body[i]);
        }
    }
    assert(b.subrange(p + 1, p + 1) =~= encode_utf8(Seq::<char>::empty()));
    crate::json::lemma_expect_quote(b, p);
    reveal_strlit("\"");
    crate::json::lemma_ascii_literal("\"");
    assert(b.subrange(p, p + 1) =~= "\"".spec_bytes());
    lemma_body_reads_back(b, p + 1, p + 1, Seq::empty(), Seq::empty(), s, q);
    assert(Seq::<char>::empty() + Seq::<char>::empty() + s =~= s);
}

/// A byte that may follow a value inside a document: a separator or a
/// closing bracket.
pub open spec fn closer(c: u8) -> bool {
    c == (',' as u8) || c == (']' as u8) || c == ('}' as u8)
}

/// A value may end at `q`: the document ends there or a closer follows.
pub open spec fn ends_value(b: Seq<u8>, q: int) -> bool {
    q == b.len() || (0 <= q < b.len() && closer(b[q]))
}

/// A run of digits cannot pass a position where no digit stands.
proof fn lemma_digit_run_bounded(b: Seq<u8>, x: int, q: int)
    requires
        0 <= x <= q <= b.len(),
        q == b.len() || !is_digit(b[q]),
    ensures
        digit_run(b, x) <= q,
{
    lemma_digit_run(b, x);
    if digit_run(b, x) > q {
        assert(is_digit(b[q]));
    }
}

/// Inside a window that a value ends, a byte that is no closer is found at
/// the same place as in the window on its own.
proof fn lemma_at_window(b: Seq<u8>, p: int, q: int, x: int, c: u8)
    requires
        0 <= p <= x <= q <= b.len(),
        ends_value(b, q),
        !closer(c),
    ensures
        at(b, x, c) == at(b.subrange(p, q), x - p, c),
{
    if x < q {
        assert(b.subrange(p, q)[x - p] == b[x]);
    }
}

/// The run of digits at `x`, in a window that a value ends, is the run in
/// the window on its own.
proof fn lemma_run_window(b: Seq<u8>, p: int, q: int, x: int)
    requires
        0 <= p <= x <= q <= b.len(),
        ends_value(b, q),
    ensures
        digit_run(b, x) == p + digit_run(b.subrange(p, q), x - p),
{
    lemma_digit_run_bounded(b, x, q);
    lemma_digit_run_local(b, p, q, x);
}

/// A number literal placed where a value ends after it reads to its end.
proof fn lemma_number_end_extend(b: Seq<u8>, p: int, q: int)
    requires
        0 <= p <= q <= b.len(),
        number_end(b.subrange(p, q), 0) == Ok::<int, ParseError>(q - p),
        ends_value(b, q),
    ensures
        number_end(b, p) == Ok::<int, ParseError>(q),
{
    let l = b.subrange(p, q);
    let m = q - p;
    crate::json::lemma_number_end(l, 0);
    lemma_at_window(b, p, q, p, ('-' as u8));
    let lp1 = if at(l, 0, ('-' as u8)) { 1int } else { 0int };
    let p1 = p + lp1;
    lemma_at_window(b, p, q, p1, ('0' as u8));
    lemma_run_window(b, p, q, p1);
    lemma_digit_run(l, lp1);
    let lp2 = if at(l, lp1, ('0' as u8)) { lp1 + 1 } else { digit_run(l, lp1) };
    let p2 = p + lp2;
    assert(lp2 <= m);
    lemma_at_window(b, p, q, p2, ('.' as u8));
    let dot = at(l, lp2, ('.' as u8));
    if dot {
        lemma_run_window(b, p, q, p2 + 1);
        lemma_digit_run(l, lp2 + 1);
    }
    let lp3 = if dot { digit_run(l, lp2 + 1) } else { lp2 };
    let p3 = p + lp3;
    assert(lp3 <= m);
    lemma_at_window(b, p, q, p3, ('e' as u8));
    lemma_at_window(b, p, q, p3, ('E' as u8));
    if at(l, lp3, ('e' as u8)) || at(l, lp3, ('E' as u8)) {
        lemma_at_window(b, p, q, p3 + 1, ('+' as u8));
        lemma_at_window(b, p, q, p3 + 1, ('-' as u8));
        let sign = at(l, lp3 + 1, ('+' as u8)) || at(l, lp3 + 1, ('-' as u8));
        let lp4 = if sign { lp3 + 2 } else { lp3 + 1 };
        lemma_digit_run(l, lp4);
        assert(lp4 <= m);
        lemma_run_window(b, p, q, p + lp4);
    }
}

/// A number literal starts with a minus sign or a digit.
proof fn lemma_number_starts(l: Seq<u8>)
    requires
        number_end(l, 0) == Ok::<int, ParseError>(l.len() as int),
    ensures
        l.len() > 0,
        l[0] == ('-' as u8) || is_digit(l[0]),
{
    lemma_digit_run(l, 0);
    crate::json::lemma_number_end(l, 0);
}

/// A number literal that reads as a finite double, placed where a value
/// ends after it, reads back as itself.
proof fn lemma_number_reads_back(n: Seq<char>, b: Seq<u8>, p: int)
    requires
        number_end(encode_utf8(n), 0) == Ok::<int, ParseError>(encode_utf8(n).len() as int),
        representable(encode_utf8(n)),
        0 <= p,
        p + encode_utf8(n).len() <= b.len(),
        b.subrange(p, p + encode_utf8(n).len()) == encode_utf8(n),
        ends_value(b, p + encode_utf8(n).len()),
    ensures
        spec_number(b, p) == Ok::<(JsonModel, int), ParseError>(
            (JsonModel::Number(n), p + encode_utf8(n).len()),
        ),
{
    let q = p + encode_utf8(n).len();
    lemma_number_end_extend(b, p, q);
    encode_utf8_decode_utf8(n);
}

/* Values. */

/// Each number literal of the value reads as a finite double, as in every
/// value that `parse` gives.
pub open spec fn readable(v: JsonModel) -> bool
    decreases v,
{
    match v {
        JsonModel::Number(n) => number_end(encode_utf8(n), 0) == Ok::<int, ParseError>(
            encode_utf8(n).len() as int,
        ) && representable(encode_utf8(n)),
        JsonModel::Array(items) => readable_items(items),
        JsonModel::Object(members) => readable_members(members),
        _ => true,
    }
}

/// Each item is readable.
pub open spec fn readable_items(items: Seq<JsonModel>) -> bool
    decreases items,
{
    if items.len() == 0 {
        true
    } else {
        readable_items(items.drop_last()) && readable(items.last())
    }
}

/// Each member's value is readable.
pub open spec fn readable_members(members: Seq<(Seq<char>, JsonModel)>) -> bool
    decreases members,
{
    if members.len() == 0 {
        true
    } else {
        readable_members(members.drop_last()) && readable(members.last().1)
    }
}

/// The bytes of the compact text of a value.
pub open spec fn text(v: JsonModel) -> Seq<u8> {
    encode_utf8(render(v))
}

proof fn lemma_readable_items(items: Seq<JsonModel>)
    ensures
        readable_items(items) <==> forall|i: int| 0 <= i < items.len() ==> #[trigger] readable(items[i]),
    decreases items.len(),
{
    if items.len() > 0 {
        let d = items.drop_last();
        lemma_readable_items(d);
        assert forall|i: int| 0 <= i < d.len() implies d[i] == items[i] by {}
        if readable_items(items) {
            assert forall|i: int| 0 <= i < items.len() implies #[trigger] readable(items[i]) by {
                if i < d.len() {
                    assert(readable(d[i]));
                }
            }
        }
        if forall|i: int| 0 <= i < items.len() ==> #[trigger] readable(items[i]) {
            assert forall|i: int| 0 <= i < d.len() implies #[trigger] readable(d[i]) by {
                assert(readable(items[i]));
            }
            assert(readable(items[items.len() - 1]));
        }
    }
}

proof fn lemma_readable_members(members: Seq<(Seq<char>, JsonModel)>)
    ensures
        readable_members(members) <==> forall|i: int|
            0 <= i < members.len() ==> #[trigger] readable(members[i].1),
    decreases members.len(),
{
    if members.len() > 0 {
        let d = members.drop_last();
        lemma_readable_members(d);
        assert forall|i: int| 0 <= i < d.len() implies d[i] == members[i] by {}
        if readable_members(members) {
            assert forall|i: int| 0 <= i < members.len() implies #[trigger] readable(members[i].1) by {
                if i < d.len() {
                    assert(readable(d[i].1));
                }
            }
        }
        if forall|i: int| 0 <= i < members.len() ==> #[trigger] readable(members[i].1) {
            assert forall|i: int| 0 <= i < d.len() implies #[trigger] readable(d[i].1) by {
                assert(readable(members[i].1));
            }
            assert(readable(members[members.len() - 1].1));
        }
    }
}

/// Items written from the first on: the first item, then a comma and the rest.
proof fn lemma_render_items_first(items: Seq<JsonModel>)
    requires
        items.len() >= 2,
    ensures
        render_items(items) == render(items[0]) + seq![','] + render_items(items.drop_first()),
    decreases items.len(),
{
    let d = items.drop_last();
    let rest = items.drop_first();
    assert(render_items(items) == render_items(d) + seq![','] + render(items.last()));
    if items.len() == 2 {
        assert(render_items(d) == render(d[0]));
        assert(render_items(rest) == render(rest[0]));
    } else {
        lemma_render_items_first(d);
        assert(d.drop_first() =~= rest.drop_last());
        assert(render_items(rest) == render_items(rest.drop_last()) + seq![','] + render(rest.last()));
        assert(render_items(items) =~= render(items[0]) + seq![','] + render_items(rest));
    }
}

/// The text of a member: its key quoted, a colon, then its value.
pub open spec fn member_text(m: (Seq<char>, JsonModel)) -> Seq<char> {
    quoted(m.0) + seq![':'] + render(m.1)
}

/// Members written from the first on: the first member, then a comma and the rest.
proof fn lemma_render_members_first(members: Seq<(Seq<char>, JsonModel)>)
    requires
        members.len() >= 1,
    ensures
        members.len() == 1 ==> render_members(members) == member_text(members[0]),
        members.len() >= 2 ==> render_members(members) == member_text(members[0]) + seq![',']
            + render_members(members.drop_first()),
    decreases members.len(),
{
    let d = members.drop_last();
    let rest = members.drop_first();
    if members.len() >= 2 {
        assert(render_members(members) == render_members(d) + seq![','] + quoted(
            members.last().0,
        ) + seq![':'] + render(members.last().1));
        if members.len() == 2 {
            assert(render_members(d) == member_text(d[0]));
            assert(render_members(rest) == member_text(rest[0]));
            assert(render_members(members) =~= member_text(members[0]) + seq![','] + render_members(
                rest,
            ));
        } else {
            lemma_render_members_first(d);
            assert(d.drop_first() =~= rest.drop_last());
            assert(render_members(rest) == render_members(rest.drop_last()) + seq![','] + quoted(
                rest.last().0,
            ) + seq![':'] + render(rest.last().1));
            assert(render_members(members) =~= member_text(members[0]) + seq![','] + render_members(
                rest,
            ));
        }
    }
}

/// A window that holds `x + y` holds `x`, then `y`.
proof fn lemma_split_window(b: Seq<u8>, p: int, x: Seq<u8>, y: Seq<u8>)
    requires
        0 <= p,
        p + x.len() + y.len() <= b.len(),
        b.subrange(p, p + x.len() + y.len()) == x + y,
    ensures
        b.subrange(p, p + x.len()) == x,
        b.subrange(p + x.len(), p + x.len() + y.len()) == y,
{
    assert forall|i: int| 0 <= i < x.len() implies b.subrange(p, p + x.len())[i] == x[i] by {
        assert(b.subrange(p, p + x.len() + y.len())[i] == b[p + i]);
    }
    assert forall|i: int| 0 <= i < y.len() implies b.subrange(
        p + x.len(),
        p + x.len() + y.len(),
    )[i] == y[i] by {
        assert(b.subrange(p, p + x.len() + y.len())[x.len() + i] == b[p + x.len() + i]);
    }
    assert(b.subrange(p, p + x.len()) =~= x);
    assert(b.subrange(p + x.len(), p + x.len() + y.len()) =~= y);
}

/// The encoding of one ASCII char is its byte.
proof fn lemma_ascii_byte(c: char)
    requires
        (c as u32) < 0x80,
    ensures
        encode_utf8(seq![c]) == seq![c as u8],
{
    assert(is_ascii_chars(seq![c]));
    is_ascii_chars_encode_utf8(seq![c]);
    assert(encode_utf8(seq![c]) =~= seq![c as u8]);
}

/// A value's text starts with a byte that is not whitespace.
proof fn lemma_text_start(v: JsonModel)
    requires
        readable(v),
    ensures
        text(v).len() > 0,
        !is_ws(text(v)[0]),
        v is Number ==> text(v)[0] == ('-' as u8) || is_digit(text(v)[0]),
        v is String ==> text(v)[0] == ('"' as u8),
        v is Array ==> text(v)[0] == ('[' as u8),
        v is Object ==> text(v)[0] == ('{' as u8),
        v is Null ==> text(v)[0] == ('n' as u8),
        v is Bool ==> text(v)[0] == ('t' as u8) || text(v)[0] == ('f' as u8),
{
    let r = render(v);
    match v {
        JsonModel::Number(n) => {
            lemma_number_starts(encode_utf8(n));
        },
        _ => {
            assert(r.len() > 0);
            let first = r[0];
            assert((first as u32) < 0x80);
            lemma_encode_concat(seq![first], r.drop_first());
            assert(seq![first] + r.drop_first() =~= r);
            lemma_ascii_byte(first);
        },
    }
}

/// An ASCII literal in the text is found by `spec_expect`.
proof fn lemma_literal_reads_back(lit: &'static str, b: Seq<u8>, p: int)
    requires
        is_ascii_chars(lit@),
        0 <= p,
        p + encode_utf8(lit@).len() <= b.len(),
        b.subrange(p, p + encode_utf8(lit@).len()) == encode_utf8(lit@),
    ensures
        spec_expect(b, p, lit) == Ok::<int, ParseError>(p + encode_utf8(lit@).len()),
{
    lemma_ascii_literal(lit);
    is_ascii_chars_encode_utf8(lit@);
    assert(b.subrange(p, p + lit@.len()) =~= lit.spec_bytes());
}

/// Whitespace is skipped only where it stands.
proof fn lemma_no_ws(b: Seq<u8>, x: int)
    requires
        0 <= x < b.len(),
        !is_ws(b[x]),
    ensures
        skip_ws(b, x) == x,
{
}

/// The text of a value, placed where a value ends after it, reads back as
/// the value.
pub proof fn lemma_value_reads_back(v: JsonModel, b: Seq<u8>, p: int)
    requires
        readable(v),
        0 <= p,
        p + text(v).len() <= b.len(),
        b.subrange(p, p + text(v).len()) == text(v),
        ends_value(b, p + text(v).len()),
    ensures
        spec_value(b, p) == Ok::<(JsonModel, int), ParseError>((v, p + text(v).len())),
    decreases v, 2int,
{
    lemma_text_start(v);
    let t = text(v);
    let q = p + t.len();
    assert(b[p] == t[0]) by {
        assert(b.subrange(p, q)[0] == b[p]);
    }
    match v {
        JsonModel::Null => {
            reveal_strlit("null");
            assert("null"@ =~= render(v));
            lemma_literal_reads_back("null", b, p);
        },
        JsonModel::Bool(x) => {
            if x {
                reveal_strlit("true");
                assert("true"@ =~= render(v));
                lemma_literal_reads_back("true", b, p);
                is_ascii_chars_encode_utf8("true"@);
                assert(t[0] == ('t' as u8));
            } else {
                reveal_strlit("false");
                assert("false"@ =~= render(v));
                lemma_literal_reads_back("false", b, p);
                is_ascii_chars_encode_utf8("false"@);
                assert(t[0] == ('f' as u8));
            }
        },
        JsonModel::Number(n) => {
            lemma_number_reads_back(n, b, p);
        },
        JsonModel::String(st) => {
            lemma_string_reads_back(st, b, p);
        },
        JsonModel::Array(items) => {
            lemma_array_reads_back(items, b, p);
        },
        JsonModel::Object(members) => {
            lemma_object_reads_back(members, b, p);
        },
    }
}

/// The text of an array reads back as the array.
proof fn lemma_array_reads_back(items: Seq<JsonModel>, b: Seq<u8>, p: int)
    requires
        readable_items(items),
        0 <= p,
        p + text(JsonModel::Array(items)).len() <= b.len(),
        b.subrange(p, p + text(JsonModel::Array(items)).len()) == text(JsonModel::Array(items)),
    ensures
        spec_array(b, p) == Ok::<(JsonModel, int), ParseError>(
            (JsonModel::Array(items), p + text(JsonModel::Array(items)).len()),
        ),
    decreases items, 1int,
{
    let t = text(JsonModel::Array(items));
    let q = p + t.len();
    let inner = encode_utf8(render_items(items));
    lemma_encode_concat(seq!['['], render_items(items));
    lemma_encode_concat(seq!['['] + render_items(items), seq![']']);
    lemma_ascii_byte('[');
    lemma_ascii_byte(']');
    assert(t == seq!['[' as u8] + inner + seq![']' as u8]);
    lemma_split_window(b, p, seq!['[' as u8] + inner, seq![']' as u8]);
    lemma_split_window(b, p, seq!['[' as u8], inner);
    assert(b[q - 1] == (']' as u8)) by {
        assert(b.subrange(q - 1, q)[0] == b[q - 1]);
    }
    if items.len() == 0 {
        assert(inner.len() == 0);
        lemma_no_ws(b, p + 1);
        assert(items =~= Seq::<JsonModel>::empty());
    } else {
        lemma_readable_items(items);
        lemma_text_start(items[0]);
        let t0 = text(items[0]);
        if items.len() == 1 {
            assert(inner == t0);
        } else {
            lemma_render_items_first(items);
            assert(render_items(items) =~= render(items[0]) + (seq![','] + render_items(
                items.drop_first(),
            )));
            lemma_encode_concat(render(items[0]), seq![','] + render_items(items.drop_first()));
        }
        assert(b[p + 1] == inner[0]) by {
            assert(b.subrange(p + 1, p + 1 + inner.len())[0] == b[p + 1]);
        }
        lemma_no_ws(b, p + 1);
        lemma_items_read_back(items, b, p + 1, Seq::empty());
        assert(Seq::<JsonModel>::empty() + items =~= items);
    }
}

/// The text of an object reads back as the object.
proof fn lemma_object_reads_back(members: Seq<(Seq<char>, JsonModel)>, b: Seq<u8>, p: int)
    requires
        readable_members(members),
        0 <= p,
        p + text(JsonModel::Object(members)).len() <= b.len(),
        b.subrange(p, p + text(JsonModel::Object(members)).len()) == text(
            JsonModel::Object(members),
        ),
    ensures
        spec_object(b, p) == Ok::<(JsonModel, int), ParseError>(
            (JsonModel::Object(members), p + text(JsonModel::Object(members)).len()),
        ),
    decreases members, 1int,
{
    let t = text(JsonModel::Object(members));
    let q = p + t.len();
    let inner = encode_utf8(render_members(members));
    lemma_encode_concat(seq!['{'], render_members(members));
    lemma_encode_concat(seq!['{'] + render_members(members), seq!['}']);
    lemma_ascii_byte('{');
    lemma_ascii_byte('}');
    assert(t == seq!['{' as u8] + inner + seq!['}' as u8]);
    lemma_split_window(b, p, seq!['{' as u8] + inner, seq!['}' as u8]);
    lemma_split_window(b, p, seq!['{' as u8], inner);
    assert(b[q - 1] == ('}' as u8)) by {
        assert(b.subrange(q - 1, q)[0] == b[q - 1]);
    }
    if members.len() == 0 {
        assert(inner.len() == 0);
        lemma_no_ws(b, p + 1);
        assert(members =~= Seq::<(Seq<char>, JsonModel)>::empty());
    } else {
        lemma_readable_members(members);
        lemma_render_members_first(members);
        let m0 = members[0];
        assert(member_text(m0) =~= quoted(m0.0) + (seq![':'] + render(m0.1)));
        lemma_encode_concat(quoted(m0.0), seq![':'] + render(m0.1));
        if members.len() >= 2 {
            assert(render_members(members) =~= member_text(m0) + (seq![','] + render_members(
                members.drop_first(),
            )));
            lemma_encode_concat(member_text(m0), seq![','] + render_members(members.drop_first()));
        }
        lemma_encode_concat(seq!['"'], escaped(m0.0));
        lemma_encode_concat(seq!['"'] + escaped(m0.0), seq!['"']);
        lemma_ascii_byte('"');
        assert(b[p + 1] == inner[0]) by {
            assert(b.subrange(p + 1, p + 1 + inner.len())[0] == b[p + 1]);
        }
        lemma_no_ws(b, p + 1);
        lemma_members_read_back(members, b, p + 1, Seq::empty());
        assert(Seq::<(Seq<char>, JsonModel)>::empty() + members =~= members);
    }
}

/// The text of nonempty items, followed by `]`, reads back as those items
/// after the ones already read.
proof fn lemma_items_read_back(items: Seq<JsonModel>, b: Seq<u8>, p: int, acc: Seq<JsonModel>)
    requires
        items.len() > 0,
        forall|i: int| 0 <= i < items.len() ==> #[trigger] readable(items[i]),
        0 <= p,
        p + encode_utf8(render_items(items)).len() < b.len(),
        b.subrange(p, p + encode_utf8(render_items(items)).len()) == encode_utf8(render_items(items)),
        b[p + encode_utf8(render_items(items)).len()] == (']' as u8),
    ensures
        spec_items(b, p, acc) == Ok::<(JsonModel, int), ParseError>(
            (JsonModel::Array(acc + items), p + encode_utf8(render_items(items)).len() + 1),
        ),
    decreases items, 0int,
{
    let first = items[0];
    let t0 = text(first);
    let all = encode_utf8(render_items(items));
    assert(readable(first));
    lemma_text_start(first);
    assert(b[p] == all[0]) by {
        assert(b.subrange(p, p + all.len())[0] == b[p]);
    }
    if items.len() == 1 {
        assert(render_items(items) == render(first));
        lemma_no_ws(b, p);
        lemma_value_reads_back(first, b, p);
        lemma_no_ws(b, p + all.len());
        assert(acc.push(first) =~= acc + items);
    } else {
        let rest = items.drop_first();
        let tr = encode_utf8(render_items(rest));
        lemma_render_items_first(items);
        assert(render_items(items) =~= render(first) + (seq![','] + render_items(rest)));
        lemma_encode_concat(render(first), seq![','] + render_items(rest));
        lemma_encode_concat(seq![','], render_items(rest));
        lemma_ascii_byte(',');
        assert(all == t0 + (seq![',' as u8] + tr));
        lemma_split_window(b, p, t0, seq![',' as u8] + tr);
        lemma_split_window(b, p + t0.len(), seq![',' as u8], tr);
        let c = p + t0.len();
        assert(b[c] == (',' as u8)) by {
            assert(b.subrange(c, c + 1)[0] == b[c]);
        }
        lemma_no_ws(b, p);
        lemma_value_reads_back(first, b, p);
        lemma_no_ws(b, c);
        assert forall|i: int| 0 <= i < rest.len() implies #[trigger] readable(rest[i]) by {
            assert(rest[i] == items[i + 1]);
        }
        lemma_items_read_back(rest, b, c + 1, acc.push(first));
        assert(acc.push(first) + rest =~= acc + items);
    }
}

/// The text of nonempty members, followed by `}`, reads back as those
/// members after the ones already read.
proof fn lemma_members_read_back(
    members: Seq<(Seq<char>, JsonModel)>,
    b: Seq<u8>,
    p: int,
    acc: Seq<(Seq<char>, JsonModel)>,
)
    requires
        members.len() > 0,
        forall|i: int| 0 <= i < members.len() ==> #[trigger] readable(members[i].1),
        0 <= p,
        p + encode_utf8(render_members(members)).len() < b.len(),
        b.subrange(p, p + encode_utf8(render_members(members)).len()) == encode_utf8(
            render_members(members),
        ),
        b[p + encode_utf8(render_members(members)).len()] == ('}' as u8),
    ensures
        spec_members(b, p, acc) == Ok::<(JsonModel, int), ParseError>(
            (JsonModel::Object(acc + members), p + encode_utf8(render_members(members)).len() + 1),
        ),
    decreases members, 0int,
{
    let (key, val) = members[0];
    let all = encode_utf8(render_members(members));
    let tk = encode_utf8(quoted(key));
    let tv = text(val);
    assert(readable(val));
    lemma_text_start(val);
    lemma_render_members_first(members);
    assert(member_text(members[0]) =~= quoted(key) + (seq![':'] + render(val)));
    lemma_encode_concat(quoted(key), seq![':'] + render(val));
    lemma_encode_concat(seq![':'], render(val));
    lemma_ascii_byte(':');
    let mt = encode_utf8(member_text(members[0]));
    assert(mt == tk + (seq![':' as u8] + tv));
    let rest = members.drop_first();
    let tail = if members.len() == 1 {
        Seq::<u8>::empty()
    } else {
        seq![',' as u8] + encode_utf8(render_members(rest))
    };
    if members.len() >= 2 {
        assert(render_members(members) =~= member_text(members[0]) + (seq![','] + render_members(
            rest,
        )));
        lemma_encode_concat(member_text(members[0]), seq![','] + render_members(rest));
        lemma_encode_concat(seq![','], render_members(rest));
        lemma_ascii_byte(',');
    }
    assert(all == mt + tail);
    lemma_split_window(b, p, mt, tail);
    lemma_split_window(b, p, tk, seq![':' as u8] + tv);
    lemma_split_window(b, p + tk.len(), seq![':' as u8], tv);
    let c1 = p + tk.len();
    let c2 = c1 + 1;
    let c3 = c2 + tv.len();
    lemma_encode_concat(seq!['"'], escaped(key));
    lemma_encode_concat(seq!['"'] + escaped(key), seq!['"']);
    lemma_ascii_byte('"');
    assert(b[p] == tk[0]) by {
        assert(b.subrange(p, p + tk.len())[0] == b[p]);
    }
    assert(b[c1] == (':' as u8)) by {
        assert(b.subrange(c1, c1 + 1 + tv.len())[0] == b[c1]);
    }
    assert(b[c2] == tv[0]) by {
        assert(b.subrange(c2, c3)[0] == b[c2]);
    }
    lemma_no_ws(b, p);
    lemma_string_reads_back(key, b, p);
    lemma_no_ws(b, c1);
    reveal_strlit(":");
    assert(":"@ =~= seq![':']);
    lemma_literal_reads_back(":", b, c1);
    lemma_no_ws(b, c2);
    if members.len() == 1 {
        assert(b[c3] == ('}' as u8));
        lemma_value_reads_back(val, b, c2);
        lemma_no_ws(b, c3);
        assert(acc.push((key, val)) =~= acc + members);
    } else {
        assert(b[c3] == (',' as u8)) by {
            assert(b.subrange(c3, p + all.len())[0] == b[c3]);
        }
        lemma_value_reads_back(val, b, c2);
        lemma_no_ws(b, c3);
        let tr = encode_utf8(render_members(rest));
        lemma_split_window(b, c3, seq![',' as u8], tr);
        assert forall|i: int| 0 <= i < rest.len() implies #[trigger] readable(rest[i].1) by {
            assert(rest[i] == members[i + 1]);
        }
        lemma_members_read_back(rest, b, c3 + 1, acc.push((key, val)));
        assert(acc.push((key, val)) + rest =~= acc + members);
    }
}

/// Law: the compact text of a value parses back as that value, whenever
/// each of its number literals reads as a finite double, as those of every
/// parsed value do.
pub proof fn law_parse_render(v: JsonModel)
    requires
        readable(v),
    ensures
        spec_parse(encode_utf8(render(v))) == Ok::<JsonModel, ParseError>(v),
{
    let b = text(v);
    lemma_text_start(v);
    assert(b.subrange(0, b.len() as int) =~= b);
    lemma_no_ws(b, 0);
    lemma_value_reads_back(v, b, 0);
}

/* Parsed values are readable. */

/// A number literal that the parser accepts reads as a finite double on its
/// own.
proof fn lemma_number_readable(b: Seq<u8>, p: int)
    requires
        valid_utf8(b),
        0 <= p,
    ensures
        spec_number(b, p) matches Ok((v, q)) ==> readable(v),
{
    if let Ok(q) = number_end(b, p) {
        if p <= b.len() {
            crate::json::lemma_number_end(b, p);
            let l = b.subrange(p, q);
            lemma_boundary_at_ascii(b, p);
            lemma_boundary_after_ascii(b, q);
            lemma_valid_between_boundaries(b, p, q);
            decode_utf8_encode_utf8(l);
            lemma_number_end_local(b, p, q);
        }
    }
}

/// Every value the parser gives is readable.
proof fn lemma_value_readable(b: Seq<u8>, p: int)
    requires
        valid_utf8(b),
        0 <= p,
    ensures
        spec_value(b, p) matches Ok((v, q)) ==> readable(v) && p < q <= b.len(),
    decreases b.len() - p, 1int,
{
    if at(b, p, ('n' as u8)) || at(b, p, ('t' as u8)) || at(b, p, ('f' as u8)) {
        reveal_strlit("null");
        reveal_strlit("true");
        reveal_strlit("false");
        crate::json::lemma_expect_advances(b, p, "null");
        crate::json::lemma_expect_advances(b, p, "true");
        crate::json::lemma_expect_advances(b, p, "false");
    } else if at(b, p, ('-' as u8)) || (0 <= p < b.len() && is_digit(b[p])) {
        lemma_number_readable(b, p);
        crate::json::lemma_number_end(b, p);
    } else if at(b, p, ('"' as u8)) {
        crate::json::lemma_string_advances(b, p);
        lemma_string_bound(b, p);
    } else if at(b, p, ('[' as u8)) {
        lemma_array_readable(b, p);
    } else if at(b, p, ('{' as u8)) {
        lemma_object_readable(b, p);
    }
}

/// A string the parser reads ends inside the text.
proof fn lemma_string_bound(b: Seq<u8>, p: int)
    requires
        0 <= p,
    ensures
        spec_string(b, p) matches Ok((s, q)) ==> q <= b.len(),
{
    crate::json::lemma_expect_quote(b, p);
    if let Ok(q0) = spec_expect(b, p, "\"") {
        lemma_body_bound(b, q0, q0, Seq::empty());
    }
}

/// A string body the parser reads ends inside the text.
proof fn lemma_body_bound(b: Seq<u8>, p: int, run: int, acc: Seq<char>)
    ensures
        string_body(b, p, run, acc) matches Ok((s, q)) ==> q <= b.len(),
    decreases b.len() - p,
{
    if 0 <= p < b.len() && b[p] != ('"' as u8) {
        if b[p] == ('\\' as u8) {
            crate::json::lemma_escape_end(b, p + 1);
            if let Ok((c, q)) = spec_escape(b, p + 1) {
                lemma_body_bound(b, q, q, acc + decode_utf8(b.subrange(run, p)) + seq![c]);
            }
        } else if b[p] >= 0x20 {
            lemma_body_bound(b, p + 1, run, acc);
        }
    }
}

proof fn lemma_array_readable(b: Seq<u8>, p: int)
    requires
        valid_utf8(b),
        0 <= p,
    ensures
        spec_array(b, p) matches Ok((v, q)) ==> readable(v) && p < q <= b.len(),
    decreases b.len() - p, 0int,
{
    if 0 <= p < b.len() {
        let p1 = skip_ws(b, p + 1);
        lemma_skip_ws(b, p + 1);
        if !at(b, p1, (']' as u8)) {
            lemma_items_readable(b, p1, Seq::empty());
        }
    }
}

proof fn lemma_items_readable(b: Seq<u8>, p: int, acc: Seq<JsonModel>)
    requires
        valid_utf8(b),
        0 <= p,
        readable_items(acc),
    ensures
        spec_items(b, p, acc) matches Ok((v, q)) ==> readable(v) && p < q <= b.len(),
    decreases b.len() - p, 2int,
{
    let p1 = skip_ws(b, p);
    lemma_skip_ws(b, p);
    lemma_value_readable(b, p1);
    if let Ok((v, q)) = spec_value(b, p1) {
        let r = skip_ws(b, q);
        lemma_skip_ws(b, q);
        assert(acc.push(v).drop_last() =~= acc);
        if at(b, r, (',' as u8)) {
            if r + 1 > p {
                lemma_items_readable(b, r + 1, acc.push(v));
            }
        }
    }
}

proof fn lemma_object_readable(b: Seq<u8>, p: int)
    requires
        valid_utf8(b),
        0 <= p,
    ensures
        spec_object(b, p) matches Ok((v, q)) ==> readable(v) && p < q <= b.len(),
    decreases b.len() - p, 0int,
{
    if 0 <= p < b.len() {
        let p1 = skip_ws(b, p + 1);
        lemma_skip_ws(b, p + 1);
        if !at(b, p1, ('}' as u8)) {
            lemma_members_readable(b, p1, Seq::empty());
        }
    }
}

proof fn lemma_members_readable(b: Seq<u8>, p: int, acc: Seq<(Seq<char>, JsonModel)>)
    requires
        valid_utf8(b),
        0 <= p,
        readable_members(acc),
    ensures
        spec_members(b, p, acc) matches Ok((v, q)) ==> readable(v) && p < q <= b.len(),
    decreases b.len() - p, 2int,
{
    let p1 = skip_ws(b, p);
    lemma_skip_ws(b, p);
    if let Ok((key, q1)) = spec_string(b, p1) {
        let r1 = skip_ws(b, q1);
        crate::json::lemma_string_advances(b, p1);
        lemma_string_bound(b, p1);
        lemma_skip_ws(b, q1);
        if let Ok(q2) = spec_expect(b, r1, ":") {
            let r2 = skip_ws(b, q2);
            lemma_skip_ws(b, q2);
            reveal_strlit(":");
            crate::json::lemma_expect_advances(b, r1, ":");
            lemma_value_readable(b, r2);
            if let Ok((v, q3)) = spec_value(b, r2) {
                let r3 = skip_ws(b, q3);
                lemma_skip_ws(b, q3);
                assert(acc.push((key, v)).drop_last() =~= acc);
                if at(b, r3, (',' as u8)) {
                    if r3 + 1 > p {
                        lemma_members_readable(b, r3 + 1, acc.push((key, v)));
                    }
                }
            }
        }
    }
}

/// Law: printing a parsed value and parsing the text gives the same value
/// back.
pub proof fn law_reparse(b: Seq<u8>)
    requires
        valid_utf8(b),
        spec_parse(b) is Ok,
    ensures
        spec_parse(encode_utf8(render(spec_parse(b)->Ok_0))) == spec_parse(b),
{
    let p = skip_ws(b, 0);
    lemma_skip_ws(b, 0);
    lemma_value_readable(b, p);
    law_parse_render(spec_parse(b)->Ok_0);
}

/// Law: each number literal of a parsed value reads as a finite double.
pub proof fn law_parsed_readable(b: Seq<u8>)
    requires
        valid_utf8(b),
    ensures
        spec_parse(b) matches Ok(v) ==> readable(v),
{
    lemma_skip_ws(b, 0);
    lemma_value_readable(b, skip_ws(b, 0));
}

} // verus!
