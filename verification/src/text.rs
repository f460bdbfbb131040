//! Text helpers shared by the parsers: the std conversions between bytes,
//! chars and strings that they need, and facts about UTF-8 boundaries.
use vstd::prelude::*;
use vstd::utf8::*;
use vstd::string::StringSliceAdditionalSpecFns;
use vstd::string::StringExecFns;

verus! {

broadcast use vstd::seq::group_seq_axioms;

/// The error of `std::str::from_utf8`.
#[verifier::external_type_specification]
#[verifier::external_body]
pub struct ExUtf8Error(std::str::Utf8Error);

/// `std::str::from_utf8`: the bytes are read as a string slice exactly when
/// they are well-formed UTF-8, and then the slice holds those very bytes.
#[verifier::external_body]
pub(crate) fn str_from_utf8(bytes: &[u8]) -> (r: Result<&str, std::str::Utf8Error>)
    ensures
        r is Ok <==> valid_utf8(bytes@),
        r matches Ok(s) ==> s.spec_bytes() == bytes@,
{
    std::str::from_utf8(bytes)
}

/// `String::push`: appends one char.
#[verifier::external_body]
pub(crate) fn push_char(s: &mut String, c: char)
    ensures
        final(s)@ == old(s)@.push(c),
{
    s.push(c)
}

/// `char::from_u32`: a char exactly when the number is a Unicode scalar value.
#[verifier::external_body]
pub(crate) fn char_from_u32(code: u32) -> (r: Option<char>)
    ensures
        r is Some <==> is_scalar(code),
        r matches Some(c) ==> c as u32 == code,
{
    char::from_u32(code)
}

/// The chars of a string slice are the UTF-8 decoding of its bytes.
pub proof fn lemma_chars_of_bytes(s: &str, bytes: Seq<u8>)
    requires
        s.spec_bytes() == bytes,
    ensures
        valid_utf8(bytes),
        s@ == decode_utf8(bytes),
{
    encode_utf8_valid_utf8(s@);
    encode_utf8_decode_utf8(s@);
}

/// In valid UTF-8 the position right after an ASCII byte starts a char.
pub proof fn lemma_boundary_after_ascii(b: Seq<u8>, i: int)
    requires
        valid_utf8(b),
        0 < i <= b.len(),
        b[i - 1] < 0x80,
    ensures
        is_char_boundary(b, i),
    decreases b.len(),
{
    let l = length_of_first_scalar(b);
    if i - 1 == 0 {
        reveal_with_fuel(is_char_boundary, 2);
    } else if i - 1 < l {
        assert(is_continuation_byte(b[i - 1]));
    } else {
        let rest = pop_first_scalar(b);
        assert(rest[i - 1 - l] == b[i - 1]);
        lemma_boundary_after_ascii(rest, i - l);
    }
}

/// In valid UTF-8 every ASCII byte starts a char.
pub proof fn lemma_boundary_at_ascii(b: Seq<u8>, i: int)
    requires
        valid_utf8(b),
        0 <= i <= b.len(),
        i < b.len() ==> b[i] < 0x80,
    ensures
        is_char_boundary(b, i),
{
    if i == b.len() {
        is_char_boundary_start_end_of_seq(b);
    } else {
        is_char_boundary_iff_not_is_continuation_byte(b, i);
    }
}

/// The bytes between two char boundaries of valid UTF-8 are valid UTF-8.
pub proof fn lemma_valid_between_boundaries(b: Seq<u8>, i: int, j: int)
    requires
        valid_utf8(b),
        0 <= i <= j <= b.len(),
        is_char_boundary(b, i),
        is_char_boundary(b, j),
    ensures
        valid_utf8(b.subrange(i, j)),
    decreases b.len(),
{
    if i == 0 {
        valid_utf8_split(b, j);
    } else {
        let l = length_of_first_scalar(b);
        let rest = pop_first_scalar(b);
        reveal_with_fuel(is_char_boundary, 2);
        assert(i >= l) by {
            if i < l {
                assert(is_char_boundary(b, i) == is_char_boundary(rest, i - l));
            }
        }
        lemma_valid_between_boundaries(rest, i - l, j - l);
        assert(rest.subrange(i - l, j - l) =~= b.subrange(i, j));
    }
}


/// Whether `char::is_alphabetic` holds (the Unicode Alphabetic property).
pub uninterp spec fn alphabetic(c: char) -> bool;

/// Whether `char::is_numeric` holds (a Unicode numeric general category).
pub uninterp spec fn numeric(c: char) -> bool;

/// The Unicode White_Space property, which `char::is_whitespace` tests:
/// tab to carriage return, space, next line, no-break space, the Ogham
/// space mark, the spaces from en quad to hair space, the line and
/// paragraph separators, the narrow no-break space, the medium mathematical
/// space and the ideographic space.
pub open spec fn white_space(c: char) -> bool {
    let u = c as u32;
    ||| 0x09 <= u <= 0x0D
    ||| u == 0x20
    ||| u == 0x85
    ||| u == 0xA0
    ||| u == 0x1680
    ||| 0x2000 <= u <= 0x200A
    ||| u == 0x2028
    ||| u == 0x2029
    ||| u == 0x202F
    ||| u == 0x205F
    ||| u == 0x3000
}

/// `char::is_alphabetic`. The property is a fixed Unicode table, so the
/// result depends on the char alone.
#[verifier::external_body]
pub(crate) fn is_alphabetic(c: char) -> (r: bool)
    ensures
        r == alphabetic(c),
{
    c.is_alphabetic()
}

/// `char::is_numeric`. The property is a fixed Unicode table, so the result
/// depends on the char alone.
#[verifier::external_body]
pub(crate) fn is_numeric(c: char) -> (r: bool)
    ensures
        r == numeric(c),
{
    c.is_numeric()
}

/// Whether the char has the White_Space property, as `char::is_whitespace`.
pub fn is_whitespace(c: char) -> (r: bool)
    ensures
        r == white_space(c),
{
    let u = c as u32;
    (0x09 <= u && u <= 0x0D) || u == 0x20 || u == 0x85 || u == 0xA0 || u == 0x1680 || (0x2000 <= u
        && u <= 0x200A) || u == 0x2028 || u == 0x2029 || u == 0x202F || u == 0x205F || u == 0x3000
}

/// `String::from_utf8_lossy`: valid UTF-8 is decoded as it is; what the
/// result is for other bytes (each invalid sequence becomes U+FFFD) is left
/// to the name `lossy_utf8`.
#[verifier::external_body]
pub(crate) fn utf8_lossy(bytes: &[u8]) -> (s: String)
    ensures
        s@ == lossy_utf8(bytes@),
        valid_utf8(bytes@) ==> s@ == decode_utf8(bytes@),
{
    String::from_utf8_lossy(bytes).into_owned()
}

/// What `String::from_utf8_lossy` makes of a byte sequence.
pub uninterp spec fn lossy_utf8(bytes: Seq<u8>) -> Seq<char>;

/// The decimal digits of `n`.
pub open spec fn decimal(n: nat) -> Seq<char>
    decreases n,
{
    if n < 10 {
        seq![((48 + n) as u8) as char]
    } else {
        decimal(n / 10).push(((48 + n % 10) as u8) as char)
    }
}

/// The decimal text of `n`.
pub fn decimal_text(n: usize) -> (s: String)
    ensures
        s@ == decimal(n as nat),
    decreases n,
{
    if n < 10 {
        let mut s = String::new();
        push_char(&mut s, (48 + n as u8) as char);
        assert(s@ =~= decimal(n as nat));
        s
    } else {
        let mut s = decimal_text(n / 10);
        push_char(&mut s, (48 + (n % 10) as u8) as char);
        s
    }
}

/// Numbers separated by `, `.
pub open spec fn items_text(v: Seq<usize>) -> Seq<char>
    decreases v.len(),
{
    if v.len() == 0 {
        Seq::empty()
    } else if v.len() == 1 {
        decimal(v[0] as nat)
    } else {
        items_text(v.drop_last()) + ", "@ + decimal(v.last() as nat)
    }
}

/// A list of numbers as `[a, b, c]`.
pub open spec fn list_text(v: Seq<usize>) -> Seq<char> {
    "["@ + items_text(v) + "]"@
}

/// The text of a list of numbers, as `[a, b, c]`.
pub fn list_string(v: &[usize]) -> (s: String)
    ensures
        s@ == list_text(v@),
{
    let mut s = String::from_str("[");
    let mut i: usize = 0;
    assert(v@.take(0) =~= Seq::<usize>::empty());
    while i < v.len()
        invariant
            i <= v@.len(),
            s@ == "["@ + items_text(v@.take(i as int)),
        decreases v@.len() - i,
    {
        proof {
            assert(v@.take(i + 1).drop_last() =~= v@.take(i as int));
            assert(v@.take(i + 1).last() == v@[i as int]);
        }
        if i > 0 {
            s.append(", ");
        }
        let d = decimal_text(v[i]);
        s.append(d.as_str());
        proof {
            if i == 0 {
                assert(v@.take(1) =~= seq![v@[0]]);
            }
        }
        i += 1;
    }
    assert(v@.take(v@.len() as int) =~= v@);
    s.append("]");
    s
}

/// UTF-8 encoding distributes over concatenation.
pub proof fn lemma_encode_concat(a: Seq<char>, b: Seq<char>)
    ensures
        encode_utf8(a + b) == encode_utf8(a) + encode_utf8(b),
    decreases a.len(),
{
    if a.len() == 0 {
        assert(a + b =~= b);
    } else {
        lemma_encode_concat(a.drop_first(), b);
        assert((a + b).drop_first() =~= a.drop_first() + b);
        assert(encode_utf8(a + b) =~= encode_utf8(a) + encode_utf8(b));
    }
}

} // verus!
