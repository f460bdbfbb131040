//! A byte-level BPE tokenizer: text is cut into chunks by a fixed set of
//! rules, each chunk is spelled as one char per byte, and neighbouring parts
//! are merged by the rank of their concatenation in the vocabulary.
use vstd::prelude::*;
use vstd::utf8::*;
use vstd::string::StrSliceExecFns;
use vstd::string::StringSliceAdditionalSpecFns;

use vstd::hash_map::StringHashMap;

use crate::error::{LoadError, LoadSource};
use crate::json::{
    parse, spec_parse, all_decimal_digits, decimal_value, field, first_key, lemma_member_models_index,
    usize_value, Json, JsonModel,
};
use crate::text::{
    alphabetic, char_from_u32, lossy_utf8, push_char, utf8_lossy, is_alphabetic, is_numeric, is_whitespace, lemma_encode_concat,
    numeric, white_space,
};

verus! {

broadcast use {vstd::seq::group_seq_axioms, vstd::slice::group_slice_axioms};

/* Spelling bytes as chars. */

/// The char that spells a byte: printable Latin-1 bytes stand for
/// themselves, the others are moved up past 0xff in order.
pub open spec fn spec_byte_char(b: u8) -> char {
    if (0x21 <= b <= 0x7e) || (0xa1 <= b <= 0xac) || (0xae <= b) {
        (b as u32) as char
    } else if b <= 0x20 {
        (0x100 + b) as char
    } else if b <= 0xa0 {
        (0x121 + (b - 0x7f)) as char
    } else {
        0x143u32 as char
    }
}

/// The byte that a char spells, if any.
pub open spec fn spec_char_byte(c: char) -> Option<u8> {
    let c = c as u32;
    if (0x21 <= c <= 0x7e) || (0xa1 <= c <= 0xac) || (0xae <= c <= 0xff) {
        Some(c as u8)
    } else if 0x100 <= c <= 0x120 {
        Some((c - 0x100) as u8)
    } else if 0x121 <= c <= 0x142 {
        Some((c - 0x121 + 0x7f) as u8)
    } else if c == 0x143 {
        Some(0xadu8)
    } else {
        None
    }
}

pub fn byte_char(b: u8) -> (c: char)
    ensures
        c == spec_byte_char(b),
{
    let code: u32 = if (0x21 <= b && b <= 0x7e) || (0xa1 <= b && b <= 0xac) || (0xae <= b) {
        b as u32
    } else if b <= 0x20 {
        0x100 + b as u32
    } else if b <= 0xa0 {
        0x121 + (b - 0x7f) as u32
    } else {
        0x143
    };
    let c = char_from_u32(code).unwrap();
    proof {
        char_u32_cast(c, code);
    }
    c
}

pub fn char_byte(c: char) -> (r: Option<u8>)
    ensures
        r == spec_char_byte(c),
{
    let c = c as u32;
    if (0x21 <= c && c <= 0x7e) || (0xa1 <= c && c <= 0xac) || (0xae <= c && c <= 0xff) {
        Some(c as u8)
    } else if 0x100 <= c && c <= 0x120 {
        Some((c - 0x100) as u8)
    } else if 0x121 <= c && c <= 0x142 {
        Some((c - 0x121 + 0x7f) as u8)
    } else if c == 0x143 {
        Some(0xad)
    } else {
        None
    }
}

/// Reading back the byte that a char spells gives the byte.
pub proof fn lemma_char_byte_inverts_byte_char(b: u8)
    ensures
        spec_char_byte(spec_byte_char(b)) == Some(b),
{
    let c = spec_byte_char(b);
    if (0x21 <= b <= 0x7e) || (0xa1 <= b <= 0xac) || (0xae <= b) {
        char_u32_cast(c, b as u32);
    }
}

/// A char that spells a byte is the spelling of that byte: the spellings
/// are exactly the chars that `char_byte` accepts.
pub proof fn lemma_byte_char_inverts_char_byte(c: char)
    ensures
        spec_char_byte(c) matches Some(b) ==> spec_byte_char(b) == c,
{
    char_u32_cast(c, c as u32);
}


/* Cutting text into chunks. Each rule looks at the chars from some position
   on and says how many of them make the next chunk. */

/// The chars of `(offset, char)` pairs.
pub open spec fn chars_of(s: Seq<(usize, char)>) -> Seq<char> {
    s.map_values(|p: (usize, char)| p.1)
}

/// A letter, roughly `\p{L}`: alphabetic and not numeric.
pub open spec fn letter(c: char) -> bool {
    alphabetic(c) && !numeric(c)
}

pub open spec fn is_newline(c: char) -> bool {
    c == '\r' || c == '\n'
}

/// Neither whitespace, letter nor number.
pub open spec fn is_punct(c: char) -> bool {
    !(white_space(c) || letter(c) || numeric(c))
}

/// The end of the letters that start at `i`.
pub open spec fn letter_run(cs: Seq<char>, i: int) -> int
    decreases cs.len() - i,
{
    if 0 <= i < cs.len() && letter(cs[i]) {
        letter_run(cs, i + 1)
    } else {
        i
    }
}

/// The end of the punctuation that starts at `i`.
pub open spec fn punct_run(cs: Seq<char>, i: int) -> int
    decreases cs.len() - i,
{
    if 0 <= i < cs.len() && is_punct(cs[i]) {
        punct_run(cs, i + 1)
    } else {
        i
    }
}

/// The end of the line breaks that start at `i`.
pub open spec fn newline_run(cs: Seq<char>, i: int) -> int
    decreases cs.len() - i,
{
    if 0 <= i < cs.len() && is_newline(cs[i]) {
        newline_run(cs, i + 1)
    } else {
        i
    }
}

/// The end of the whitespace that starts at `i`.
pub open spec fn space_run(cs: Seq<char>, i: int) -> int
    decreases cs.len() - i,
{
    if 0 <= i < cs.len() && white_space(cs[i]) {
        space_run(cs, i + 1)
    } else {
        i
    }
}

/// The last line break before position `n`.
pub open spec fn last_newline(cs: Seq<char>, n: int) -> Option<int>
    decreases n,
{
    if n <= 0 {
        None
    } else if is_newline(cs[n - 1]) {
        Some(n - 1)
    } else {
        last_newline(cs, n - 1)
    }
}

pub open spec fn ascii_lower(c: char) -> char {
    if 'A' <= c <= 'Z' {
        ((c as u32) + 32) as char
    } else {
        c
    }
}

/// `(?i:'s|'t|'re|'ve|'m|'ll|'d)`
pub open spec fn spec_contraction(cs: Seq<char>) -> Option<int> {
    if cs.len() < 2 || cs[0] != '\'' {
        None
    } else {
        let c1 = ascii_lower(cs[1]);
        if c1 == 's' || c1 == 't' || c1 == 'm' || c1 == 'd' {
            Some(2)
        } else if cs.len() >= 3 && ((c1 == 'r' && ascii_lower(cs[2]) == 'e') || (c1 == 'v'
            && ascii_lower(cs[2]) == 'e') || (c1 == 'l' && ascii_lower(cs[2]) == 'l')) {
            Some(3)
        } else {
            None
        }
    }
}

/// `[^\r\n\p{L}\p{N}]?\p{L}+`
pub open spec fn spec_word(cs: Seq<char>) -> Option<int> {
    if cs.len() == 0 {
        None
    } else {
        let c = cs[0];
        let prefix = if !(is_newline(c) || letter(c) || numeric(c)) { 1int } else { 0int };
        let end = letter_run(cs, prefix);
        if end > prefix {
            Some(end)
        } else {
            None
        }
    }
}

/// `\p{N}`
pub open spec fn spec_number(cs: Seq<char>) -> Option<int> {
    if cs.len() > 0 && numeric(cs[0]) {
        Some(1)
    } else {
        None
    }
}

/// ` ?[^\s\p{L}\p{N}]+[\r\n]*`
pub open spec fn spec_punctuation(cs: Seq<char>) -> Option<int> {
    if cs.len() == 0 {
        None
    } else {
        let space = if cs[0] == ' ' { 1int } else { 0int };
        let end = punct_run(cs, space);
        if end == space {
            None
        } else {
            Some(newline_run(cs, end))
        }
    }
}

/// `\s*[\r\n]+`
pub open spec fn spec_newlines(cs: Seq<char>) -> Option<int> {
    match last_newline(cs, space_run(cs, 0)) {
        Some(i) => Some(i + 1),
        None => None,
    }
}

/// `\s+(?!\S)`: a run of whitespace, less its last char when a non-space follows.
pub open spec fn spec_space(cs: Seq<char>) -> Option<int> {
    let run = space_run(cs, 0);
    if run == cs.len() {
        if run > 0 {
            Some(run)
        } else {
            None
        }
    } else if run > 1 {
        Some(run - 1)
    } else {
        None
    }
}

/// `\s+`
pub open spec fn spec_whitespace(cs: Seq<char>) -> Option<int> {
    let run = space_run(cs, 0);
    if run > 0 {
        Some(run)
    } else {
        None
    }
}

/// The length of the first chunk: the first rule that matches, in order.
pub open spec fn chunk_len(cs: Seq<char>) -> Option<int> {
    if spec_contraction(cs) is Some {
        spec_contraction(cs)
    } else if spec_word(cs) is Some {
        spec_word(cs)
    } else if spec_number(cs) is Some {
        spec_number(cs)
    } else if spec_punctuation(cs) is Some {
        spec_punctuation(cs)
    } else if spec_newlines(cs) is Some {
        spec_newlines(cs)
    } else if spec_space(cs) is Some {
        spec_space(cs)
    } else {
        spec_whitespace(cs)
    }
}

/// The chunks of a text, in order.
pub open spec fn chunks(cs: Seq<char>) -> Seq<Seq<char>>
    decreases cs.len(),
{
    if cs.len() == 0 {
        Seq::empty()
    } else {
        match chunk_len(cs) {
            Some(n) => if 1 <= n <= cs.len() {
                seq![cs.take(n)] + chunks(cs.skip(n))
            } else {
                seq![cs]
            },
            None => seq![cs],
        }
    }
}

pub proof fn lemma_runs(cs: Seq<char>, i: int)
    requires
        0 <= i <= cs.len(),
    ensures
        i <= letter_run(cs, i) <= cs.len(),
        i <= punct_run(cs, i) <= cs.len(),
        i <= newline_run(cs, i) <= cs.len(),
        i <= space_run(cs, i) <= cs.len(),
    decreases cs.len() - i,
{
    if i < cs.len() {
        lemma_runs(cs, i + 1);
    }
}

pub proof fn lemma_last_newline(cs: Seq<char>, n: int)
    ensures
        last_newline(cs, n) matches Some(i) ==> 0 <= i < n,
    decreases n,
{
    if n > 0 {
        lemma_last_newline(cs, n - 1);
    }
}

/// Some rule always matches a nonempty text, and takes at least one char of it.
pub proof fn lemma_chunk_len(cs: Seq<char>)
    requires
        cs.len() > 0,
    ensures
        chunk_len(cs) matches Some(n) && 1 <= n <= cs.len(),
{
    lemma_runs(cs, 0);
    lemma_runs(cs, 1);
    let space = if cs[0] == ' ' { 1int } else { 0int };
    lemma_runs(cs, punct_run(cs, space));
    lemma_last_newline(cs, space_run(cs, 0));
    if white_space(cs[0]) {
        assert(space_run(cs, 0) >= 1);
    } else if letter(cs[0]) {
        assert(letter_run(cs, 0) >= 1);
    } else if numeric(cs[0]) {
    } else {
        assert(cs[0] != ' ');
        assert(punct_run(cs, 0) >= 1);
    }
}

/// Parts put back together, in order.
pub open spec fn concat(parts: Seq<Seq<char>>) -> Seq<char>
    decreases parts.len(),
{
    if parts.len() == 0 {
        Seq::empty()
    } else {
        parts[0] + concat(parts.drop_first())
    }
}

/// The chunks tile the text: none is empty, and put back together they give
/// the text again.
pub proof fn lemma_chunks_tile(cs: Seq<char>)
    ensures
        concat(chunks(cs)) == cs,
        forall|i: int| 0 <= i < chunks(cs).len() ==> #[trigger] chunks(cs)[i].len() > 0,
    decreases cs.len(),
{
    if cs.len() > 0 {
        lemma_chunk_len(cs);
        let n = chunk_len(cs)->0;
        lemma_chunks_tile(cs.skip(n));
        let parts = chunks(cs);
        assert(parts.drop_first() =~= chunks(cs.skip(n)));
        assert(cs.take(n) + cs.skip(n) =~= cs);
        assert forall|i: int| 0 <= i < parts.len() implies #[trigger] parts[i].len() > 0 by {
            if i > 0 {
                assert(parts[i] == chunks(cs.skip(n))[i - 1]);
            }
        }
    }
}


pub open spec fn opt_usize(o: Option<int>) -> Option<usize> {
    match o {
        Some(n) => Some(n as usize),
        None => None,
    }
}

pub fn is_letter(c: char) -> (r: bool)
    ensures
        r == letter(c),
{
    is_alphabetic(c) && !is_numeric(c)
}

fn is_punct_char(c: char) -> (r: bool)
    ensures
        r == is_punct(c),
{
    !(is_whitespace(c) || is_letter(c) || is_numeric(c))
}

fn to_ascii_lower(c: char) -> (r: char)
    ensures
        r == ascii_lower(c),
{
    if 'A' <= c && c <= 'Z' {
        let code = c as u32 + 32;
        let r = char_from_u32(code).unwrap();
        proof {
            char_u32_cast(r, code);
        }
        r
    } else {
        c
    }
}

pub proof fn lemma_chars_of(s: Seq<(usize, char)>)
    ensures
        chars_of(s).len() == s.len(),
        forall|i: int| 0 <= i < s.len() ==> #[trigger] chars_of(s)[i] == s[i].1,
{
}

/// The end of the run that starts at `i` of chars of one kind:
/// letters, punctuation, line breaks or whitespace.
fn run_end(s: &[(usize, char)], i: usize, kind: u8) -> (r: usize)
    requires
        i <= s@.len(),
        kind < 4,
    ensures
        r == (if kind == 0 {
            letter_run(chars_of(s@), i as int)
        } else if kind == 1 {
            punct_run(chars_of(s@), i as int)
        } else if kind == 2 {
            newline_run(chars_of(s@), i as int)
        } else {
            space_run(chars_of(s@), i as int)
        }),
{
    let ghost cs = chars_of(s@);
    proof {
        lemma_chars_of(s@);
    }
    let mut j = i;
    while j < s.len() && of_kind(s[j].1, kind)
        invariant
            i <= j <= s@.len(),
            kind < 4,
            cs == chars_of(s@),
            cs.len() == s@.len(),
            forall|k: int| 0 <= k < s@.len() ==> #[trigger] cs[k] == s@[k].1,
            kind == 0 ==> letter_run(cs, j as int) == letter_run(cs, i as int),
            kind == 1 ==> punct_run(cs, j as int) == punct_run(cs, i as int),
            kind == 2 ==> newline_run(cs, j as int) == newline_run(cs, i as int),
            kind == 3 ==> space_run(cs, j as int) == space_run(cs, i as int),
        decreases s@.len() - j,
    {
        j += 1;
    }
    j
}

fn of_kind(c: char, kind: u8) -> (r: bool)
    ensures
        r == (if kind == 0 {
            letter(c)
        } else if kind == 1 {
            is_punct(c)
        } else if kind == 2 {
            is_newline(c)
        } else {
            white_space(c)
        }),
{
    if kind == 0 {
        is_letter(c)
    } else if kind == 1 {
        is_punct_char(c)
    } else if kind == 2 {
        c == '\r' || c == '\n'
    } else {
        is_whitespace(c)
    }
}

/// `(?i:'s|'t|'re|'ve|'m|'ll|'d)`
pub fn contraction(s: &[(usize, char)]) -> (r: Option<usize>)
    ensures
        r == opt_usize(spec_contraction(chars_of(s@))),
{
    proof {
        lemma_chars_of(s@);
    }
    if s.len() < 2 || s[0].1 != '\'' {
        return None;
    }
    let c1 = to_ascii_lower(s[1].1);
    if c1 == 's' || c1 == 't' || c1 == 'm' || c1 == 'd' {
        return Some(2);
    }
    if s.len() >= 3 {
        let c2 = to_ascii_lower(s[2].1);
        if (c1 == 'r' && c2 == 'e') || (c1 == 'v' && c2 == 'e') || (c1 == 'l' && c2 == 'l') {
            return Some(3);
        }
    }
    None
}

/// `[^\r\n\p{L}\p{N}]?\p{L}+`
pub fn word(s: &[(usize, char)]) -> (r: Option<usize>)
    ensures
        r == opt_usize(spec_word(chars_of(s@))),
{
    proof {
        lemma_chars_of(s@);
    }
    if s.len() == 0 {
        return None;
    }
    let c = s[0].1;
    let prefix: usize = if !(c == '\r' || c == '\n' || is_letter(c) || is_numeric(c)) {
        1
    } else {
        0
    };
    if prefix > s.len() {
        return None;
    }
    let end = run_end(s, prefix, 0);
    if end > prefix {
        Some(end)
    } else {
        None
    }
}

/// `\p{N}`
pub fn number(s: &[(usize, char)]) -> (r: Option<usize>)
    ensures
        r == opt_usize(spec_number(chars_of(s@))),
{
    proof {
        lemma_chars_of(s@);
    }
    if s.len() > 0 && is_numeric(s[0].1) {
        Some(1)
    } else {
        None
    }
}

/// ` ?[^\s\p{L}\p{N}]+[\r\n]*`
pub fn punctuation(s: &[(usize, char)]) -> (r: Option<usize>)
    ensures
        r == opt_usize(spec_punctuation(chars_of(s@))),
{
    proof {
        lemma_chars_of(s@);
        lemma_runs(chars_of(s@), 0);
    }
    if s.len() == 0 {
        return None;
    }
    let space: usize = if s[0].1 == ' ' { 1 } else { 0 };
    let end = run_end(s, space, 1);
    if end == space {
        return None;
    }
    proof {
        lemma_runs(chars_of(s@), space as int);
    }
    Some(run_end(s, end, 2))
}

/// `\s*[\r\n]+`
pub fn newlines(s: &[(usize, char)]) -> (r: Option<usize>)
    ensures
        r == opt_usize(spec_newlines(chars_of(s@))),
{
    let ghost cs = chars_of(s@);
    proof {
        lemma_chars_of(s@);
        lemma_runs(cs, 0);
    }
    let run = run_end(s, 0, 3);
    let mut n = run;
    while n > 0
        invariant
            n <= run <= s@.len(),
            run == space_run(cs, 0),
            cs == chars_of(s@),
            cs.len() == s@.len(),
            forall|k: int| 0 <= k < s@.len() ==> #[trigger] cs[k] == s@[k].1,
            last_newline(cs, n as int) == last_newline(cs, run as int),
        decreases n,
    {
        let c = s[n - 1].1;
        if c == '\r' || c == '\n' {
            assert(cs[n - 1] == c);
            assert(last_newline(cs, n as int) == Some(n - 1));
            return Some(n);
        }
        n -= 1;
    }
    None
}

/// `\s+(?!\S)`
pub fn space(s: &[(usize, char)]) -> (r: Option<usize>)
    ensures
        r == opt_usize(spec_space(chars_of(s@))),
{
    proof {
        lemma_chars_of(s@);
        lemma_runs(chars_of(s@), 0);
    }
    let run = run_end(s, 0, 3);
    if run == s.len() {
        if run > 0 {
            Some(run)
        } else {
            None
        }
    } else if run > 1 {
        Some(run - 1)
    } else {
        None
    }
}

/// `\s+`
pub fn whitespace(s: &[(usize, char)]) -> (r: Option<usize>)
    ensures
        r == opt_usize(spec_whitespace(chars_of(s@))),
{
    proof {
        lemma_chars_of(s@);
    }
    let run = run_end(s, 0, 3);
    if run > 0 {
        Some(run)
    } else {
        None
    }
}

/// The number of UTF-8 bytes of a char.
fn utf8_len(c: char) -> (n: usize)
    ensures
        n == encode_scalar(c as u32).len(),
{
    let v = c as u32;
    if v < 0x80 {
        1
    } else if v < 0x800 {
        2
    } else if v < 0x10000 {
        3
    } else {
        4
    }
}

/// The chars of a text, each with the byte offset where it starts.
fn char_indices(text: &str) -> (r: Vec<(usize, char)>)
    ensures
        chars_of(r@) == text@,
        forall|i: int|
            0 <= i < r@.len() ==> #[trigger] r@[i].0 == encode_utf8(text@.take(i)).len(),
{
    let mut r: Vec<(usize, char)> = Vec::new();
    let mut offset: usize = 0;
    let ghost total = text.spec_bytes().len();
    let bytes = text.as_bytes();
    proof {
        assert(text@.take(0) =~= Seq::<char>::empty());
        assert(bytes@.len() == bytes.len());
    }
    for c in it: text.chars()
        invariant
            it.seq() == text@,
            total == encode_utf8(text@).len(),
            total <= usize::MAX,
            r@.len() == it.index(),
            offset == encode_utf8(text@.take(it.index() as int)).len(),
            forall|i: int| 0 <= i < r@.len() ==> #[trigger] r@[i].1 == text@[i],
            forall|i: int|
                0 <= i < r@.len() ==> #[trigger] r@[i].0 == encode_utf8(text@.take(i)).len(),
    {
        let ghost k = it.index() as int;
        proof {
            lemma_encode_concat(text@.take(k + 1), text@.skip(k + 1));
            assert(text@.take(k + 1) + text@.skip(k + 1) =~= text@);
            lemma_encode_concat(text@.take(k), seq![c]);
            assert(text@.take(k + 1) =~= text@.take(k) + seq![c]);
            reveal_with_fuel(encode_utf8, 2);
            assert(encode_utf8(seq![c]) =~= encode_scalar(c as u32));
        }
        r.push((offset, c));
        offset = offset + utf8_len(c);
    }
    proof {
        lemma_chars_of(r@);
        assert(chars_of(r@) =~= text@);
    }
    r
}

/// Cuts a text into chunks.
pub fn split(text: &str) -> (r: Vec<&str>)
    ensures
        r@.len() == chunks(text@).len(),
        forall|i: int| 0 <= i < r@.len() ==> #[trigger] r@[i]@ == chunks(text@)[i],
{
    let chars = char_indices(text);
    let ghost cs = text@;
    let mut out: Vec<&str> = Vec::new();
    let ghost mut done: Seq<Seq<char>> = Seq::empty();
    let mut start: usize = 0;
    proof {
        lemma_chars_of(chars@);
        assert(cs.skip(0) =~= cs);
    }
    while start < chars.len()
        invariant
            cs == text@,
            chars_of(chars@) == cs,
            chars@.len() == cs.len(),
            start <= chars@.len(),
            out@.len() == done.len(),
            forall|i: int| 0 <= i < out@.len() ==> #[trigger] out@[i]@ == done[i],
            done + chunks(cs.skip(start as int)) == chunks(cs),
        decreases chars@.len() - start,
    {
        let rest = &chars.as_slice()[start..chars.len()];
        let ghost rc = cs.skip(start as int);
        proof {
            lemma_chars_of(rest@);
            assert(chars_of(rest@) =~= rc);
            lemma_chunk_len(rc);
        }
        let found = match contraction(rest) {
            Some(n) => Some(n),
            None => match word(rest) {
                Some(n) => Some(n),
                None => match number(rest) {
                    Some(n) => Some(n),
                    None => match punctuation(rest) {
                        Some(n) => Some(n),
                        None => match newlines(rest) {
                            Some(n) => Some(n),
                            None => match space(rest) {
                                Some(n) => Some(n),
                                None => whitespace(rest),
                            },
                        },
                    },
                },
            },
        };
        let len = found.unwrap();
        let end = start + len;
        let piece = text.substring_char(start, end);
        proof {
            let n = len as int;
            assert(chunks(rc) =~= seq![rc.take(n)] + chunks(rc.skip(n)));
            assert(rc.skip(n) =~= cs.skip(end as int));
            assert(piece@ =~= rc.take(n));
            done = done.push(piece@);
            assert(done + chunks(cs.skip(end as int)) =~= chunks(cs));
        }
        out.push(piece);
        start = end;
    }
    proof {
        assert(chunks(cs.skip(start as int)) =~= Seq::<Seq<char>>::empty());
        assert(done =~= chunks(cs));
    }
    out
}


/* The vocabulary. */

/// Why a vocabulary was refused.
#[derive(Debug)]
pub enum VocabError {
    /// There is no object at `model.vocab`.
    MissingVocab,
    /// A token has a char that spells no byte.
    NotByteLevel(String),
    /// A token's id is not an integer below the number of tokens.
    BadId(String, usize),
    /// Two tokens claim the same id.
    DuplicateId(usize),
}

/// `VocabError` as a value.
pub enum VocabErrorModel {
    MissingVocab,
    NotByteLevel(Seq<char>),
    BadId(Seq<char>, nat),
    DuplicateId(nat),
}

impl View for VocabError {
    type V = VocabErrorModel;

    open spec fn view(&self) -> VocabErrorModel {
        match self {
            VocabError::MissingVocab => VocabErrorModel::MissingVocab,
            VocabError::NotByteLevel(t) => VocabErrorModel::NotByteLevel(t@),
            VocabError::BadId(t, n) => VocabErrorModel::BadId(t@, *n as nat),
            VocabError::DuplicateId(id) => VocabErrorModel::DuplicateId(*id as nat),
        }
    }
}

/// Every char of the token spells a byte.
pub open spec fn byte_level(t: Seq<char>) -> bool {
    forall|i: int| 0 <= i < t.len() ==> (#[trigger] spec_char_byte(t[i])) is Some
}

/// The entries of `model.vocab`, when it is an object.
pub open spec fn vocab_entries(json: JsonModel) -> Option<Seq<(Seq<char>, JsonModel)>> {
    match field(json, seq!['m', 'o', 'd', 'e', 'l']) {
        Some(model) => match field(model, seq!['v', 'o', 'c', 'a', 'b']) {
            Some(JsonModel::Object(entries)) => Some(entries),
            _ => None,
        },
        None => None,
    }
}

/// Places the entries from `k` on into `vocab`, one token per id; the
/// number of tokens is the number of entries.
pub open spec fn place_tokens(
    entries: Seq<(Seq<char>, JsonModel)>,
    k: int,
    vocab: Seq<Seq<char>>,
) -> Result<Seq<Seq<char>>, VocabErrorModel>
    decreases entries.len() - k,
{
    if k < 0 || k >= entries.len() {
        Ok(vocab)
    } else {
        let (token, id) = entries[k];
        if !byte_level(token) {
            Err(VocabErrorModel::NotByteLevel(token))
        } else {
            match usize_value(id) {
                Some(i) if i < entries.len() => {
                    if vocab[i as int].len() != 0 {
                        Err(VocabErrorModel::DuplicateId(i))
                    } else {
                        place_tokens(entries, k + 1, vocab.update(i as int, token))
                    }
                },
                _ => Err(VocabErrorModel::BadId(token, entries.len())),
            }
        }
    }
}

/// The tokens of a tokenizer file, by id.
pub open spec fn spec_vocab(json: JsonModel) -> Result<Seq<Seq<char>>, VocabErrorModel> {
    match vocab_entries(json) {
        Some(entries) => place_tokens(
            entries,
            0,
            Seq::new(entries.len(), |i: int| Seq::<char>::empty()),
        ),
        None => Err(VocabErrorModel::MissingVocab),
    }
}

/// The id that each token is looked up by: the greatest id that spells it.
pub open spec fn token_ids(tokens: Seq<Seq<char>>) -> Map<Seq<char>, usize>
    decreases tokens.len(),
{
    if tokens.len() == 0 {
        Map::empty()
    } else {
        token_ids(tokens.drop_last()).insert(tokens.last(), (tokens.len() - 1) as usize)
    }
}

/// A byte-level BPE tokenizer.
pub struct Tokenizer {
    vocab: Vec<String>,
    ids: StringHashMap<usize>,
}

impl View for Tokenizer {
    type V = Seq<Seq<char>>;

    /// The tokens, by id.
    closed spec fn view(&self) -> Seq<Seq<char>> {
        self.vocab@.map_values(|t: String| t@)
    }
}

impl Tokenizer {
    #[verifier::type_invariant]
    spec fn inv(self) -> bool {
        &&& self.ids@ == token_ids(self@)
        &&& self@.len() <= usize::MAX
        &&& forall|id: int| 0 <= id < self@.len() ==> byte_level(#[trigger] self@[id])
    }

    /// The tokens, by id.
    pub fn vocab(&self) -> (v: &[String])
        ensures
            v@.map_values(|t: String| t@) == self@,
    {
        self.vocab.as_slice()
    }

    /// Builds the tokenizer that a parsed tokenizer file describes.
    pub fn from_json(json: &Json) -> (r: Result<Tokenizer, VocabError>)
        ensures
            match spec_vocab(json.model()) {
                Ok(tokens) => r matches Ok(t) && t@ == tokens,
                Err(e) => r matches Err(x) && x@ == e,
            },
    {
        let entries = match json.get("model") {
            Some(model) => match model.get("vocab") {
                Some(vocab) => vocab.as_object(),
                None => None,
            },
            None => None,
        };
        proof {
            reveal_strlit("model");
            reveal_strlit("vocab");
            assert("model"@ =~= seq!['m', 'o', 'd', 'e', 'l']);
            assert("vocab"@ =~= seq!['v', 'o', 'c', 'a', 'b']);
            match entries {
                Some(e) => assert(vocab_entries(json.model()) == Some(Json::member_models(e@))),
                None => assert(vocab_entries(json.model()) is None),
            }
        }
        let entries = match entries {
            Some(e) => e,
            None => return Err(VocabError::MissingVocab),
        };
        let ghost em = Json::member_models(entries@);
        proof {
            lemma_member_models_index(entries@);
        }
        let n = entries.len();
        let mut vocab: Vec<String> = Vec::new();
        while vocab.len() < n
            invariant
                vocab@.len() <= n,
                forall|i: int| 0 <= i < vocab@.len() ==> (#[trigger] vocab@[i])@ == Seq::<char>::empty(),
            decreases n - vocab@.len(),
        {
            vocab.push(String::new());
        }
        proof {
            assert(vocab@.map_values(|t: String| t@) =~= Seq::new(em.len(), |i: int| Seq::<char>::empty()));
        }
        let mut k: usize = 0;
        while k < n
            invariant
                k <= n,
                n == entries@.len(),
                vocab_entries(json.model()) == Some(em),
                em == Json::member_models(entries@),
                em.len() == n,
                forall|i: int| 0 <= i < n ==> #[trigger] em[i] == (entries@[i].0@, entries@[i].1.model()),
                vocab@.len() == n,
                place_tokens(em, k as int, vocab@.map_values(|t: String| t@)) == place_tokens(
                    em,
                    0,
                    Seq::new(em.len(), |i: int| Seq::<char>::empty()),
                ),
                forall|i: int| 0 <= i < n && (#[trigger] vocab@[i])@.len() > 0 ==> byte_level(vocab@[i]@),
            decreases n - k,
        {
            let token = &entries[k].0;
            let ghost tm = token@;
            if !spells_bytes(token.as_str()) {
                return Err(VocabError::NotByteLevel(token.clone()));
            }
            let id = match entries[k].1.as_usize() {
                Some(id) => {
                    if id < n {
                        id
                    } else {
                        return Err(VocabError::BadId(token.clone(), n));
                    }
                },
                None => return Err(VocabError::BadId(token.clone(), n)),
            };
            if !vocab[id].as_str().is_empty() {
                return Err(VocabError::DuplicateId(id));
            }
            let ghost before = vocab@.map_values(|t: String| t@);
            vocab.set(id, token.clone());
            proof {
                assert(vocab@.map_values(|t: String| t@) =~= before.update(id as int, tm));
            }
            k += 1;
        }
        let ghost tokens = vocab@.map_values(|t: String| t@);
        let mut ids: StringHashMap<usize> = StringHashMap::new();
        let mut j: usize = 0;
        proof {
            assert(tokens.take(0) =~= Seq::<Seq<char>>::empty());
        }
        while j < n
            invariant
                j <= n,
                vocab@.len() == n,
                tokens == vocab@.map_values(|t: String| t@),
                ids@ == token_ids(tokens.take(j as int)),
            decreases n - j,
        {
            proof {
                assert(tokens.take(j + 1).drop_last() =~= tokens.take(j as int));
            }
            ids.insert(vocab[j].clone(), j);
            j += 1;
        }
        proof {
            assert(tokens.take(n as int) =~= tokens);
        }
        Ok(Tokenizer { vocab, ids })
    }
}

/// Whether every char of the text spells a byte.
fn spells_bytes(t: &str) -> (r: bool)
    ensures
        r == byte_level(t@),
{
    for c in it: t.chars()
        invariant
            it.seq() == t@,
            forall|i: int| 0 <= i < it.index() ==> (#[trigger] spec_char_byte(t@[i])) is Some,
    {
        if char_byte(c).is_none() {
            return false;
        }
    }
    true
}


/* Encoding and decoding. */

/// The rank of a token: the id it is looked up by.
pub open spec fn rank(tokens: Seq<Seq<char>>, t: Seq<char>) -> Option<usize> {
    if token_ids(tokens).contains_key(t) {
        Some(token_ids(tokens)[t])
    } else {
        None
    }
}

/// The best pair among the first `n` neighbouring pairs: the one whose
/// concatenation has the lowest rank, the leftmost among equals.
pub open spec fn best_pair(tokens: Seq<Seq<char>>, parts: Seq<Seq<char>>, n: int) -> Option<(usize, int)>
    decreases n,
{
    if n <= 0 {
        None
    } else {
        let prev = best_pair(tokens, parts, n - 1);
        match rank(tokens, parts[n - 1] + parts[n]) {
            None => prev,
            Some(r) => match prev {
                None => Some((r, n - 1)),
                Some((pr, pi)) => if r < pr {
                    Some((r, n - 1))
                } else {
                    prev
                },
            },
        }
    }
}

/// Joins part `i` with the part after it.
pub open spec fn merge_at(parts: Seq<Seq<char>>, i: int) -> Seq<Seq<char>> {
    parts.take(i) + seq![parts[i] + parts[i + 1]] + parts.skip(i + 2)
}

/// Merges the best pair until no pair is a token.
pub open spec fn bpe(tokens: Seq<Seq<char>>, parts: Seq<Seq<char>>) -> Seq<Seq<char>>
    decreases parts.len(),
{
    match best_pair(tokens, parts, parts.len() - 1) {
        Some((_, i)) => if 0 <= i < parts.len() - 1 {
            bpe(tokens, merge_at(parts, i))
        } else {
            parts
        },
        None => parts,
    }
}

/// Each byte spelled as a part of one char.
pub open spec fn spelled(bytes: Seq<u8>) -> Seq<Seq<char>> {
    bytes.map_values(|b: u8| seq![spec_byte_char(b)])
}

/// The ids that parts are looked up by.
pub open spec fn part_ids(tokens: Seq<Seq<char>>, parts: Seq<Seq<char>>) -> Seq<usize> {
    parts.map_values(|p: Seq<char>| token_ids(tokens)[p])
}

/// The ids of a chunk's bytes after merging.
pub open spec fn merge_ids(tokens: Seq<Seq<char>>, bytes: Seq<u8>) -> Seq<usize> {
    part_ids(tokens, bpe(tokens, spelled(bytes)))
}

/// Sequences of ids put one after another.
pub open spec fn flatten(s: Seq<Seq<usize>>) -> Seq<usize>
    decreases s.len(),
{
    if s.len() == 0 {
        Seq::empty()
    } else {
        s[0] + flatten(s.drop_first())
    }
}

/// The ids of a text: the ids of its chunks, in order.
pub open spec fn encode_ids(tokens: Seq<Seq<char>>, text: Seq<char>) -> Seq<usize> {
    flatten(chunks(text).map_values(|c: Seq<char>| merge_ids(tokens, encode_utf8(c))))
}

/// Merging the spelled bytes ends in parts that are all tokens: what
/// looking the parts up needs.
pub open spec fn merges_to_tokens(tokens: Seq<Seq<char>>, bytes: Seq<u8>) -> bool {
    forall|k: int|
        0 <= k < bpe(tokens, spelled(bytes)).len() ==> token_ids(tokens).contains_key(
            #[trigger] bpe(tokens, spelled(bytes))[k],
        )
}

/// Every chunk of the text merges to tokens: what `encode` needs.
pub open spec fn encodable(tokens: Seq<Seq<char>>, text: Seq<char>) -> bool {
    forall|i: int|
        0 <= i < chunks(text).len() ==> merges_to_tokens(tokens, encode_utf8(#[trigger] chunks(text)[i]))
}

/// The chars that spell the bytes, one char per byte.
pub open spec fn byte_spelling(bytes: Seq<u8>) -> Seq<char> {
    bytes.map_values(|b: u8| spec_byte_char(b))
}

/// The tokens of the given ids, one after another.
pub open spec fn ids_text(tokens: Seq<Seq<char>>, ids: Seq<usize>) -> Seq<char>
    decreases ids.len(),
{
    if ids.len() == 0 {
        Seq::empty()
    } else {
        tokens[ids[0] as int] + ids_text(tokens, ids.drop_first())
    }
}

/// The bytes that a token's chars spell.
pub open spec fn token_bytes(t: Seq<char>) -> Seq<u8> {
    t.map_values(|c: char| spec_char_byte(c)->0)
}

/// The bytes spelled by the tokens of the given ids, one after another.
pub open spec fn decoded_bytes(tokens: Seq<Seq<char>>, ids: Seq<usize>) -> Seq<u8>
    decreases ids.len(),
{
    if ids.len() == 0 {
        Seq::empty()
    } else {
        token_bytes(tokens[ids[0] as int]) + decoded_bytes(tokens, ids.drop_first())
    }
}

pub open spec fn part_views(parts: Seq<String>) -> Seq<Seq<char>> {
    parts.map_values(|p: String| p@)
}

impl Tokenizer {
    /// Loads a tokenizer file from what reading it gave: its text, or the
    /// message of the error that reading it met.
    pub fn load(path: &str, text: Result<String, String>) -> (r: Result<Tokenizer, LoadError>)
        ensures
            match text {
                Err(msg) => r matches Err(e) && e.path()@ == path@ && e.source() == LoadSource::Io(msg),
                Ok(t) => match spec_parse(encode_utf8(t@)) {
                    Err(pe) => r matches Err(e) && e.path()@ == path@ && e.source() == LoadSource::Json(pe),
                    Ok(j) => match spec_vocab(j) {
                        Err(ve) => r matches Err(e) && e.path()@ == path@ && (e.source() matches LoadSource::Vocab(x) && x@ == ve),
                        Ok(tokens) => r matches Ok(tk) && tk@ == tokens,
                    },
                },
            },
    {
        match text {
            Err(msg) => Err(LoadError::new(path, LoadSource::Io(msg))),
            Ok(t) => match parse(t.as_str()) {
                Err(pe) => Err(LoadError::new(path, LoadSource::Json(pe))),
                Ok(j) => match Tokenizer::from_json(&j) {
                    Err(ve) => Err(LoadError::new(path, LoadSource::Vocab(ve))),
                    Ok(tk) => Ok(tk),
                },
            },
        }
    }

    /// The parts of one chunk: its bytes spelled as chars, merged pair by
    /// pair, the pair whose join has the lowest id first.
    pub fn merged_parts(&self, chunk: &str) -> (r: Vec<String>)
        ensures
            part_views(r@) == bpe(self@, spelled(encode_utf8(chunk@))),
    {
        proof {
            use_type_invariant(self);
        }
        let ghost tokens = self@;
        let bytes = chunk.as_bytes();
        let mut parts: Vec<String> = Vec::new();
        let mut j: usize = 0;
        while j < bytes.len()
            invariant
                bytes@ == encode_utf8(chunk@),
                tokens == self@,
                self.ids@ == token_ids(tokens),
                j <= bytes@.len(),
                part_views(parts@) == spelled(bytes@.take(j as int)),
            decreases bytes@.len() - j,
        {
            let mut part = String::new();
            push_char(&mut part, byte_char(bytes[j]));
            proof {
                assert(part@ =~= seq![spec_byte_char(bytes@[j as int])]);
                assert(spelled(bytes@.take(j + 1)) =~= spelled(bytes@.take(j as int)).push(part@));
            }
            parts.push(part);
            proof {
                assert(part_views(parts@) =~= spelled(bytes@.take(j + 1)));
            }
            j += 1;
        }
        proof {
            assert(bytes@.take(bytes@.len() as int) =~= bytes@);
        }
        loop
            invariant
                tokens == self@,
                self.ids@ == token_ids(tokens),
                bpe(tokens, part_views(parts@)) == bpe(tokens, spelled(encode_utf8(chunk@))),
            decreases parts@.len(),
        {
            let ghost cur = part_views(parts@);
            let mut best: Option<(usize, usize)> = None;
            let mut i: usize = 0;
            while i < parts.len() && i + 1 < parts.len()
                invariant
                    tokens == self@,
                    self.ids@ == token_ids(tokens),
                    cur == part_views(parts@),
                    i < parts@.len() || (i == 0 && parts@.len() == 0),
                    opt_pair(best) == best_pair(tokens, cur, i as int),
                    best matches Some((r, bi)) ==> bi < i,
                decreases parts@.len() - i,
            {
                let mut pair = parts[i].clone();
                pair.append(parts[i + 1].as_str());
                proof {
                    assert(pair@ == cur[i as int] + cur[i + 1]);
                }
                match self.ids.get(pair.as_str()) {
                    Some(r) => {
                        let r = *r;
                        match best {
                            None => {
                                best = Some((r, i));
                            },
                            Some((br, bi)) => {
                                if r < br {
                                    best = Some((r, i));
                                }
                            },
                        }
                    },
                    None => {},
                }
                i += 1;
            }
            match best {
                None => {
                    proof {
                        assert(bpe(tokens, cur) == cur);
                    }
                    return parts;
                },
                Some((_, i)) => {
                    proof {
                        lemma_best_pair(tokens, cur, cur.len() - 1);
                    }
                    let right = parts.remove(i + 1);
                    let mut left = parts[i].clone();
                    left.append(right.as_str());
                    parts.set(i, left);
                    proof {
                        assert(part_views(parts@) =~= merge_at(cur, i as int));
                    }
                },
            }
        }
    }

    /// The ids of one chunk: its merged parts looked up. The ids spell the
    /// chunk's bytes, and no two neighbouring tokens join into a token.
    pub fn merge(&self, chunk: &str) -> (r: Vec<usize>)
        requires
            merges_to_tokens(self@, encode_utf8(chunk@)),
        ensures
            r@ == merge_ids(self@, encode_utf8(chunk@)),
            ids_text(self@, r@) == byte_spelling(encode_utf8(chunk@)),
            forall|k: int| 0 <= k < r@.len() ==> #[trigger] r@[k] < self@.len(),
            forall|k: int|
                0 <= k < r@.len() - 1 ==> !token_ids(self@).contains_key(
                    #[trigger] self@[r@[k] as int] + self@[r@[k + 1] as int],
                ),
            encode_utf8(chunk@).len() == 0 ==> r@.len() == 0,
    {
        proof {
            use_type_invariant(self);
        }
        let ghost tokens = self@;
        let ghost bytes = encode_utf8(chunk@);
        let parts = self.merged_parts(chunk);
        let ghost cur = part_views(parts@);
        let mut ids: Vec<usize> = Vec::new();
        let mut k: usize = 0;
        while k < parts.len()
            invariant
                tokens == self@,
                self.ids@ == token_ids(tokens),
                cur == part_views(parts@),
                cur == bpe(tokens, spelled(bytes)),
                merges_to_tokens(tokens, bytes),
                k <= parts@.len(),
                ids@ == cur.take(k as int).map_values(|p: Seq<char>| token_ids(tokens)[p]),
            decreases parts@.len() - k,
        {
            proof {
                assert(cur[k as int] == parts@[k as int]@);
                assert(token_ids(tokens).contains_key(cur[k as int]));
            }
            let id = *self.ids.get(parts[k].as_str()).unwrap();
            ids.push(id);
            proof {
                assert(cur.take(k + 1) =~= cur.take(k as int).push(cur[k as int]));
                assert(ids@ =~= cur.take(k + 1).map_values(|p: Seq<char>| token_ids(tokens)[p]));
            }
            k += 1;
        }
        proof {
            assert(cur.take(parts@.len() as int) =~= cur);
            assert(ids@ == part_ids(tokens, cur));
            assert forall|q: int| 0 <= q < cur.len() implies token_ids(tokens).contains_key(
                #[trigger] cur[q],
            ) by {}
            lemma_ids_text(tokens, cur);
            lemma_bpe_concat(tokens, spelled(bytes));
            lemma_spelled_concat(bytes);
            lemma_bpe_stuck(tokens, spelled(bytes));
            assert forall|q: int| 0 <= q < ids@.len() implies #[trigger] ids@[q] < tokens.len() by {
                lemma_token_ids(tokens, cur[q]);
            }
            assert forall|q: int| 0 <= q < ids@.len() - 1 implies !token_ids(tokens).contains_key(
                #[trigger] tokens[ids@[q] as int] + tokens[ids@[q + 1] as int],
            ) by {
                assert(tokens[part_ids(tokens, cur)[q] as int] == cur[q]);
                assert(tokens[part_ids(tokens, cur)[q + 1] as int] == cur[q + 1]);
            }
            if bytes.len() == 0 {
                assert(spelled(bytes) =~= Seq::<Seq<char>>::empty());
            }
        }
        ids
    }
}

pub proof fn lemma_best_pair(tokens: Seq<Seq<char>>, parts: Seq<Seq<char>>, n: int)
    ensures
        best_pair(tokens, parts, n) matches Some((r, i)) ==> 0 <= i < n && rank(
            tokens,
            parts[i] + parts[i + 1],
        ) == Some(r),
    decreases n,
{
    if n > 0 {
        lemma_best_pair(tokens, parts, n - 1);
    }
}

/// `best` as the value `best_pair` gives.
pub open spec fn opt_pair(best: Option<(usize, usize)>) -> Option<(usize, int)> {
    match best {
        Some((r, i)) => Some((r, i as int)),
        None => None,
    }
}


pub proof fn lemma_flatten_push(s: Seq<Seq<usize>>, x: Seq<usize>)
    ensures
        flatten(s.push(x)) == flatten(s) + x,
    decreases s.len(),
{
    if s.len() == 0 {
        reveal_with_fuel(flatten, 2);
        assert(s.push(x).drop_first() =~= Seq::<Seq<usize>>::empty());
        assert(flatten(s.push(x)) =~= x);
    } else {
        lemma_flatten_push(s.drop_first(), x);
        assert(s.push(x).drop_first() =~= s.drop_first().push(x));
        assert(flatten(s.push(x)) =~= flatten(s) + x);
    }
}

pub proof fn lemma_decoded_bytes_push(tokens: Seq<Seq<char>>, ids: Seq<usize>, x: usize)
    ensures
        decoded_bytes(tokens, ids.push(x)) == decoded_bytes(tokens, ids) + token_bytes(tokens[x as int]),
    decreases ids.len(),
{
    if ids.len() == 0 {
        reveal_with_fuel(decoded_bytes, 2);
        assert(ids.push(x).drop_first() =~= Seq::<usize>::empty());
        assert(decoded_bytes(tokens, ids.push(x)) =~= token_bytes(tokens[x as int]));
    } else {
        lemma_decoded_bytes_push(tokens, ids.drop_first(), x);
        assert(ids.push(x).drop_first() =~= ids.drop_first().push(x));
        assert(decoded_bytes(tokens, ids.push(x)) =~= decoded_bytes(tokens, ids) + token_bytes(
            tokens[x as int],
        ));
    }
}

/// The text itself: normalisation is the identity.
pub fn nfc(text: &str) -> (r: &str)
    ensures
        r@ == text@,
{
    text
}

impl Tokenizer {
    /// Whether every chunk of the text merges to tokens, which `encode`
    /// needs.
    pub fn can_encode(&self, text: &str) -> (r: bool)
        ensures
            r == encodable(self@, text@),
    {
        proof {
            use_type_invariant(self);
        }
        let pieces = split(nfc(text));
        let ghost cs = chunks(text@);
        let mut k: usize = 0;
        while k < pieces.len()
            invariant
                cs == chunks(text@),
                self.ids@ == token_ids(self@),
                pieces@.len() == cs.len(),
                forall|i: int| 0 <= i < pieces@.len() ==> #[trigger] pieces@[i]@ == cs[i],
                k <= pieces@.len(),
                forall|i: int| 0 <= i < k ==> merges_to_tokens(self@, encode_utf8(#[trigger] cs[i])),
            decreases pieces@.len() - k,
        {
            let parts = self.merged_parts(pieces[k]);
            let ghost merged = bpe(self@, spelled(encode_utf8(cs[k as int])));
            proof {
                assert(pieces@[k as int]@ == cs[k as int]);
            }
            let mut q: usize = 0;
            while q < parts.len()
                invariant
                    self.ids@ == token_ids(self@),
                    part_views(parts@) == merged,
                    merged == bpe(self@, spelled(encode_utf8(cs[k as int]))),
                    cs == chunks(text@),
                    k < cs.len(),
                    q <= parts@.len(),
                    forall|x: int| 0 <= x < q ==> token_ids(self@).contains_key(#[trigger] merged[x]),
                decreases parts@.len() - q,
            {
                proof {
                    assert(merged[q as int] == parts@[q as int]@);
                }
                if !self.ids.contains_key(parts[q].as_str()) {
                    proof {
                        assert(!token_ids(self@).contains_key(merged[q as int]));
                        assert(!merges_to_tokens(self@, encode_utf8(cs[k as int])));
                    }
                    return false;
                }
                q += 1;
            }
            k += 1;
        }
        true
    }

    /// The ids of a text: its chunks, each merged. The ids spell the text's
    /// bytes.
    pub fn encode(&self, text: &str) -> (r: Vec<usize>)
        requires
            encodable(self@, text@),
        ensures
            r@ == encode_ids(self@, text@),
            ids_text(self@, r@) == byte_spelling(encode_utf8(text@)),
            forall|k: int| 0 <= k < r@.len() ==> #[trigger] r@[k] < self@.len(),
    {
        let pieces = split(nfc(text));
        let ghost cs = chunks(text@);
        let ghost per = cs.map_values(|c: Seq<char>| merge_ids(self@, encode_utf8(c)));
        proof {
            assert(per.take(0) =~= Seq::<Seq<usize>>::empty());
            assert(cs.take(0) =~= Seq::<Seq<char>>::empty());
            assert(encode_utf8(concat(cs.take(0))) =~= Seq::<u8>::empty());
            assert(byte_spelling(Seq::<u8>::empty()) =~= Seq::<char>::empty());
        }
        let mut out: Vec<usize> = Vec::new();
        let mut k: usize = 0;
        while k < pieces.len()
            invariant
                cs == chunks(text@),
                per == cs.map_values(|c: Seq<char>| merge_ids(self@, encode_utf8(c))),
                pieces@.len() == cs.len(),
                forall|i: int| 0 <= i < pieces@.len() ==> #[trigger] pieces@[i]@ == cs[i],
                encodable(self@, text@),
                k <= pieces@.len(),
                out@ == flatten(per.take(k as int)),
                ids_text(self@, out@) == byte_spelling(encode_utf8(concat(cs.take(k as int)))),
                forall|x: int| 0 <= x < out@.len() ==> #[trigger] out@[x] < self@.len(),
            decreases pieces@.len() - k,
        {
            proof {
                assert(pieces@[k as int]@ == cs[k as int]);
                assert(merges_to_tokens(self@, encode_utf8(cs[k as int])));
            }
            let ids = self.merge(pieces[k]);
            let mut q: usize = 0;
            let ghost before = out@;
            while q < ids.len()
                invariant
                    q <= ids@.len(),
                    out@ == before + ids@.take(q as int),
                    forall|x: int| 0 <= x < before.len() ==> #[trigger] before[x] < self@.len(),
                    forall|x: int| 0 <= x < ids@.len() ==> #[trigger] ids@[x] < self@.len(),
                    forall|x: int| 0 <= x < out@.len() ==> #[trigger] out@[x] < self@.len(),
                decreases ids@.len() - q,
            {
                out.push(ids[q]);
                proof {
                    assert(ids@.take(q + 1) =~= ids@.take(q as int).push(ids@[q as int]));
                }
                q += 1;
            }
            proof {
                assert(ids@.take(ids@.len() as int) =~= ids@);
                assert(per.take(k + 1) =~= per.take(k as int).push(per[k as int]));
                lemma_flatten_push(per.take(k as int), per[k as int]);
                lemma_ids_text_append(self@, before, ids@);
                let prev = concat(cs.take(k as int));
                assert(cs.take(k + 1) =~= cs.take(k as int) + seq![cs[k as int]]);
                lemma_concat_append(cs.take(k as int), seq![cs[k as int]]);
                lemma_concat_one(cs[k as int]);
                lemma_encode_concat(prev, cs[k as int]);
                assert(byte_spelling(encode_utf8(prev) + encode_utf8(cs[k as int])) =~= byte_spelling(
                    encode_utf8(prev),
                ) + byte_spelling(encode_utf8(cs[k as int])));
            }
            k += 1;
        }
        proof {
            assert(per.take(pieces@.len() as int) =~= per);
            assert(cs.take(pieces@.len() as int) =~= cs);
            lemma_chunks_tile(text@);
        }
        out
    }

    /// The ids of a text when every chunk merges to tokens, else `None`.
    pub fn try_encode(&self, text: &str) -> (r: Option<Vec<usize>>)
        ensures
            r is Some <==> encodable(self@, text@),
            r matches Some(ids) ==> ids@ == encode_ids(self@, text@) && ids_text(self@, ids@)
                == byte_spelling(encode_utf8(text@)) && forall|k: int|
                0 <= k < ids@.len() ==> #[trigger] ids@[k] < self@.len(),
    {
        if self.can_encode(text) {
            Some(self.encode(text))
        } else {
            None
        }
    }

    /// The text that a sequence of ids spells; bytes that are not valid
    /// UTF-8 become U+FFFD.
    pub fn decode(&self, ids: &[usize]) -> (s: String)
        requires
            forall|i: int| 0 <= i < ids@.len() ==> #[trigger] ids@[i] < self@.len(),
        ensures
            s@ == lossy_utf8(decoded_bytes(self@, ids@)),
            valid_utf8(decoded_bytes(self@, ids@)) ==> s@ == decode_utf8(decoded_bytes(self@, ids@)),
    {
        proof {
            use_type_invariant(self);
            assert(ids@.take(0) =~= Seq::<usize>::empty());
        }
        let mut bytes: Vec<u8> = Vec::new();
        let mut k: usize = 0;
        while k < ids.len()
            invariant
                forall|i: int| 0 <= i < ids@.len() ==> #[trigger] ids@[i] < self@.len(),
                forall|id: int| 0 <= id < self@.len() ==> byte_level(#[trigger] self@[id]),
                k <= ids@.len(),
                bytes@ == decoded_bytes(self@, ids@.take(k as int)),
            decreases ids@.len() - k,
        {
            let id = ids[k];
            let token = self.vocab[id].as_str();
            let ghost before = bytes@;
            proof {
                assert(token@ == self@[id as int]);
                assert(token@.take(0) =~= Seq::<char>::empty());
            }
            for c in it: token.chars()
                invariant
                    it.seq() == token@,
                    byte_level(token@),
                    bytes@ == before + token_bytes(token@.take(it.index() as int)),
            {
                let ghost m = it.index() as int;
                let b = char_byte(c).unwrap();
                bytes.push(b);
                proof {
                    assert(token@.take(m + 1) =~= token@.take(m).push(c));
                    assert(bytes@ =~= before + token_bytes(token@.take(m + 1)));
                }
            }
            proof {
                assert(token@.take(token@.len() as int) =~= token@);
                assert(ids@.take(k + 1) =~= ids@.take(k as int).push(id));
                lemma_decoded_bytes_push(self@, ids@.take(k as int), id);
            }
            k += 1;
        }
        proof {
            assert(ids@.take(ids@.len() as int) =~= ids@);
        }
        utf8_lossy(bytes.as_slice())
    }
}


/* Decoding what was encoded gives the text back. */

pub proof fn lemma_token_ids(tokens: Seq<Seq<char>>, t: Seq<char>)
    requires
        tokens.len() <= usize::MAX,
    ensures
        token_ids(tokens).contains_key(t) ==> 0 <= token_ids(tokens)[t] < tokens.len()
            && tokens[token_ids(tokens)[t] as int] == t,
    decreases tokens.len(),
{
    if tokens.len() > 0 {
        let rest = tokens.drop_last();
        lemma_token_ids(rest, t);
        if t != tokens.last() && token_ids(rest).contains_key(t) {
            let id = token_ids(rest)[t] as int;
            assert(tokens[id] == rest[id]);
        }
    }
}

pub proof fn lemma_decoded_append(tokens: Seq<Seq<char>>, a: Seq<usize>, b: Seq<usize>)
    ensures
        decoded_bytes(tokens, a + b) == decoded_bytes(tokens, a) + decoded_bytes(tokens, b),
    decreases a.len(),
{
    if a.len() == 0 {
        assert(a + b =~= b);
        assert(decoded_bytes(tokens, a + b) =~= decoded_bytes(tokens, a) + decoded_bytes(tokens, b));
    } else {
        lemma_decoded_append(tokens, a.drop_first(), b);
        assert((a + b).drop_first() =~= a.drop_first() + b);
        assert(decoded_bytes(tokens, a + b) =~= decoded_bytes(tokens, a) + decoded_bytes(tokens, b));
    }
}

pub proof fn lemma_concat_append(a: Seq<Seq<char>>, b: Seq<Seq<char>>)
    ensures
        concat(a + b) == concat(a) + concat(b),
    decreases a.len(),
{
    if a.len() == 0 {
        assert(a + b =~= b);
        assert(concat(a + b) =~= concat(a) + concat(b));
    } else {
        lemma_concat_append(a.drop_first(), b);
        assert((a + b).drop_first() =~= a.drop_first() + b);
        assert(concat(a + b) =~= concat(a) + concat(b));
    }
}

pub proof fn lemma_concat_one(x: Seq<char>)
    ensures
        concat(seq![x]) == x,
{
    reveal_with_fuel(concat, 2);
    assert(seq![x].drop_first() =~= Seq::<Seq<char>>::empty());
    assert(concat(seq![x]) =~= x);
}

pub proof fn lemma_merge_at_concat(parts: Seq<Seq<char>>, i: int)
    requires
        0 <= i < parts.len() - 1,
    ensures
        concat(merge_at(parts, i)) == concat(parts),
{
    let pre = parts.take(i);
    let post = parts.skip(i + 2);
    let joined = parts[i] + parts[i + 1];
    assert(parts =~= pre + seq![parts[i]] + seq![parts[i + 1]] + post);
    lemma_concat_append(pre + seq![joined], post);
    lemma_concat_append(pre, seq![joined]);
    lemma_concat_append(pre + seq![parts[i]] + seq![parts[i + 1]], post);
    lemma_concat_append(pre + seq![parts[i]], seq![parts[i + 1]]);
    lemma_concat_append(pre, seq![parts[i]]);
    lemma_concat_one(joined);
    lemma_concat_one(parts[i]);
    lemma_concat_one(parts[i + 1]);
    assert(concat(merge_at(parts, i)) =~= concat(parts));
}

/// Merging keeps what the parts spell together.
pub proof fn lemma_bpe_concat(tokens: Seq<Seq<char>>, parts: Seq<Seq<char>>)
    ensures
        concat(bpe(tokens, parts)) == concat(parts),
    decreases parts.len(),
{
    lemma_best_pair(tokens, parts, parts.len() - 1);
    if let Some((r, i)) = best_pair(tokens, parts, parts.len() - 1) {
        if 0 <= i < parts.len() - 1 {
            lemma_merge_at_concat(parts, i);
            lemma_bpe_concat(tokens, merge_at(parts, i));
        }
    }
}

/// No best pair among the first `n` means none of those pairs is a token.
pub proof fn lemma_no_best_pair(tokens: Seq<Seq<char>>, parts: Seq<Seq<char>>, n: int)
    requires
        best_pair(tokens, parts, n) is None,
    ensures
        forall|i: int| 0 <= i < n ==> rank(tokens, #[trigger] (parts[i] + parts[i + 1])) is None,
    decreases n,
{
    if n > 0 {
        lemma_no_best_pair(tokens, parts, n - 1);
    }
}

/// When merging ends, no two neighbouring parts join into a token.
pub proof fn lemma_bpe_stuck(tokens: Seq<Seq<char>>, parts: Seq<Seq<char>>)
    ensures
        forall|i: int|
            0 <= i < bpe(tokens, parts).len() - 1 ==> !token_ids(tokens).contains_key(
                #[trigger] bpe(tokens, parts)[i] + bpe(tokens, parts)[i + 1],
            ),
    decreases parts.len(),
{
    lemma_best_pair(tokens, parts, parts.len() - 1);
    match best_pair(tokens, parts, parts.len() - 1) {
        Some((r, i)) => {
            if 0 <= i < parts.len() - 1 {
                lemma_bpe_stuck(tokens, merge_at(parts, i));
                assert(bpe(tokens, parts) == bpe(tokens, merge_at(parts, i)));
            }
        },
        None => {
            assert(bpe(tokens, parts) == parts);
            lemma_no_best_pair(tokens, parts, parts.len() - 1);
            assert forall|i: int| 0 <= i < parts.len() - 1 implies !token_ids(tokens).contains_key(
                #[trigger] (parts[i] + parts[i + 1]),
            ) by {
                assert(rank(tokens, parts[i] + parts[i + 1]) is None);
            }
        },
    }
}

/// The parts of spelled bytes spell them one char per byte.
pub proof fn lemma_spelled_concat(bytes: Seq<u8>)
    ensures
        concat(spelled(bytes)) == byte_spelling(bytes),
    decreases bytes.len(),
{
    if bytes.len() > 0 {
        lemma_spelled_concat(bytes.drop_first());
        assert(spelled(bytes).drop_first() =~= spelled(bytes.drop_first()));
        assert(concat(spelled(bytes)) =~= byte_spelling(bytes));
    } else {
        assert(concat(spelled(bytes)) =~= byte_spelling(bytes));
    }
}

/// The ids of parts that are tokens give back those parts.
pub proof fn lemma_ids_text(tokens: Seq<Seq<char>>, parts: Seq<Seq<char>>)
    requires
        tokens.len() <= usize::MAX,
        forall|k: int| 0 <= k < parts.len() ==> token_ids(tokens).contains_key(#[trigger] parts[k]),
    ensures
        ids_text(tokens, part_ids(tokens, parts)) == concat(parts),
        forall|k: int|
            0 <= k < parts.len() ==> tokens[#[trigger] part_ids(tokens, parts)[k] as int]
                == parts[k],
    decreases parts.len(),
{
    let ids = part_ids(tokens, parts);
    assert forall|k: int| 0 <= k < parts.len() implies tokens[#[trigger] ids[k] as int]
        == parts[k] by {
        lemma_token_ids(tokens, parts[k]);
    }
    if parts.len() > 0 {
        let rest = parts.drop_first();
        assert forall|k: int| 0 <= k < rest.len() implies token_ids(tokens).contains_key(
            #[trigger] rest[k],
        ) by {
            assert(rest[k] == parts[k + 1]);
        }
        lemma_ids_text(tokens, rest);
        assert(ids.drop_first() =~= part_ids(tokens, rest));
        assert(tokens[ids[0] as int] == parts[0]);
    }
}

/// The tokens of ids put one after another split where the ids do.
pub proof fn lemma_ids_text_append(tokens: Seq<Seq<char>>, a: Seq<usize>, b: Seq<usize>)
    ensures
        ids_text(tokens, a + b) == ids_text(tokens, a) + ids_text(tokens, b),
    decreases a.len(),
{
    if a.len() == 0 {
        assert(a + b =~= b);
        assert(ids_text(tokens, a + b) =~= ids_text(tokens, a) + ids_text(tokens, b));
    } else {
        lemma_ids_text_append(tokens, a.drop_first(), b);
        assert((a + b).drop_first() =~= a.drop_first() + b);
        assert(ids_text(tokens, a + b) =~= ids_text(tokens, a) + ids_text(tokens, b));
    }
}

pub proof fn lemma_token_bytes_append(a: Seq<char>, b: Seq<char>)
    ensures
        token_bytes(a + b) == token_bytes(a) + token_bytes(b),
{
    assert(token_bytes(a + b) =~= token_bytes(a) + token_bytes(b));
}

/// The ids of parts that are tokens spell what the parts spell.
pub proof fn lemma_ids_decode(tokens: Seq<Seq<char>>, parts: Seq<Seq<char>>)
    requires
        tokens.len() <= usize::MAX,
        forall|k: int| 0 <= k < parts.len() ==> token_ids(tokens).contains_key(#[trigger] parts[k]),
    ensures
        decoded_bytes(tokens, part_ids(tokens, parts)) == token_bytes(concat(parts)),
        forall|k: int| 0 <= k < parts.len() ==> #[trigger] part_ids(tokens, parts)[k] < tokens.len(),
    decreases parts.len(),
{
    let ids = part_ids(tokens, parts);
    assert forall|k: int| 0 <= k < parts.len() implies #[trigger] ids[k] < tokens.len() by {
        lemma_token_ids(tokens, parts[k]);
    }
    if parts.len() == 0 {
        assert(token_bytes(concat(parts)) =~= Seq::<u8>::empty());
    } else {
        let rest = parts.drop_first();
        assert forall|k: int| 0 <= k < rest.len() implies token_ids(tokens).contains_key(
            #[trigger] rest[k],
        ) by {
            assert(rest[k] == parts[k + 1]);
        }
        lemma_ids_decode(tokens, rest);
        assert(ids.drop_first() =~= part_ids(tokens, rest));
        lemma_token_ids(tokens, parts[0]);
        lemma_token_bytes_append(parts[0], concat(rest));
    }
}

/// Spelling bytes as chars and reading the chars back gives the bytes.
pub proof fn lemma_spelled(bytes: Seq<u8>)
    ensures
        token_bytes(concat(spelled(bytes))) == bytes,
    decreases bytes.len(),
{
    if bytes.len() == 0 {
        assert(token_bytes(concat(spelled(bytes))) =~= bytes);
    } else {
        lemma_spelled(bytes.drop_first());
        assert(spelled(bytes).drop_first() =~= spelled(bytes.drop_first()));
        lemma_token_bytes_append(seq![spec_byte_char(bytes[0])], concat(spelled(bytes.drop_first())));
        lemma_char_byte_inverts_byte_char(bytes[0]);
        assert(token_bytes(seq![spec_byte_char(bytes[0])]) =~= seq![bytes[0]]);
        assert(token_bytes(concat(spelled(bytes))) =~= bytes);
    }
}

/// The ids of a chunk spell its bytes.
pub proof fn lemma_merge_ids_decode(tokens: Seq<Seq<char>>, bytes: Seq<u8>)
    requires
        tokens.len() <= usize::MAX,
        merges_to_tokens(tokens, bytes),
    ensures
        decoded_bytes(tokens, merge_ids(tokens, bytes)) == bytes,
        forall|k: int| 0 <= k < merge_ids(tokens, bytes).len() ==> #[trigger] merge_ids(tokens, bytes)[k] < tokens.len(),
{
    let parts = spelled(bytes);
    lemma_bpe_concat(tokens, parts);
    lemma_ids_decode(tokens, bpe(tokens, parts));
    lemma_spelled(bytes);
}

/// Decoding the ids that `encode` gives for a text spells the text's bytes
/// again, so it gives back the text; every id names a token.
pub proof fn law_decode_encode(tokens: Seq<Seq<char>>, text: Seq<char>)
    requires
        tokens.len() <= usize::MAX,
        encodable(tokens, text),
    ensures
        decoded_bytes(tokens, encode_ids(tokens, text)) == encode_utf8(text),
        valid_utf8(decoded_bytes(tokens, encode_ids(tokens, text))),
        decode_utf8(decoded_bytes(tokens, encode_ids(tokens, text))) == text,
        forall|k: int|
            0 <= k < encode_ids(tokens, text).len() ==> #[trigger] encode_ids(tokens, text)[k]
                < tokens.len(),
    decreases text.len(),
{
    encode_utf8_valid_utf8(text);
    encode_utf8_decode_utf8(text);
    let ids = encode_ids(tokens, text);
    if text.len() == 0 {
        assert(ids =~= Seq::<usize>::empty());
        assert(encode_utf8(text) =~= Seq::<u8>::empty());
    } else {
        lemma_chunk_len(text);
        let n = chunk_len(text)->0;
        let head = text.take(n);
        let tail = text.skip(n);
        assert(chunks(text)[0] == head);
        assert(chunks(text).drop_first() =~= chunks(tail));
        assert forall|i: int| 0 <= i < chunks(tail).len() implies merges_to_tokens(
            tokens,
            encode_utf8(#[trigger] chunks(tail)[i]),
        ) by {
            assert(chunks(tail)[i] == chunks(text)[i + 1]);
        }
        law_decode_encode(tokens, tail);
        let per = chunks(text).map_values(|c: Seq<char>| merge_ids(tokens, encode_utf8(c)));
        assert(per.drop_first() =~= chunks(tail).map_values(
            |c: Seq<char>| merge_ids(tokens, encode_utf8(c)),
        ));
        assert(per[0] == merge_ids(tokens, encode_utf8(head)));
        lemma_merge_ids_decode(tokens, encode_utf8(head));
        lemma_decoded_append(tokens, per[0], encode_ids(tokens, tail));
        lemma_encode_concat(head, tail);
        assert(head + tail =~= text);
        assert forall|k: int| 0 <= k < ids.len() implies #[trigger] ids[k] < tokens.len() by {
            if k < per[0].len() {
                assert(ids[k] == per[0][k]);
            } else {
                assert(ids[k] == encode_ids(tokens, tail)[k - per[0].len()]);
            }
        }
    }
}

/// Every byte, spelled as its one char, is a token.
pub open spec fn byte_complete(tokens: Seq<Seq<char>>) -> bool {
    forall|b: u8| tokens.contains(seq![#[trigger] spec_byte_char(b)])
}

/// A token of the list is one that the ids find.
proof fn lemma_token_found(tokens: Seq<Seq<char>>, t: Seq<char>)
    requires
        tokens.contains(t),
    ensures
        token_ids(tokens).contains_key(t),
    decreases tokens.len(),
{
    let i = choose|i: int| 0 <= i < tokens.len() && tokens[i] == t;
    if t != tokens.last() {
        let rest = tokens.drop_last();
        assert(rest[i] == t);
        lemma_token_found(rest, t);
    }
}

/// Merging parts that are all tokens leaves parts that are all tokens: a
/// pair is joined only when the joined part is a token.
proof fn lemma_bpe_keeps_tokens(tokens: Seq<Seq<char>>, parts: Seq<Seq<char>>)
    requires
        forall|k: int| 0 <= k < parts.len() ==> token_ids(tokens).contains_key(#[trigger] parts[k]),
    ensures
        forall|k: int|
            0 <= k < bpe(tokens, parts).len() ==> token_ids(tokens).contains_key(
                #[trigger] bpe(tokens, parts)[k],
            ),
    decreases parts.len(),
{
    lemma_best_pair(tokens, parts, parts.len() - 1);
    if let Some((r, i)) = best_pair(tokens, parts, parts.len() - 1) {
        if 0 <= i < parts.len() - 1 {
            let merged = merge_at(parts, i);
            assert forall|k: int| 0 <= k < merged.len() implies token_ids(tokens).contains_key(
                #[trigger] merged[k],
            ) by {
                if k < i {
                    assert(merged[k] == parts[k]);
                } else if k == i {
                    assert(merged[k] == parts[i] + parts[i + 1]);
                } else {
                    assert(merged[k] == parts[k + 1]);
                }
            }
            lemma_bpe_keeps_tokens(tokens, merged);
            assert(bpe(tokens, parts) == bpe(tokens, merged));
        } else {
            assert(bpe(tokens, parts) == parts);
        }
    } else {
        assert(bpe(tokens, parts) == parts);
    }
}

/// Law: with every byte a token, every text can be encoded: each chunk
/// merges to tokens.
pub proof fn law_byte_complete_encodable(tokens: Seq<Seq<char>>, text: Seq<char>)
    requires
        byte_complete(tokens),
    ensures
        encodable(tokens, text),
{
    assert forall|i: int| 0 <= i < chunks(text).len() implies merges_to_tokens(
        tokens,
        encode_utf8(#[trigger] chunks(text)[i]),
    ) by {
        let bytes = encode_utf8(chunks(text)[i]);
        let parts = spelled(bytes);
        assert forall|k: int| 0 <= k < parts.len() implies token_ids(tokens).contains_key(
            #[trigger] parts[k],
        ) by {
            assert(parts[k] == seq![spec_byte_char(bytes[k])]);
            assert(tokens.contains(seq![spec_byte_char(bytes[k])]));
            lemma_token_found(tokens, parts[k]);
        }
        lemma_bpe_keeps_tokens(tokens, parts);
    }
}

/// Law: with every byte a token, encoding any text gives ids that name
/// tokens and spell the text's bytes, and decoding them gives the text back.
pub proof fn law_byte_complete_round_trip(tokens: Seq<Seq<char>>, text: Seq<char>)
    requires
        tokens.len() <= usize::MAX,
        byte_complete(tokens),
    ensures
        encodable(tokens, text),
        forall|k: int|
            0 <= k < encode_ids(tokens, text).len() ==> #[trigger] encode_ids(tokens, text)[k]
                < tokens.len(),
        decoded_bytes(tokens, encode_ids(tokens, text)) == encode_utf8(text),
        decode_utf8(decoded_bytes(tokens, encode_ids(tokens, text))) == text,
{
    law_byte_complete_encodable(tokens, text);
    law_decode_encode(tokens, text);
}

/// The bytes that print as themselves in Latin-1: `!` to `~`, `¡` to `¬`,
/// and `®` to `ÿ`.
pub open spec fn visible_byte(b: u8) -> bool {
    (('!' as u32) <= (b as u32) <= ('~' as u32)) || (('¡' as u32) <= (b as u32) <= ('¬' as u32))
        || (('®' as u32) <= (b as u32) <= ('ÿ' as u32))
}

/// Law: a visible byte is spelled by its own char; the other bytes are
/// spelled, in the order of the bytes, by the chars from U+0100 on, one
/// each, so that byte 0 is U+0100, a line feed U+010A and a space U+0120.
pub proof fn law_byte_spelling(b: u8, b2: u8)
    ensures
        visible_byte(b) ==> spec_byte_char(b) as u32 == b as u32,
        !visible_byte(b) ==> 0x100 <= (spec_byte_char(b) as u32) < 0x144,
        !visible_byte(b) && !visible_byte(b2) && b < b2 ==> (spec_byte_char(b) as u32)
            < (spec_byte_char(b2) as u32),
        b <= 0x20 ==> spec_byte_char(b) as u32 == 0x100 + b,
{
    let c = spec_byte_char(b);
    if visible_byte(b) {
        char_u32_cast(c, b as u32);
    }
}

/// Law: a char reads as a byte exactly when it spells that byte.
pub proof fn law_char_byte(c: char, b: u8)
    ensures
        spec_char_byte(c) == Some(b) <==> spec_byte_char(b) == c,
{
    lemma_char_byte_inverts_byte_char(b);
    lemma_byte_char_inverts_char_byte(c);
}

/// The best of the first `n` pairs when the pair at `i` has rank `r`, the
/// pairs before it a greater rank or none, and the pairs after it no
/// smaller rank.
proof fn lemma_best_pair_is(tokens: Seq<Seq<char>>, parts: Seq<Seq<char>>, n: int, i: int, r: usize)
    requires
        0 <= i,
        n <= parts.len() - 1,
        rank(tokens, parts[i] + parts[i + 1]) == Some(r),
        forall|j: int|
            0 <= j < i ==> !(rank(tokens, #[trigger] (parts[j] + parts[j + 1])) matches Some(r2)
                && r2 <= r),
        forall|j: int|
            i < j < parts.len() - 1 ==> !(rank(tokens, #[trigger] (parts[j] + parts[j + 1]))
                matches Some(r2) && r2 < r),
    ensures
        n <= i ==> !(best_pair(tokens, parts, n) matches Some((r2, _)) && r2 <= r),
        n > i ==> best_pair(tokens, parts, n) == Some((r, i)),
    decreases n,
{
    if n > 0 {
        lemma_best_pair_is(tokens, parts, n - 1, i, r);
        let k = n - 1;
        if k < i {
            assert(!(rank(tokens, parts[k] + parts[k + 1]) matches Some(r2) && r2 <= r));
        } else if k > i {
            assert(!(rank(tokens, parts[k] + parts[k + 1]) matches Some(r2) && r2 < r));
        }
    }
}

/// Law: merging first joins the neighbouring pair whose join is the token
/// of lowest rank, and among pairs of equal rank the leftmost, then goes on
/// merging what that gives.
pub proof fn law_bpe_merges_leftmost_best(tokens: Seq<Seq<char>>, parts: Seq<Seq<char>>, i: int)
    requires
        0 <= i < parts.len() - 1,
        rank(tokens, parts[i] + parts[i + 1]) is Some,
        forall|j: int|
            0 <= j < i ==> !(rank(tokens, #[trigger] (parts[j] + parts[j + 1])) matches Some(r2)
                && r2 <= rank(tokens, parts[i] + parts[i + 1])->Some_0),
        forall|j: int|
            i < j < parts.len() - 1 ==> !(rank(tokens, #[trigger] (parts[j] + parts[j + 1]))
                matches Some(r2) && r2 < rank(tokens, parts[i] + parts[i + 1])->Some_0),
    ensures
        bpe(tokens, parts) == bpe(tokens, merge_at(parts, i)),
{
    let r = rank(tokens, parts[i] + parts[i + 1])->Some_0;
    lemma_best_pair_is(tokens, parts, parts.len() - 1, i, r);
}

/// Law: merging stops when no neighbouring pair joins into a token.
pub proof fn law_bpe_stops(tokens: Seq<Seq<char>>, parts: Seq<Seq<char>>)
    requires
        forall|j: int|
            0 <= j < parts.len() - 1 ==> !token_ids(tokens).contains_key(
                #[trigger] (parts[j] + parts[j + 1]),
            ),
    ensures
        bpe(tokens, parts) == parts,
{
    lemma_best_pair(tokens, parts, parts.len() - 1);
}

/// Law: the rank of a join is the id of the token it spells, the greatest
/// id when the vocabulary spells it more than once.
pub proof fn law_rank_is_id(tokens: Seq<Seq<char>>, t: Seq<char>)
    requires
        tokens.len() <= usize::MAX,
    ensures
        rank(tokens, t) matches Some(r) ==> r < tokens.len() && tokens[r as int] == t && forall|k: int|
            r < k < tokens.len() ==> tokens[k] != t,
        rank(tokens, t) is None <==> !tokens.contains(t),
    decreases tokens.len(),
{
    lemma_token_ids(tokens, t);
    if tokens.contains(t) {
        lemma_token_found(tokens, t);
    }
    if tokens.len() > 0 {
        let rest = tokens.drop_last();
        law_rank_is_id(rest, t);
        if token_ids(rest).contains_key(t) && t != tokens.last() {
            assert(tokens[token_ids(rest)[t] as int] == t);
            assert(rank(tokens, t) == rank(rest, t));
            let r = token_ids(rest)[t];
            assert forall|k: int| r < k < tokens.len() implies tokens[k] != t by {
                if k < tokens.len() - 1 {
                    assert(tokens[k] == rest[k]);
                }
            }
        }
        if rank(tokens, t) is None && tokens.contains(t) {
            assert(false);
        }
        if !tokens.contains(t) && rank(tokens, t) is Some {
            let r = rank(tokens, t)->Some_0;
            assert(tokens[r as int] == t);
        }
    }
}

/// Law: joining the pair at `i` puts the two parts together in place of
/// the pair and keeps every other part, in order.
pub proof fn law_merge_at(parts: Seq<Seq<char>>, i: int)
    requires
        0 <= i < parts.len() - 1,
    ensures
        merge_at(parts, i).len() == parts.len() - 1,
        forall|k: int| 0 <= k < i ==> #[trigger] merge_at(parts, i)[k] == parts[k],
        merge_at(parts, i)[i] == parts[i] + parts[i + 1],
        forall|k: int| i < k < parts.len() - 1 ==> #[trigger] merge_at(parts, i)[k] == parts[k + 1],
{
}

proof fn lemma_place_tokens(entries: Seq<(Seq<char>, JsonModel)>, k: int, vocab: Seq<Seq<char>>)
    requires
        0 <= k <= entries.len(),
        vocab.len() == entries.len(),
    ensures
        place_tokens(entries, k, vocab) matches Ok(t) ==> {
            &&& t.len() == entries.len()
            &&& forall|x: int|
                k <= x < entries.len() ==> (usize_value(#[trigger] entries[x].1) matches Some(i) && i
                    < entries.len() && (entries[x].0.len() > 0 ==> t[i as int] == entries[x].0))
            &&& forall|i: int| 0 <= i < vocab.len() && vocab[i].len() > 0 ==> #[trigger] t[i] == vocab[i]
        },
    decreases entries.len() - k,
{
    if k < entries.len() {
        let (token, id) = entries[k];
        if byte_level(token) {
            if let Some(i) = usize_value(id) {
                if i < entries.len() && vocab[i as int].len() == 0 {
                    let v2 = vocab.update(i as int, token);
                    lemma_place_tokens(entries, k + 1, v2);
                    if let Ok(t) = place_tokens(entries, k, vocab) {
                        assert forall|j: int| 0 <= j < vocab.len() && vocab[j].len() > 0 implies #[trigger] t[j]
                            == vocab[j] by {
                            assert(j != i);
                            assert(v2[j] == vocab[j]);
                        }
                        if token.len() > 0 {
                            assert(v2[i as int] == token);
                        }
                    }
                }
            }
        }
    }
}

/// Law: a vocabulary that reads has a token per entry, and each entry's
/// token stands at the id the entry gives it, an integer below the number
/// of entries.
pub proof fn law_vocab_places_tokens(json: JsonModel)
    ensures
        spec_vocab(json) matches Ok(tokens) ==> (vocab_entries(json) matches Some(entries)
            && tokens.len() == entries.len() && forall|x: int|
            0 <= x < entries.len() ==> (usize_value(#[trigger] entries[x].1) matches Some(i) && i
                < entries.len() && (entries[x].0.len() > 0 ==> tokens[i as int] == entries[x].0))),
{
    if let Some(entries) = vocab_entries(json) {
        lemma_place_tokens(entries, 0, Seq::new(entries.len(), |i: int| Seq::<char>::empty()));
    }
}

/// Each run ends at the first char from `i` on that is not of its kind.
proof fn lemma_run_ends(cs: Seq<char>, i: int)
    requires
        0 <= i <= cs.len(),
    ensures
        i <= letter_run(cs, i) <= cs.len(),
        i <= punct_run(cs, i) <= cs.len(),
        i <= newline_run(cs, i) <= cs.len(),
        i <= space_run(cs, i) <= cs.len(),
        forall|k: int| i <= k < letter_run(cs, i) ==> letter(#[trigger] cs[k]),
        letter_run(cs, i) == cs.len() || !letter(cs[letter_run(cs, i)]),
        forall|k: int| i <= k < punct_run(cs, i) ==> is_punct(#[trigger] cs[k]),
        punct_run(cs, i) == cs.len() || !is_punct(cs[punct_run(cs, i)]),
        forall|k: int| i <= k < newline_run(cs, i) ==> is_newline(#[trigger] cs[k]),
        newline_run(cs, i) == cs.len() || !is_newline(cs[newline_run(cs, i)]),
        forall|k: int| i <= k < space_run(cs, i) ==> white_space(#[trigger] cs[k]),
        space_run(cs, i) == cs.len() || !white_space(cs[space_run(cs, i)]),
    decreases cs.len() - i,
{
    lemma_runs(cs, i);
    if i < cs.len() {
        lemma_run_ends(cs, i + 1);
    }
}

/// Law: a contraction is an apostrophe and one of the tails `s`, `t`, `m`,
/// `d`, `re`, `ve`, `ll`, in either case.
pub proof fn law_contraction(cs: Seq<char>)
    ensures
        spec_contraction(cs) matches Some(n) ==> cs[0] == '\'' && ((n == 2 && (ascii_lower(cs[1])
            == 's' || ascii_lower(cs[1]) == 't' || ascii_lower(cs[1]) == 'm' || ascii_lower(cs[1])
            == 'd')) || (n == 3 && cs.len() >= 3 && ((ascii_lower(cs[1]) == 'r' && ascii_lower(cs[2])
            == 'e') || (ascii_lower(cs[1]) == 'v' && ascii_lower(cs[2]) == 'e') || (ascii_lower(
            cs[1],
        ) == 'l' && ascii_lower(cs[2]) == 'l')))),
        cs.len() >= 2 && cs[0] == '\'' && (ascii_lower(cs[1]) == 's' || ascii_lower(cs[1]) == 't'
            || ascii_lower(cs[1]) == 'm' || ascii_lower(cs[1]) == 'd') ==> spec_contraction(cs)
            == Some(2int),
{
}

/// Law: an ASCII capital reads as its small letter, and every other char
/// as itself.
pub proof fn law_ascii_lower(c: char)
    ensures
        'A' <= c <= 'Z' ==> ascii_lower(c) as u32 == c as u32 + 32 && 'a' <= ascii_lower(c) <= 'z',
        !('A' <= c <= 'Z') ==> ascii_lower(c) == c,
{
}

/// Law: a word is letters, as many as follow, after at most one char that
/// is neither a line break, a letter nor a number; a text that starts with
/// a letter starts with a word.
pub proof fn law_word(cs: Seq<char>)
    ensures
        spec_word(cs) matches Some(n) ==> 1 <= n <= cs.len() && (forall|k: int|
            1 <= k < n ==> letter(#[trigger] cs[k])) && (letter(cs[0]) || !(is_newline(cs[0])
            || numeric(cs[0]))) && (n == cs.len() || !letter(cs[n])),
        cs.len() > 0 && letter(cs[0]) ==> spec_word(cs) is Some,
{
    if cs.len() > 0 {
        lemma_run_ends(cs, 0);
        lemma_run_ends(cs, 1);
    }
}

/// Law: a number is one numeric char.
pub proof fn law_number(cs: Seq<char>)
    ensures
        spec_number(cs) matches Some(n) ==> n == 1 && numeric(cs[0]),
        cs.len() > 0 && numeric(cs[0]) ==> spec_number(cs) == Some(1int),
{
}

/// Law: punctuation is an optional space, then as many chars as follow that
/// are neither whitespace, letters nor numbers (at least one, up to `e`),
/// then as many line breaks as follow.
pub proof fn law_punctuation(cs: Seq<char>)
    ensures
        spec_punctuation(cs) matches Some(n) ==> ({
            let s = if cs[0] == ' ' { 1int } else { 0int };
            let e = punct_run(cs, s);
            &&& s < e <= n <= cs.len()
            &&& forall|k: int| s <= k < e ==> is_punct(#[trigger] cs[k])
            &&& e == cs.len() || !is_punct(cs[e])
            &&& forall|k: int| e <= k < n ==> is_newline(#[trigger] cs[k])
            &&& n == cs.len() || !is_newline(cs[n])
        }),
{
    if let Some(n) = spec_punctuation(cs) {
        let s = if cs[0] == ' ' { 1int } else { 0int };
        lemma_run_ends(cs, s);
        let e = punct_run(cs, s);
        lemma_run_ends(cs, e);
        assert(s < e <= n <= cs.len());
    }
}

/// Law: line breaks are the whitespace that starts the text up to and with
/// its last line break.
pub proof fn law_newlines(cs: Seq<char>)
    ensures
        spec_newlines(cs) matches Some(n) ==> 1 <= n <= cs.len() && (forall|k: int|
            0 <= k < n ==> white_space(#[trigger] cs[k])) && is_newline(cs[n - 1]) && forall|k: int|
            n <= k < space_run(cs, 0) ==> !is_newline(#[trigger] cs[k]),
        spec_newlines(cs) is None ==> forall|k: int|
            0 <= k < space_run(cs, 0) ==> !is_newline(#[trigger] cs[k]),
{
    lemma_run_ends(cs, 0);
    lemma_newline_last(cs, space_run(cs, 0));
}

proof fn lemma_newline_last(cs: Seq<char>, m: int)
    requires
        0 <= m <= cs.len(),
    ensures
        last_newline(cs, m) matches Some(i) ==> 0 <= i < m && is_newline(cs[i]) && forall|k: int|
            i < k < m ==> !is_newline(#[trigger] cs[k]),
        last_newline(cs, m) is None ==> forall|k: int| 0 <= k < m ==> !is_newline(#[trigger] cs[k]),
    decreases m,
{
    if m > 0 {
        lemma_newline_last(cs, m - 1);
    }
}

/// Law: a run of whitespace that ends the text is taken whole; one that a
/// non-space follows is taken but for its last char, which goes with what
/// follows; a single whitespace char before a non-space is not taken.
pub proof fn law_space(cs: Seq<char>)
    ensures
        spec_space(cs) matches Some(n) ==> 1 <= n <= cs.len() && (forall|k: int|
            0 <= k < n ==> white_space(#[trigger] cs[k])) && (n == cs.len() || (white_space(cs[n])
            && (n + 1 == cs.len() || !white_space(cs[n + 1])))),
        spec_space(cs) is None ==> cs.len() == 0 || !white_space(cs[0]) || (cs.len() >= 2
            && !white_space(cs[1])),
{
    lemma_run_ends(cs, 0);
}

/// Law: whitespace is all the whitespace that starts the text.
pub proof fn law_whitespace(cs: Seq<char>)
    ensures
        spec_whitespace(cs) matches Some(n) ==> 1 <= n <= cs.len() && (forall|k: int|
            0 <= k < n ==> white_space(#[trigger] cs[k])) && (n == cs.len() || !white_space(cs[n])),
        spec_whitespace(cs) is None <==> (cs.len() == 0 || !white_space(cs[0])),
{
    lemma_run_ends(cs, 0);
}

/// Law: a chunk is taken by the first rule that matches, in the order
/// contraction, word, number, punctuation, line breaks, space, whitespace.
pub proof fn law_chunk_order(cs: Seq<char>)
    ensures
        spec_contraction(cs) is Some ==> chunk_len(cs) == spec_contraction(cs),
        spec_contraction(cs) is None && spec_word(cs) is Some ==> chunk_len(cs) == spec_word(cs),
        spec_contraction(cs) is None && spec_word(cs) is None && spec_number(cs) is Some ==> chunk_len(
            cs,
        ) == spec_number(cs),
        spec_contraction(cs) is None && spec_word(cs) is None && spec_number(cs) is None
            && spec_punctuation(cs) is Some ==> chunk_len(cs) == spec_punctuation(cs),
        spec_contraction(cs) is None && spec_word(cs) is None && spec_number(cs) is None
            && spec_punctuation(cs) is None && spec_newlines(cs) is Some ==> chunk_len(cs)
            == spec_newlines(cs),
        spec_contraction(cs) is None && spec_word(cs) is None && spec_number(cs) is None
            && spec_punctuation(cs) is None && spec_newlines(cs) is None && spec_space(cs) is Some
            ==> chunk_len(cs) == spec_space(cs),
        spec_contraction(cs) is None && spec_word(cs) is None && spec_number(cs) is None
            && spec_punctuation(cs) is None && spec_newlines(cs) is None && spec_space(cs) is None
            ==> chunk_len(cs) == spec_whitespace(cs),
{
}

} // verus!
