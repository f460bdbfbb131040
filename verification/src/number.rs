//! Deciding, with integers only, whether a JSON number literal reads as a
//! finite double.
use vstd::prelude::*;
use vstd::arithmetic::power::*;

use vstd::arithmetic::mul::{lemma_mul_inequality, lemma_mul_strict_inequality};

use crate::json::{
    at, digit_run, digits_value, exp_digits_start, exponent, frac_end, fraction,
    int_end, is_digit, lemma_digit_run, lemma_number_end, lexeme_parts, number_end,
    overflow_threshold, representable, scaled_below_threshold, sign_len, ParseError,
};

verus! {

/// The threshold lies between 10^308 and 10^309: it has 309 decimal digits.
proof fn lemma_threshold_digits()
    ensures
        pow(10, 308) <= overflow_threshold(),
        overflow_threshold() < pow(10, 309),
{
    reveal_with_fuel(pow, 2);
    lemma_pow_adds(10, 1, 1);
    assert(pow(10, 2) == 100);
    lemma_pow_adds(10, 2, 2);
    assert(pow(10, 4) == 10000);
    lemma_pow_adds(10, 4, 4);
    assert(pow(10, 8) == 100000000);
    lemma_pow_adds(10, 8, 8);
    assert(pow(10, 16) == 10000000000000000);
    lemma_pow_adds(10, 16, 16);
    assert(pow(10, 32) == 100000000000000000000000000000000);
    lemma_pow_adds(10, 32, 32);
    assert(pow(10, 64) == 10000000000000000000000000000000000000000000000000000000000000000);
    lemma_pow_adds(10, 64, 64);
    assert(pow(10, 128) == 100000000000000000000000000000000000000000000000000000000000000000000000000000000000000000000000000000000000000000000000000000000);
    lemma_pow_adds(10, 128, 128);
    assert(pow(10, 256) == 10000000000000000000000000000000000000000000000000000000000000000000000000000000000000000000000000000000000000000000000000000000000000000000000000000000000000000000000000000000000000000000000000000000000000000000000000000000000000000000000000000000000000000);
    lemma_pow_adds(10, 256, 32);
    assert(pow(10, 288) == 1000000000000000000000000000000000000000000000000000000000000000000000000000000000000000000000000000000000000000000000000000000000000000000000000000000000000000000000000000000000000000000000000000000000000000000000000000000000000000000000000000000000000000000000000000000000000000000000000);
    lemma_pow_adds(10, 288, 16);
    assert(pow(10, 304) == 10000000000000000000000000000000000000000000000000000000000000000000000000000000000000000000000000000000000000000000000000000000000000000000000000000000000000000000000000000000000000000000000000000000000000000000000000000000000000000000000000000000000000000000000000000000000000000000000000000000000000000);
    lemma_pow_adds(10, 304, 4);
    assert(pow(10, 308) == 100000000000000000000000000000000000000000000000000000000000000000000000000000000000000000000000000000000000000000000000000000000000000000000000000000000000000000000000000000000000000000000000000000000000000000000000000000000000000000000000000000000000000000000000000000000000000000000000000000000000000000000);
    lemma_pow_adds(10, 308, 1);
}

/// Every byte of `s` is a decimal digit.
pub open spec fn all_digits(s: Seq<u8>) -> bool {
    forall|i: int| 0 <= i < s.len() ==> is_digit(#[trigger] s[i])
}

/// Every byte of `s` is the digit zero.
pub open spec fn all_zeros(s: Seq<u8>) -> bool {
    forall|i: int| 0 <= i < s.len() ==> #[trigger] s[i] == ('0' as u8)
}

/// The digits of a concatenation: the first part is shifted past the second.
pub proof fn lemma_digits_concat(a: Seq<u8>, b: Seq<u8>)
    ensures
        digits_value(a + b) == digits_value(a) * pow(10, b.len()) + digits_value(b),
    decreases b.len(),
{
    reveal(pow);
    if b.len() == 0 {
        assert(a + b =~= a);
    } else {
        let b1 = b.drop_last();
        lemma_digits_concat(a, b1);
        assert((a + b).drop_last() =~= a + b1);
        assert((a + b).last() == b.last());
        let x = digits_value(a);
        let q = pow(10, b1.len());
        assert(pow(10, b.len()) == 10 * q);
        assert(x * (10 * q) == (x * q) * 10) by (nonlinear_arith);
    }
}

/// A run of `n` digits stands for less than 10^n.
pub proof fn lemma_digits_below(s: Seq<u8>)
    requires
        all_digits(s),
    ensures
        digits_value(s) < pow(10, s.len()),
    decreases s.len(),
{
    reveal(pow);
    if s.len() > 0 {
        lemma_digits_below(s.drop_last());
        assert(is_digit(s[s.len() - 1]));
    }
}

/// A run of zeros stands for zero.
pub proof fn lemma_zeros_value(s: Seq<u8>)
    requires
        all_zeros(s),
    ensures
        digits_value(s) == 0,
    decreases s.len(),
{
    if s.len() > 0 {
        lemma_zeros_value(s.drop_last());
        assert(s[s.len() - 1] == ('0' as u8));
    }
}

/// A run of `n` digits that starts with a nonzero digit stands for at least 10^(n-1).
pub proof fn lemma_digits_at_least(s: Seq<u8>)
    requires
        all_digits(s),
        s.len() > 0,
        s[0] != ('0' as u8),
    ensures
        digits_value(s) >= pow(10, (s.len() - 1) as nat),
{
    let head = s.take(1);
    let tail = s.skip(1);
    assert(s =~= head + tail);
    lemma_digits_concat(head, tail);
    assert(head.drop_last() =~= Seq::<u8>::empty());
    assert(digits_value(head) >= 1);
    lemma_pow_positive(10, tail.len());
    lemma_mul_inequality(1, digits_value(head) as int, pow(10, tail.len()));
}

/// The base of the limbs in which 309-digit numbers are compared: 10^18.
pub open spec fn limb_base() -> int {
    1_000_000_000_000_000_000
}

/// The value of the first `k` limbs of `ls`, most significant first.
pub open spec fn limbs_value(ls: Seq<u64>, k: int) -> int
    decreases k,
{
    if k <= 0 {
        0
    } else {
        limbs_value(ls, k - 1) * limb_base() + ls[k - 1]
    }
}

/// The value of the first `k` limbs depends on those limbs alone.
pub proof fn lemma_limbs_prefix(a: Seq<u64>, b: Seq<u64>, k: int)
    requires
        0 <= k <= a.len(),
        k <= b.len(),
        forall|j: int| 0 <= j < k ==> #[trigger] a[j] == b[j],
    ensures
        limbs_value(a, k) == limbs_value(b, k),
    decreases k,
{
    if k > 0 {
        lemma_limbs_prefix(a, b, k - 1);
    }
}

/// The first limb where two limb sequences differ orders their values.
pub proof fn lemma_limbs_order(a: Seq<u64>, b: Seq<u64>, k: int, n: int)
    requires
        0 <= k < n <= a.len(),
        n <= b.len(),
        limbs_value(a, k) == limbs_value(b, k),
        a[k] < b[k],
        forall|j: int| 0 <= j < n ==> #[trigger] a[j] < limb_base(),
        forall|j: int| 0 <= j < n ==> #[trigger] b[j] < limb_base(),
    ensures
        limbs_value(a, n) < limbs_value(b, n),
    decreases n - k,
{
    if n > k + 1 {
        lemma_limbs_order(a, b, k, n - 1);
        assert(a[n - 1] < limb_base());
        assert(b[n - 1] < limb_base());
    }
}

/// The threshold in limbs: its first three digits, then seventeen groups of eighteen.
fn threshold_limbs() -> (r: Vec<u64>)
    ensures
        r@.len() == 18,
        forall|j: int| 0 <= j < 18 ==> #[trigger] r@[j] < limb_base(),
        limbs_value(r@, 18) == overflow_threshold(),
{
    let r: Vec<u64> = vec![
        179,
        769313486231580793,
        728971405303415079,
        934132710037826936,
        173778980444968292,
        764750946649017977,
        587207096330286416,
        692887910946555547,
        851940402630657488,
        671505820681908902,
        708383676273854,
        845817711531764475,
        730270069855571366,
        959622842914819860,
        834936475292719074,
        168444365510704342,
        711559699508093042,
        880177904174497792,
    ];
    proof {
        reveal_with_fuel(limbs_value, 19);
    }
    r
}

/// The 309 leading digits of a number written `s`: its digits, cut after 309
/// or padded with zeros up to 309.
pub open spec fn leading_digits(s: Seq<u8>) -> Seq<u8> {
    Seq::new(309, |i: int| if i < s.len() { s[i] } else { '0' as u8 })
}

/// 10^18 fits a limb computation in `u64`, and every lower power is below it.
proof fn lemma_limb_base_pow(j: nat)
    requires
        j <= 18,
    ensures
        pow(10, j) <= limb_base(),
        pow(10, 18) == limb_base(),
{
    reveal_with_fuel(pow, 19);
    lemma_pow_increases(10, j, 18);
}

/// Whether the 309 leading digits of `d[z..]` stand for less than the threshold.
fn leading_digits_below(d: &Vec<u8>, z: usize) -> (r: bool)
    requires
        z <= d@.len(),
        all_digits(d@),
    ensures
        r == (digits_value(leading_digits(d@.skip(z as int))) < overflow_threshold()),
{
    let ghost x = leading_digits(d@.skip(z as int));
    let dl = d.len();
    let rest = dl - z;
    let mut xl: Vec<u64> = Vec::new();
    let mut pos: usize = 0;
    let mut k: usize = 0;
    while k < 18
        invariant
            x == leading_digits(d@.skip(z as int)),
            all_digits(d@),
            z <= d@.len(),
            dl == d@.len(),
            rest == dl - z,
            k <= 18,
            pos == (if k == 0 { 0 } else { 3 + 18 * (k - 1) }),
            xl@.len() == k,
            forall|j: int| 0 <= j < k ==> #[trigger] xl@[j] < limb_base(),
            digits_value(x.take(pos as int)) == limbs_value(xl@, k as int),
        decreases 18 - k,
    {
        let width: usize = if k == 0 { 3 } else { 18 };
        let mut limb: u64 = 0;
        let mut m: u64 = 1;
        let mut j: usize = 0;
        proof {
            reveal_with_fuel(pow, 1);
            assert(x.subrange(pos as int, pos as int) =~= Seq::<u8>::empty());
        }
        while j < width
            invariant
                x == leading_digits(d@.skip(z as int)),
                all_digits(d@),
                z <= d@.len(),
                dl == d@.len(),
                rest == dl - z,
                j <= width <= 18,
                pos + width <= 309,
                limb == digits_value(x.subrange(pos as int, pos + j)),
                m == pow(10, j as nat),
                limb < m,
            decreases width - j,
        {
            let i = pos + j;
            let digit: u64 = if i < rest {
                assert(is_digit(d@[z + i]));
                (d[z + i] - ('0' as u8)) as u64
            } else {
                0
            };
            proof {
                let sub = x.subrange(pos as int, i + 1);
                assert(sub.drop_last() =~= x.subrange(pos as int, i as int));
                assert(sub.last() == x[i as int]);
                reveal(pow);
                lemma_limb_base_pow((j + 1) as nat);
                assert(pow(10, (j + 1) as nat) == 10 * pow(10, j as nat));
            }
            limb = limb * 10 + digit;
            m = m * 10;
            j += 1;
        }
        proof {
            let head = x.take(pos as int);
            let part = x.subrange(pos as int, pos + width);
            assert(x.take(pos + width) =~= head + part);
            lemma_digits_concat(head, part);
            lemma_limb_base_pow(width as nat);
            if k == 0 {
                assert(head =~= Seq::<u8>::empty());
            }
        }
        let ghost before = xl@;
        xl.push(limb);
        proof {
            lemma_limbs_prefix(before, xl@, k as int);
        }
        pos += width;
        k += 1;
    }
    proof {
        assert(x.take(309) =~= x);
    }
    let tl = threshold_limbs();
    let mut k: usize = 0;
    while k < 18 && xl[k] == tl[k]
        invariant
            k <= 18,
            xl@.len() == 18,
            tl@.len() == 18,
            limbs_value(xl@, k as int) == limbs_value(tl@, k as int),
        decreases 18 - k,
    {
        k += 1;
    }
    if k == 18 {
        return false;
    }
    proof {
        if xl@[k as int] < tl@[k as int] {
            lemma_limbs_order(xl@, tl@, k as int, 18);
        } else {
            lemma_limbs_order(tl@, xl@, k as int, 18);
        }
    }
    xl[k] < tl[k]
}

/// A number of `n` digits, scaled up by 10^e, is below the threshold when it
/// has at most 308 digits before the point, and not when it has 310 or more.
proof fn lemma_scaled_up(v: int, n: nat, e: nat)
    requires
        n >= 1,
        pow(10, (n - 1) as nat) <= v < pow(10, n),
    ensures
        n + e <= 308 ==> v * pow(10, e) < overflow_threshold(),
        n + e >= 310 ==> v * pow(10, e) >= overflow_threshold(),
{
    lemma_threshold_digits();
    lemma_pow_positive(10, e);
    if n + e <= 308 {
        lemma_mul_strict_inequality(v, pow(10, n), pow(10, e));
        lemma_pow_adds(10, n, e);
        lemma_pow_increases(10, n + e, 308);
    }
    if n + e >= 310 {
        lemma_mul_inequality(pow(10, (n - 1) as nat), v, pow(10, e));
        lemma_pow_adds(10, (n - 1) as nat, e);
        lemma_pow_increases(10, 309, (n - 1 + e) as nat);
    }
}

/// The same when the number is scaled down by 10^f: it is compared with the
/// threshold scaled up by 10^f.
proof fn lemma_scaled_down(v: int, n: nat, f: nat)
    requires
        n >= 1,
        pow(10, (n - 1) as nat) <= v < pow(10, n),
    ensures
        n - f <= 308 ==> v < overflow_threshold() * pow(10, f),
        n - f >= 310 ==> v >= overflow_threshold() * pow(10, f),
{
    let t = overflow_threshold() as int;
    lemma_threshold_digits();
    lemma_pow_positive(10, f);
    if n - f <= 308 {
        lemma_pow_increases(10, n, 308 + f);
        lemma_pow_adds(10, 308, f);
        lemma_mul_inequality(pow(10, 308), t, pow(10, f));
    }
    if n - f >= 310 {
        lemma_pow_increases(10, 309 + f, (n - 1) as nat);
        lemma_pow_adds(10, 309, f);
        lemma_mul_strict_inequality(t, pow(10, 309), pow(10, f));
    }
}

/// With 309 digits before the point and none after, the number is its
/// digits padded with zeros.
proof fn lemma_leading_padded(s: Seq<u8>, e: nat)
    requires
        s.len() + e == 309,
    ensures
        digits_value(leading_digits(s)) == digits_value(s) * pow(10, e),
{
    let zeros = Seq::new(e, |i: int| '0' as u8);
    assert(leading_digits(s) =~= s + zeros);
    lemma_digits_concat(s, zeros);
    lemma_zeros_value(zeros);
}

/// With 309 digits before the point and `f` after, the number is below the
/// threshold exactly when its 309 leading digits are.
proof fn lemma_leading_cut(s: Seq<u8>, f: nat)
    requires
        all_digits(s),
        s.len() == 309 + f,
    ensures
        (digits_value(s) < overflow_threshold() * pow(10, f)) <==> (digits_value(
            leading_digits(s),
        ) < overflow_threshold()),
{
    let t = overflow_threshold() as int;
    let x = leading_digits(s);
    let tail = s.skip(309);
    let w = pow(10, f);
    assert(x =~= s.take(309));
    assert(s =~= x + tail);
    assert(all_digits(tail));
    lemma_digits_concat(x, tail);
    lemma_digits_below(tail);
    lemma_pow_positive(10, f);
    let a = digits_value(x) as int;
    if a < t {
        lemma_mul_inequality(a + 1, t, w);
        assert((a + 1) * w == a * w + w) by (nonlinear_arith);
    } else {
        lemma_mul_inequality(t, a, w);
    }
}

/// Where the leading digit of `d[z..]` stands decides how its value scaled by
/// 10^e compares with the threshold; only when it is the 309th digit before
/// the point do the 309 leading digits have to be compared.
pub proof fn lemma_scale_classes(d: Seq<u8>, e: int, z: int)
    requires
        all_digits(d),
        0 <= z < d.len(),
        all_zeros(d.take(z)),
        d[z] != ('0' as u8),
    ensures
        d.len() - z + e <= 308 ==> scaled_below_threshold(d, e),
        d.len() - z + e >= 310 ==> !scaled_below_threshold(d, e),
        d.len() - z + e == 309 ==> (scaled_below_threshold(d, e) <==> digits_value(
            leading_digits(d.skip(z)),
        ) < overflow_threshold()),
{
    let s = d.skip(z);
    let n = s.len();
    assert(digits_value(d) == digits_value(s)) by {
        assert(d =~= d.take(z) + s);
        lemma_digits_concat(d.take(z), s);
        lemma_zeros_value(d.take(z));
        assert(digits_value(d.take(z)) == 0);
        assert(0 * pow(10, s.len()) == 0);
    }
    assert(all_digits(s));
    lemma_digits_below(s);
    lemma_digits_at_least(s);
    let v = digits_value(s) as int;
    if e >= 0 {
        lemma_scaled_up(v, n, e as nat);
        if n + e == 309 {
            lemma_leading_padded(s, e as nat);
        }
    } else {
        lemma_scaled_down(v, n, (-e) as nat);
        if n + e == 309 {
            lemma_leading_cut(s, (-e) as nat);
        }
    }
}
/// The run of digits of `b` from `k` reads the same in a window `b[p..q]`
/// that holds it.
pub proof fn lemma_digit_run_local(b: Seq<u8>, p: int, q: int, k: int)
    requires
        0 <= p <= k <= q <= b.len(),
        digit_run(b, k) <= q,
    ensures
        digit_run(b.subrange(p, q), k - p) == digit_run(b, k) - p,
    decreases q - k,
{
    lemma_digit_run(b, k);
    if k < q && is_digit(b[k]) {
        lemma_digit_run_local(b, p, q, k + 1);
    }
}

/// A number literal found at `p` is a number literal on its own.
pub proof fn lemma_number_end_local(b: Seq<u8>, p: int, q: int)
    requires
        0 <= p <= b.len(),
        number_end(b, p) == Ok::<int, ParseError>(q),
    ensures
        number_end(b.subrange(p, q), 0) == Ok::<int, ParseError>(q - p),
{
    let l = b.subrange(p, q);
    lemma_number_end(b, p);
    let p1 = if at(b, p, ('-' as u8)) { p + 1 } else { p };
    lemma_digit_run(b, p1);
    let p2 = if at(b, p1, ('0' as u8)) { p1 + 1 } else { digit_run(b, p1) };
    lemma_digit_run(b, p2 + 1);
    let p3 = if at(b, p2, ('.' as u8)) { digit_run(b, p2 + 1) } else { p2 };
    let p4 = if at(b, p3 + 1, ('+' as u8)) || at(b, p3 + 1, ('-' as u8)) { p3 + 2 } else { p3 + 1 };
    lemma_digit_run(b, p4);
    if !at(b, p1, ('0' as u8)) {
        lemma_digit_run_local(b, p, q, p1);
    }
    if at(b, p2, ('.' as u8)) {
        lemma_digit_run_local(b, p, q, p2 + 1);
    }
    if at(b, p3, ('e' as u8)) || at(b, p3, ('E' as u8)) {
        lemma_digit_run_local(b, p, q, p4);
    }
}

/// In a number literal, whatever follows the fraction is an exponent whose
/// digits run to the end.
pub proof fn lemma_lexeme_exponent(l: Seq<u8>)
    requires
        number_end(l, 0) == Ok::<int, ParseError>(l.len() as int),
    ensures
        frac_end(l) < l.len() ==> exp_digits_start(l) <= l.len() && all_digits(
            l.subrange(exp_digits_start(l), l.len() as int),
        ),
{
    let s = sign_len(l);
    lemma_digit_run(l, s);
    let i_end = int_end(l);
    lemma_digit_run(l, i_end + 1);
    let e1 = exp_digits_start(l);
    lemma_digit_run(l, e1);
    if at(l, s, ('0' as u8)) && i_end > s + 1 {
        assert(is_digit(l[s + 1]));
    }
    if frac_end(l) < l.len() {
        assert forall|i: int| 0 <= i < l.len() - e1 implies is_digit(
            #[trigger] l.subrange(e1, l.len() as int)[i],
        ) by {
            assert(l.subrange(e1, l.len() as int)[i] == l[e1 + i]);
        }
    }
}

/// Exponents are read up to 10^20; any larger one already decides the answer.
const EXPONENT_CAP: u128 = 100_000_000_000_000_000_000;

/// The end of the run of digits of `l` that starts at `p`.
fn digit_end(l: &[u8], p: usize) -> (r: usize)
    requires
        p <= l@.len(),
    ensures
        r == digit_run(l@, p as int),
{
    let mut q = p;
    while q < l.len() && ('0' as u8) <= l[q] && l[q] <= ('9' as u8)
        invariant
            p <= q <= l@.len(),
            digit_run(l@, q as int) == digit_run(l@, p as int),
        decreases l@.len() - q,
    {
        q += 1;
    }
    q
}

/// The value of the digits `l[from..]`, or `EXPONENT_CAP` when it is larger.
fn capped_digits_value(l: &[u8], from: usize) -> (r: u128)
    requires
        from <= l@.len(),
        all_digits(l@.subrange(from as int, l@.len() as int)),
    ensures
        r == (if digits_value(l@.subrange(from as int, l@.len() as int)) < EXPONENT_CAP {
            digits_value(l@.subrange(from as int, l@.len() as int))
        } else {
            EXPONENT_CAP as nat
        }),
{
    let mut v: u128 = 0;
    let mut i = from;
    assert(l@.subrange(from as int, from as int) =~= Seq::<u8>::empty());
    while i < l.len()
        invariant
            from <= i <= l@.len(),
            all_digits(l@.subrange(from as int, l@.len() as int)),
            v == (if digits_value(l@.subrange(from as int, i as int)) < EXPONENT_CAP {
                digits_value(l@.subrange(from as int, i as int))
            } else {
                EXPONENT_CAP as nat
            }),
        decreases l@.len() - i,
    {
        proof {
            assert(l@.subrange(from as int, i + 1).drop_last() =~= l@.subrange(
                from as int,
                i as int,
            ));
            assert(l@.subrange(from as int, l@.len() as int)[i - from] == l@[i as int]);
        }
        let digit = (l[i] - ('0' as u8)) as u128;
        if v < EXPONENT_CAP {
            v = v * 10 + digit;
            if v > EXPONENT_CAP {
                v = EXPONENT_CAP;
            }
        }
        i += 1;
    }
    v
}

/// The significant digits of a number literal: its integer digits, then its
/// fraction's.
fn significant_digits(l: &[u8]) -> (r: (Vec<u8>, usize))
    ensures
        r.0@ == lexeme_parts(l@).0,
        all_digits(r.0@),
        r.1 == fraction(l@).len(),
{
    let len = l.len();
    let s: usize = if len > 0 && l[0] == ('-' as u8) { 1 } else { 0 };
    let i_end = digit_end(l, s);
    proof {
        lemma_digit_run(l@, s as int);
    }
    let mut d: Vec<u8> = Vec::new();
    let mut i = s;
    while i < i_end
        invariant
            s <= i <= i_end <= len,
            len == l@.len(),
            d@ == l@.subrange(s as int, i as int),
        decreases i_end - i,
    {
        d.push(l[i]);
        i += 1;
    }
    let mut frac_len: usize = 0;
    if i_end < len && l[i_end] == ('.' as u8) {
        let f_end = digit_end(l, i_end + 1);
        proof {
            lemma_digit_run(l@, i_end + 1);
        }
        i = i_end + 1;
        while i < f_end
            invariant
                i_end + 1 <= i <= f_end <= len,
                len == l@.len(),
                d@ == l@.subrange(s as int, i_end as int) + l@.subrange(i_end + 1, i as int),
            decreases f_end - i,
        {
            d.push(l[i]);
            i += 1;
        }
        frac_len = f_end - i_end - 1;
    }
    assert(d@ =~= lexeme_parts(l@).0);
    (d, frac_len)
}

/// The exponent of a number literal as a sign and a magnitude; a magnitude
/// of `EXPONENT_CAP` stands for any at least as large.
fn capped_exponent(l: &[u8]) -> (r: (bool, u128))
    requires
        number_end(l@, 0) == Ok::<int, ParseError>(l@.len() as int),
    ensures
        r.1 <= EXPONENT_CAP,
        r.1 < EXPONENT_CAP ==> exponent(l@) == (if r.0 { -(r.1 as int) } else { r.1 as int }),
        r.1 == EXPONENT_CAP ==> (if r.0 { exponent(l@) <= -EXPONENT_CAP } else { exponent(l@)
            >= EXPONENT_CAP }),
{
    let len = l.len();
    let s: usize = if len > 0 && l[0] == ('-' as u8) { 1 } else { 0 };
    let i_end = digit_end(l, s);
    proof {
        lemma_digit_run(l@, s as int);
        lemma_digit_run(l@, i_end + 1);
        lemma_lexeme_exponent(l@);
    }
    let f_end = if i_end < len && l[i_end] == ('.' as u8) {
        digit_end(l, i_end + 1)
    } else {
        i_end
    };
    if f_end >= len {
        return (false, 0);
    }
    let e0 = f_end + 1;
    let negative = e0 < len && l[e0] == ('-' as u8);
    let e1 = if e0 < len && (l[e0] == ('+' as u8) || l[e0] == ('-' as u8)) {
        e0 + 1
    } else {
        e0
    };
    (negative, capped_digits_value(l, e1))
}

/// Whether the number literal `l` reads as a finite double.
pub fn representable_lexeme(l: &[u8]) -> (r: bool)
    requires
        number_end(l@, 0) == Ok::<int, ParseError>(l@.len() as int),
    ensures
        r == representable(l@),
{
    let (d, frac_len) = significant_digits(l);
    let (negative, magnitude) = capped_exponent(l);
    let ghost e = lexeme_parts(l@).1;
    let mut z: usize = 0;
    while z < d.len() && d[z] == ('0' as u8)
        invariant
            z <= d@.len(),
            all_zeros(d@.take(z as int)),
        decreases d@.len() - z,
    {
        z += 1;
    }
    if z == d.len() {
        proof {
            assert(d@.take(z as int) =~= d@);
            lemma_zeros_value(d@);
            lemma_pow_positive(10, (-e) as nat);
            lemma_threshold_digits();
            lemma_pow_positive(10, 308);
        }
        return true;
    }
    let n = d.len() - z;
    let shift: i128 = if negative { -(magnitude as i128) } else { magnitude as i128 };
    let p: i128 = n as i128 + shift - frac_len as i128;
    proof {
        lemma_scale_classes(d@, e, z as int);
        let tp = n + e;
        assert(p <= 308 ==> tp <= 308);
        assert(p >= 310 ==> tp >= 310);
        assert(308 < p < 310 ==> tp == 309);
    }
    if p <= 308 {
        true
    } else if p >= 310 {
        false
    } else {
        leading_digits_below(&d, z)
    }
}

} // verus!
