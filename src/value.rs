//! Evaluation results: fixed-point numbers, error codes and values, with their text.
use vstd::prelude::*;
use vstd::utf8::{decode_utf8_encode_utf8, valid_utf8};
use crate::cell::{is_digit, text_bytes, utf8_to_string};

verus! {

/// Units of a fixed-point number per whole number.
pub const SCALE: i128 = 1_000_000_000;

/// A number: an exact decimal in billionths, or the result of dividing by a zero count.
#[derive(Clone, Copy, Debug, PartialEq, Eq, Structural)]
pub enum Number {
    /// The number `units / SCALE`.
    Fixed(i128),
    NaN,
}

/// What `Number::add` gives: the exact sum, or `None` where it leaves the fixed-point range.
pub open spec fn number_sum(a: Number, b: Number) -> Option<Number> {
    match (a, b) {
        (Number::Fixed(x), Number::Fixed(y)) => {
            if i128::MIN <= x + y <= i128::MAX {
                Some(Number::Fixed((x + y) as i128))
            } else {
                None
            }
        },
        _ => Some(Number::NaN),
    }
}

/// `a / b` rounded toward zero, for `b > 0`.
pub open spec fn trunc_div(a: int, b: int) -> int {
    if a >= 0 {
        a / b
    } else {
        -((-a) / b)
    }
}

/// What `Number::divide_by_count` gives: the quotient rounded toward zero to a
/// billionth; NaN for a zero count, and for anything but a whole, non-negative count.
pub open spec fn number_quotient(total: Number, count: Number) -> Number {
    match (total, count) {
        (Number::Fixed(s), Number::Fixed(c)) => {
            if c > 0 && (c as int) % (SCALE as int) == 0 {
                Number::Fixed(trunc_div(s as int, (c as int) / (SCALE as int)) as i128)
            } else {
                Number::NaN
            }
        },
        _ => Number::NaN,
    }
}

impl Number {
    pub fn add(self, other: Number) -> (r: Option<Number>)
        ensures
            r == number_sum(self, other),
    {
        match (self, other) {
            (Number::Fixed(x), Number::Fixed(y)) => match x.checked_add(y) {
                Some(s) => Some(Number::Fixed(s)),
                None => None,
            },
            _ => Some(Number::NaN),
        }
    }

    /// Divides a total by a count of values.
    pub fn divide_by_count(self, count: Number) -> (r: Number)
        ensures
            r == number_quotient(self, count),
    {
        match (self, count) {
            (Number::Fixed(s), Number::Fixed(c)) => {
                if c > 0 && c % SCALE == 0 {
                    let k = c / SCALE;
                    if k == 1 {
                        return Number::Fixed(s);
                    }
                    if s >= 0 {
                        Number::Fixed(s / k)
                    } else {
                        let magnitude: u128 = ((-(s + 1)) as u128) + 1;
                        let q: u128 = magnitude / (k as u128);
                        assert(q < magnitude) by (nonlinear_arith)
                            requires
                                q == (magnitude as int) / (k as int),
                                k > 1,
                                magnitude > 0,
                        ;
                        Number::Fixed(-(q as i128))
                    }
                } else {
                    Number::NaN
                }
            },
            _ => Number::NaN,
        }
    }
}

/// The decimal digits of `n`, most significant first.
pub open spec fn digits(n: nat) -> Seq<u8>
    decreases n,
{
    if n < 10 {
        seq![(48 + n) as u8]
    } else {
        digits(n / 10).push((48 + n % 10) as u8)
    }
}

/// `|u|` billionths in hundredths, rounded to the nearest and on a tie to the even one.
pub open spec fn hundredths(u: int) -> nat {
    let magnitude = if u < 0 {
        -u
    } else {
        u
    };
    let q = magnitude / 10_000_000;
    let r = magnitude % 10_000_000;
    if r > 5_000_000 || (r == 5_000_000 && q % 2 == 1) {
        (q + 1) as nat
    } else {
        q as nat
    }
}

/// A number as text: a sign for negatives, the whole part, a point and exactly two
/// fraction digits; `NaN` for NaN.
pub open spec fn number_text(n: Number) -> Seq<u8> {
    match n {
        Number::NaN => seq![78u8, 97u8, 78u8],
        Number::Fixed(u) => {
            let h = hundredths(u as int);
            let sign: Seq<u8> = if u < 0 {
                seq![45u8]
            } else {
                Seq::empty()
            };
            sign + digits(h / 100) + seq![46u8, (48 + (h % 100) / 10) as u8, (48 + h % 10) as u8]
        },
    }
}

/// Appends the decimal digits of `n`.
fn push_digits(out: &mut Vec<u8>, n: u128)
    ensures
        final(out)@ == old(out)@ + digits(n as nat),
    decreases n,
{
    if n >= 10 {
        push_digits(out, n / 10);
    }
    out.push((48 + n % 10) as u8);
    proof {
        if n < 10 {
            assert(n % 10 == n);
        }
    }
}

/// The bytes of `number_text(n)`.
pub fn number_to_bytes(n: Number) -> (r: Vec<u8>)
    ensures
        r@ == number_text(n),
{
    let mut out: Vec<u8> = Vec::new();
    match n {
        Number::NaN => {
            out.push(78);
            out.push(97);
            out.push(78);
            assert(out@ =~= number_text(n));
        },
        Number::Fixed(u) => {
            if u < 0 {
                out.push(45);
            }
            let magnitude: u128 = if u < 0 {
                ((-(u + 1)) as u128) + 1
            } else {
                u as u128
            };
            let q: u128 = magnitude / 10_000_000;
            let rest: u128 = magnitude % 10_000_000;
            let h: u128 = if rest > 5_000_000 || (rest == 5_000_000 && q % 2 == 1) {
                q + 1
            } else {
                q
            };
            assert(h == hundredths(u as int));
            push_digits(&mut out, h / 100);
            out.push(46);
            out.push((48 + (h % 100) / 10) as u8);
            out.push((48 + h % 10) as u8);
            assert(out@ =~= number_text(n));
        },
    }
    out
}

/// The number that the decimal digits `s` spell.
pub open spec fn digits_value(s: Seq<u8>) -> nat
    decreases s.len(),
{
    if s.len() == 0 {
        0
    } else {
        digits_value(s.drop_last()) * 10 + (s.last() - 48) as nat
    }
}

pub open spec fn all_digits(s: Seq<u8>) -> bool {
    forall|i: int| 0 <= i < s.len() ==> 48 <= #[trigger] s[i] <= 57
}

/// How a text reads as a number.
#[derive(Clone, Copy, Debug, PartialEq, Eq, Structural)]
pub enum Reading {
    Number(Number),
    /// A number beyond the range of numbers, infinity among them.
    TooLarge,
    /// Text that spells no number.
    NotNumber,
}

/// The length of the run of decimal digits that starts at `i`.
pub open spec fn digit_run(s: Seq<u8>, i: int) -> nat
    decreases s.len() - i,
{
    if 0 <= i < s.len() && is_digit(s[i]) {
        1 + digit_run(s, i + 1)
    } else {
        0
    }
}

pub open spec fn ascii_lower(b: u8) -> u8 {
    if 65 <= b <= 90 {
        (b + 32) as u8
    } else {
        b
    }
}

/// `s` is the lower-case `word` in any mix of ASCII case.
pub open spec fn is_word(s: Seq<u8>, word: Seq<u8>) -> bool {
    s.len() == word.len() && forall|i: int| 0 <= i < s.len() ==> ascii_lower(#[trigger] s[i]) == word[i]
}

/// Where the parts of an unsigned number's text lie: whole digits in `0..whole_end`,
/// fraction digits in `frac_start..frac_end`, exponent digits in `exp_start..exp_end`.
pub struct FloatParts {
    pub whole_end: int,
    pub frac_start: int,
    pub frac_end: int,
    pub has_exp: bool,
    pub exp_negative: bool,
    pub exp_start: int,
    pub exp_end: int,
}

/// The parts of `b`, read as digits, an optional point and digits, and an optional
/// `e` or `E` with an optional sign and digits.
pub open spec fn float_parts(b: Seq<u8>) -> FloatParts {
    let we = digit_run(b, 0) as int;
    let fs = if we < b.len() && b[we] == 46 {
        we + 1
    } else {
        we
    };
    let fe = fs + digit_run(b, fs);
    let has_exp = fe < b.len() && (b[fe] == 101 || b[fe] == 69);
    let signed = has_exp && fe + 1 < b.len() && (b[fe + 1] == 45 || b[fe + 1] == 43);
    let es = if has_exp {
        fe + 1 + if signed {
            1int
        } else {
            0int
        }
    } else {
        fe
    };
    FloatParts {
        whole_end: we,
        frac_start: fs,
        frac_end: fe,
        has_exp,
        exp_negative: signed && b[fe + 1] == 45,
        exp_start: es,
        exp_end: es + digit_run(b, es),
    }
}

/// The parts cover all of `b`, with at least one mantissa digit and, after an `e`,
/// at least one exponent digit.
pub open spec fn well_formed(b: Seq<u8>, p: FloatParts) -> bool {
    &&& p.whole_end + (p.frac_end - p.frac_start) > 0
    &&& (p.has_exp ==> p.exp_end > p.exp_start)
    &&& p.exp_end == b.len()
}

/// The mantissa digits, whole and fraction together.
pub open spec fn mantissa(b: Seq<u8>, p: FloatParts) -> Seq<u8> {
    b.subrange(0, p.whole_end) + b.subrange(p.frac_start, p.frac_end)
}

/// The exponent, zero without one.
pub open spec fn exponent(b: Seq<u8>, p: FloatParts) -> int {
    let v = digits_value(b.subrange(p.exp_start, p.exp_end)) as int;
    if p.exp_negative {
        -v
    } else {
        v
    }
}

/// The number in billionths, rounded toward zero: the mantissa digits up to the
/// ninth place after the point that the exponent moves.
pub open spec fn float_units(b: Seq<u8>, p: FloatParts) -> nat {
    units_for(mantissa(b, p), p.whole_end + exponent(b, p) + 9)
}

/// The digits `d` read as a whole number after cutting them, or filling them up with
/// zeros, to `t` places.
pub open spec fn units_for(d: Seq<u8>, t: int) -> nat {
    if t <= 0 {
        0
    } else if t <= d.len() {
        digits_value(d.subrange(0, t))
    } else {
        digits_value(d) * pow10((t - d.len()) as nat)
    }
}

/// How a cell's text reads as a number: an optional sign, then `nan` (any case) for
/// NaN; `inf` or `infinity` (any case), which is beyond the range of numbers; or
/// digits with an optional point and exponent, read to a billionth toward zero,
/// beyond the range of numbers where that passes `i128::MAX` billionths.
pub open spec fn read_number(text: Seq<u8>) -> Reading {
    let signed = text.len() > 0 && (text[0] == 45 || text[0] == 43);
    let negative = text.len() > 0 && text[0] == 45;
    let b = if signed {
        text.drop_first()
    } else {
        text
    };
    if is_word(b, seq![110u8, 97u8, 110u8]) {
        Reading::Number(Number::NaN)
    } else if is_word(b, seq![105u8, 110u8, 102u8]) || is_word(
        b,
        seq![105u8, 110u8, 102u8, 105u8, 110u8, 105u8, 116u8, 121u8],
    ) {
        Reading::TooLarge
    } else if !well_formed(b, float_parts(b)) {
        Reading::NotNumber
    } else {
        let u = float_units(b, float_parts(b));
        if u > i128::MAX {
            Reading::TooLarge
        } else if negative {
            Reading::Number(Number::Fixed(-u as i128))
        } else {
            Reading::Number(Number::Fixed(u as i128))
        }
    }
}

pub open spec fn pow10(n: nat) -> nat
    decreases n,
{
    if n == 0 {
        1
    } else {
        10 * pow10((n - 1) as nat)
    }
}

proof fn lemma_digits_value_prefix(s: Seq<u8>, n: int)
    requires
        0 <= n <= s.len(),
    ensures
        digits_value(s.subrange(0, n)) <= digits_value(s),
    decreases s.len() - n,
{
    if n < s.len() {
        lemma_digits_value_prefix(s, n + 1);
        assert(s.subrange(0, n + 1).drop_last() =~= s.subrange(0, n));
    } else {
        assert(s.subrange(0, n) =~= s);
    }
}

proof fn lemma_pow10_positive(n: nat)
    ensures
        pow10(n) >= 1,
    decreases n,
{
    if n > 0 {
        lemma_pow10_positive((n - 1) as nat);
    }
}

/// The value of the digits `s[from..to]`, or `None` once it passes `limit`.
fn digits_exec(s: &[u8], from: usize, to: usize, limit: u128) -> (r: Option<u128>)
    requires
        from <= to <= s.len(),
        all_digits(s@.subrange(from as int, to as int)),
        limit <= i128::MAX,
    ensures
        r matches Some(v) ==> v == digits_value(s@.subrange(from as int, to as int)) && v <= limit,
        r is None ==> digits_value(s@.subrange(from as int, to as int)) > limit,
{
    let mut acc: u128 = 0;
    let mut k: usize = from;
    while k < to
        invariant
            from <= k <= to <= s.len(),
            all_digits(s@.subrange(from as int, to as int)),
            acc == digits_value(s@.subrange(from as int, k as int)),
            acc <= limit,
            limit <= i128::MAX,
        decreases to - k,
    {
        assert(s@.subrange(from as int, to as int)[k - from] == s@[k as int]);
        let d = (s[k] - 48) as u128;
        assert(s@.subrange(from as int, k + 1).drop_last() =~= s@.subrange(from as int, k as int));
        if acc > limit / 10 || acc * 10 + d > limit {
            proof {
                assert(acc * 10 + d > limit) by (nonlinear_arith)
                    requires
                        acc > limit / 10 || acc * 10 + d > limit,
                        d <= 9,
                ;
                assert(s@.subrange(from as int, k + 1) =~= s@.subrange(from as int, to as int).subrange(0, k + 1 - from));
                lemma_digits_value_prefix(s@.subrange(from as int, to as int), k + 1 - from);
            }
            return None;
        }
        acc = acc * 10 + d;
        k = k + 1;
    }
    Some(acc)
}

proof fn lemma_pow10_add(a: nat, b: nat)
    ensures
        pow10(a) * pow10(b) == pow10(a + b),
    decreases a,
{
    if a == 0 {
        assert(pow10(0) == 1);
    } else {
        lemma_pow10_add((a - 1) as nat, b);
        assert(pow10(a) == 10 * pow10((a - 1) as nat));
        assert(pow10(a + b) == 10 * pow10((a - 1 + b) as nat));
        assert(pow10(a) * pow10(b) == 10 * (pow10((a - 1) as nat) * pow10(b))) by (nonlinear_arith)
            requires
                pow10(a) == 10 * pow10((a - 1) as nat),
        ;
    }
}

proof fn lemma_digit_run(s: Seq<u8>, i: int)
    requires
        0 <= i <= s.len(),
    ensures
        i + digit_run(s, i) <= s.len(),
        all_digits(s.subrange(i, i + digit_run(s, i))),
        i + digit_run(s, i) < s.len() ==> !is_digit(s[i + digit_run(s, i)]),
    decreases s.len() - i,
{
    if i < s.len() && is_digit(s[i]) {
        lemma_digit_run(s, i + 1);
        let r = s.subrange(i, i + digit_run(s, i));
        assert forall|k: int| 0 <= k < r.len() implies 48 <= #[trigger] r[k] <= 57 by {
            if k > 0 {
                assert(r[k] == s.subrange(i + 1, i + 1 + digit_run(s, i + 1))[k - 1]);
            }
        }
    }
}

proof fn lemma_pow10_beyond(k: nat)
    requires
        k >= 39,
    ensures
        pow10(k) > i128::MAX,
{
    reveal_with_fuel(pow10, 40);
    assert(pow10(39) == 1_000_000_000_000_000_000_000_000_000_000_000_000_000nat);
    lemma_pow10_add(39, (k - 39) as nat);
    lemma_pow10_positive((k - 39) as nat);
    assert(pow10(39) * pow10((k - 39) as nat) >= pow10(39)) by (nonlinear_arith)
        requires
            pow10((k - 39) as nat) >= 1,
    ;
}

proof fn lemma_pow10_monotone(a: nat, b: nat)
    requires
        a <= b,
    ensures
        pow10(a) <= pow10(b),
{
    lemma_pow10_add(a, (b - a) as nat);
    lemma_pow10_positive((b - a) as nat);
    assert(pow10(a) * pow10((b - a) as nat) >= pow10(a)) by (nonlinear_arith)
        requires
            pow10((b - a) as nat) >= 1,
    ;
}

fn digit_run_exec(s: &[u8], i: usize) -> (r: usize)
    requires
        i <= s.len(),
    ensures
        r == digit_run(s@, i as int),
        i + r <= s.len(),
{
    let mut j: usize = i;
    while j < s.len() && s[j] >= 48 && s[j] <= 57
        invariant
            i <= j <= s.len(),
            digit_run(s@, i as int) == (j - i) + digit_run(s@, j as int),
        decreases s.len() - j,
    {
        j = j + 1;
    }
    j - i
}

fn is_word_exec(s: &[u8], word: &[u8]) -> (r: bool)
    ensures
        r == is_word(s@, word@),
{
    if s.len() != word.len() {
        return false;
    }
    let mut k: usize = 0;
    while k < s.len()
        invariant
            k <= s.len() == word.len(),
            forall|m: int| 0 <= m < k ==> ascii_lower(#[trigger] s@[m]) == word@[m],
        decreases s.len() - k,
    {
        let c = s[k];
        let l = if c >= 65 && c <= 90 { c + 32 } else { c };
        if l != word[k] {
            return false;
        }
        k = k + 1;
    }
    true
}

/// The value of the first `count` mantissa digits, whole digits `b[0..we]` then
/// fraction digits `b[fs..fe]`, or `None` once it passes `i128::MAX`.
fn mantissa_prefix(b: &[u8], we: usize, fs: usize, fe: usize, count: usize) -> (r: Option<u128>)
    requires
        we <= fs <= fe <= b.len(),
        count <= we + (fe - fs),
        all_digits(b@.subrange(0, we as int)),
        all_digits(b@.subrange(fs as int, fe as int)),
    ensures
        ({
            let d = b@.subrange(0, we as int) + b@.subrange(fs as int, fe as int);
            &&& r matches Some(v) ==> v == digits_value(d.subrange(0, count as int)) && v <= i128::MAX
            &&& r is None ==> digits_value(d.subrange(0, count as int)) > i128::MAX
        }),
{
    let ghost d = b@.subrange(0, we as int) + b@.subrange(fs as int, fe as int);
    let limit: u128 = i128::MAX as u128;
    let mut acc: u128 = 0;
    let mut j: usize = 0;
    assert(d.subrange(0, 0).len() == 0);
    while j < count
        invariant
            j <= count <= we + (fe - fs),
            we <= fs <= fe <= b.len(),
            d == b@.subrange(0, we as int) + b@.subrange(fs as int, fe as int),
            all_digits(b@.subrange(0, we as int)),
            all_digits(b@.subrange(fs as int, fe as int)),
            acc == digits_value(d.subrange(0, j as int)),
            acc <= limit,
            limit == i128::MAX,
        decreases count - j,
    {
        let c = if j < we { b[j] } else { b[fs + (j - we)] };
        assert(c == d[j as int]);
        if j < we {
            assert(b@.subrange(0, we as int)[j as int] == c);
        } else {
            assert(b@.subrange(fs as int, fe as int)[j - we] == c);
        }
        let digit = (c - 48) as u128;
        assert(d.subrange(0, j + 1).drop_last() =~= d.subrange(0, j as int));
        if acc > limit / 10 || acc * 10 + digit > limit {
            assert(acc * 10 + digit > limit) by (nonlinear_arith)
                requires
                    acc > limit / 10 || acc * 10 + digit > limit,
            ;
            proof {
                lemma_digits_value_prefix(d.subrange(0, count as int), j + 1);
                assert(d.subrange(0, count as int).subrange(0, j + 1) =~= d.subrange(0, j + 1));
            }
            return None;
        }
        acc = acc * 10 + digit;
        j = j + 1;
    }
    Some(acc)
}

/// `v * 10^shift`, or `None` where that passes `i128::MAX`.
fn shift_up(v: u128, shift: u128) -> (r: Option<u128>)
    requires
        v <= i128::MAX,
    ensures
        r matches Some(x) ==> x == v * pow10(shift as nat) && x <= i128::MAX,
        r is None ==> v * pow10(shift as nat) > i128::MAX,
{
    if v == 0 {
        assert(v * pow10(shift as nat) == 0) by (nonlinear_arith)
            requires
                v == 0,
        ;
        return Some(0);
    }
    if shift >= 39 {
        proof {
            lemma_pow10_beyond(shift as nat);
            assert(v * pow10(shift as nat) >= pow10(shift as nat)) by (nonlinear_arith)
                requires
                    v >= 1,
            ;
        }
        return None;
    }
    let limit: u128 = i128::MAX as u128;
    let mut acc: u128 = v;
    let mut i: u128 = 0;
    assert(pow10(0) == 1);
    assert(v * pow10(0) == v) by (nonlinear_arith)
        requires
            pow10(0) == 1,
    ;
    while i < shift
        invariant
            0 <= i <= shift <= 38,
            acc == v * pow10(i as nat),
            acc <= limit,
            limit == i128::MAX,
        decreases shift - i,
    {
        assert(pow10((i + 1) as nat) == 10 * pow10(i as nat));
        assert(v * pow10((i + 1) as nat) == acc * 10) by (nonlinear_arith)
            requires
                acc == v * pow10(i as nat),
                pow10((i + 1) as nat) == 10 * pow10(i as nat),
        ;
        if acc > limit / 10 {
            proof {
                assert(acc * 10 > limit) by (nonlinear_arith)
                    requires
                        acc > limit / 10,
                ;
                lemma_pow10_monotone((i + 1) as nat, shift as nat);
                assert(v * pow10(shift as nat) >= v * pow10((i + 1) as nat)) by (nonlinear_arith)
                    requires
                        pow10(shift as nat) >= pow10((i + 1) as nat),
                ;
            }
            return None;
        }
        acc = acc * 10;
        i = i + 1;
    }
    Some(acc)
}

/// `units_for` of the mantissa digits, whole digits `b[0..we]` then fraction digits
/// `b[fs..fe]`, or `None` where that passes `i128::MAX`.
fn units_exec(b: &[u8], we: usize, fs: usize, fe: usize, t: i128) -> (r: Option<u128>)
    requires
        we <= fs <= fe <= b.len(),
        all_digits(b@.subrange(0, we as int)),
        all_digits(b@.subrange(fs as int, fe as int)),
    ensures
        ({
            let u = units_for(b@.subrange(0, we as int) + b@.subrange(fs as int, fe as int), t as int);
            &&& r matches Some(x) ==> x == u && x <= i128::MAX
            &&& r is None ==> u > i128::MAX
        }),
{
    let ghost d = b@.subrange(0, we as int) + b@.subrange(fs as int, fe as int);
    let n: usize = we + (fe - fs);
    if t <= 0 {
        Some(0)
    } else if t <= n as i128 {
        mantissa_prefix(b, we, fs, fe, t as usize)
    } else {
        assert(d.subrange(0, n as int) =~= d);
        match mantissa_prefix(b, we, fs, fe, n) {
            None => {
                proof {
                    let k = (t - n) as nat;
                    lemma_pow10_positive(k);
                    assert(digits_value(d) * pow10(k) >= digits_value(d)) by (nonlinear_arith)
                        requires
                            pow10(k) >= 1,
                    ;
                }
                None
            },
            Some(v) => shift_up(v, (t - n as i128) as u128),
        }
    }
}

/// The units where the exponent passes `10^30`, which moves the point past every
/// mantissa digit: zero for a negative exponent or zero digits, otherwise too large.
fn huge_exponent_units(b: &[u8], we: usize, fs: usize, fe: usize, negative: bool, t: Ghost<int>) -> (r: Option<u128>)
    requires
        we <= fs <= fe <= b.len(),
        all_digits(b@.subrange(0, we as int)),
        all_digits(b@.subrange(fs as int, fe as int)),
        negative ==> t@ < 0,
        !negative ==> t@ > we + (fe - fs) + 40,
    ensures
        ({
            let u = units_for(b@.subrange(0, we as int) + b@.subrange(fs as int, fe as int), t@);
            &&& r matches Some(x) ==> x == u && x <= i128::MAX
            &&& r is None ==> u > i128::MAX
        }),
{
    if negative {
        return Some(0);
    }
    let ghost d = b@.subrange(0, we as int) + b@.subrange(fs as int, fe as int);
    let n: usize = we + (fe - fs);
    assert(d.subrange(0, n as int) =~= d);
    let ghost k = (t@ - n) as nat;
    match mantissa_prefix(b, we, fs, fe, n) {
        None => {
            proof {
                lemma_pow10_positive(k);
                assert(digits_value(d) * pow10(k) >= digits_value(d)) by (nonlinear_arith)
                    requires
                        pow10(k) >= 1,
                ;
            }
            None
        },
        Some(v) => {
            if v == 0 {
                assert(digits_value(d) * pow10(k) == 0) by (nonlinear_arith)
                    requires
                        digits_value(d) == 0,
                ;
                Some(0)
            } else {
                proof {
                    lemma_pow10_beyond(k);
                    assert(digits_value(d) * pow10(k) >= pow10(k)) by (nonlinear_arith)
                        requires
                            digits_value(d) >= 1,
                    ;
                }
                None
            }
        },
    }
}

/// The units of an unsigned number's text `b`: `Err` where it is not well formed,
/// `Ok(None)` where they pass `i128::MAX`.
#[verifier::rlimit(50)]
fn body_units(b: &[u8]) -> (r: Result<Option<u128>, ()>)
    ensures
        r is Err <==> !well_formed(b@, float_parts(b@)),
        r matches Ok(Some(u)) ==> u == float_units(b@, float_parts(b@)) && u <= i128::MAX,
        r matches Ok(None) ==> float_units(b@, float_parts(b@)) > i128::MAX,
{
    let ghost p = float_parts(b@);
    let we = digit_run_exec(b, 0);
    let fs: usize = if we < b.len() && b[we] == 46 { we + 1 } else { we };
    let fe = fs + digit_run_exec(b, fs);
    let has_exp = fe < b.len() && (b[fe] == 101 || b[fe] == 69);
    let exp_signed = has_exp && fe + 1 < b.len() && (b[fe + 1] == 45 || b[fe + 1] == 43);
    let exp_negative = exp_signed && b[fe + 1] == 45;
    let es: usize = if has_exp { fe + 1 + if exp_signed { 1 } else { 0 } } else { fe };
    let ee = es + digit_run_exec(b, es);
    assert(p.whole_end == we && p.frac_start == fs && p.frac_end == fe && p.has_exp == has_exp);
    assert(p.exp_negative == exp_negative && p.exp_start == es && p.exp_end == ee);
    if we + (fe - fs) == 0 || (has_exp && ee == es) || ee != b.len() {
        return Err(());
    }
    proof {
        lemma_digit_run(b@, 0);
        lemma_digit_run(b@, fs as int);
        lemma_digit_run(b@, es as int);
    }
    let ghost t = p.whole_end + exponent(b@, p) + 9;
    match digits_exec(b, es, ee, 1_000_000_000_000_000_000_000_000_000_000) {
        None => Ok(huge_exponent_units(b, we, fs, fe, exp_negative, Ghost(t))),
        Some(ev) => {
            let e: i128 = if exp_negative { -(ev as i128) } else { ev as i128 };
            Ok(units_exec(b, we, fs, fe, we as i128 + e + 9))
        },
    }
}

/// Reads a cell's text as a number; see `read_number`.
pub fn parse_number(text: &[u8]) -> (r: Reading)
    ensures
        r == read_number(text@),
{
    let signed = text.len() > 0 && (text[0] == 45 || text[0] == 43);
    let negative = text.len() > 0 && text[0] == 45;
    let start: usize = if signed { 1 } else { 0 };
    let b = vstd::slice::slice_subrange(text, start, text.len());
    assert(b@ =~= if signed { text@.drop_first() } else { text@ });
    let nan: [u8; 3] = [110, 97, 110];
    let inf: [u8; 3] = [105, 110, 102];
    let infinity: [u8; 8] = [105, 110, 102, 105, 110, 105, 116, 121];
    assert(nan@ =~= seq![110u8, 97u8, 110u8]);
    assert(inf@ =~= seq![105u8, 110u8, 102u8]);
    assert(infinity@ =~= seq![105u8, 110u8, 102u8, 105u8, 110u8, 105u8, 116u8, 121u8]);
    if is_word_exec(b, &nan) {
        return Reading::Number(Number::NaN);
    }
    if is_word_exec(b, &inf) || is_word_exec(b, &infinity) {
        return Reading::TooLarge;
    }
    match body_units(b) {
        Err(_) => Reading::NotNumber,
        Ok(None) => Reading::TooLarge,
        Ok(Some(u)) => {
            if negative {
                Reading::Number(Number::Fixed(-(u as i128)))
            } else {
                Reading::Number(Number::Fixed(u as i128))
            }
        },
    }
}

/// The error codes that a formula can evaluate to.
#[derive(Clone, Copy, Debug, PartialEq, Eq, Structural)]
pub enum ErrorCode {
    /// `NAME?`: a call of a function that is not registered.
    Name,
    /// `NAME`: a function name that no opening parenthesis follows.
    MissingOpen,
    /// `ARG?`: an argument of the wrong kind.
    Arg,
    /// `REF!`: a range used outside a function's arguments.
    Ref,
    /// `NULL!`: a colon that no reference follows.
    Null,
    /// `EOF`: a formula that ends, or holds something else, where an expression is due.
    Eof,
    /// `CIRCULAR!`: a cell whose value depends on itself.
    Circular,
    /// `NUM!`: a total beyond the range of numbers.
    Num,
}

/// An error code as it is shown, after a `#`.
pub open spec fn code_text(e: ErrorCode) -> Seq<u8> {
    match e {
        ErrorCode::Name => seq![78u8, 65u8, 77u8, 69u8, 63u8],
        ErrorCode::MissingOpen => seq![78u8, 65u8, 77u8, 69u8],
        ErrorCode::Arg => seq![65u8, 82u8, 71u8, 63u8],
        ErrorCode::Ref => seq![82u8, 69u8, 70u8, 33u8],
        ErrorCode::Null => seq![78u8, 85u8, 76u8, 76u8, 33u8],
        ErrorCode::Eof => seq![69u8, 79u8, 70u8],
        ErrorCode::Circular => seq![67u8, 73u8, 82u8, 67u8, 85u8, 76u8, 65u8, 82u8, 33u8],
        ErrorCode::Num => seq![78u8, 85u8, 77u8, 33u8],
    }
}

pub(crate) fn push_all(out: &mut Vec<u8>, bytes: &[u8])
    ensures
        final(out)@ == old(out)@ + bytes@,
{
    let mut i: usize = 0;
    while i < bytes.len()
        invariant
            i <= bytes.len(),
            out@ == old(out)@ + bytes@.subrange(0, i as int),
        decreases bytes.len() - i,
    {
        out.push(bytes[i]);
        i = i + 1;
        assert(out@ =~= old(out)@ + bytes@.subrange(0, i as int));
    }
    assert(bytes@.subrange(0, i as int) =~= bytes@);
}

/// The bytes of `code_text(e)`.
fn code_to_bytes(e: ErrorCode) -> (r: Vec<u8>)
    ensures
        r@ == code_text(e),
{
    let mut out: Vec<u8> = Vec::new();
    match e {
        ErrorCode::Name => push_all(&mut out, &[78u8, 65, 77, 69, 63]),
        ErrorCode::MissingOpen => push_all(&mut out, &[78u8, 65, 77, 69]),
        ErrorCode::Arg => push_all(&mut out, &[65u8, 82, 71, 63]),
        ErrorCode::Ref => push_all(&mut out, &[82u8, 69, 70, 33]),
        ErrorCode::Null => push_all(&mut out, &[78u8, 85, 76, 76, 33]),
        ErrorCode::Eof => push_all(&mut out, &[69u8, 79, 70]),
        ErrorCode::Circular => push_all(&mut out, &[67u8, 73, 82, 67, 85, 76, 65, 82, 33]),
        ErrorCode::Num => push_all(&mut out, &[78u8, 85, 77, 33]),
    }
    assert(out@ =~= code_text(e));
    out
}

/// The result of evaluating an expression.
#[derive(Debug)]
pub enum Value {
    Bool(bool),
    Number(Number),
    Text(String),
    Error(ErrorCode),
}

/// A value as the evaluator's contracts see it: text as its UTF-8 bytes.
pub enum ValueModel {
    Bool(bool),
    Number(Number),
    Text(Seq<u8>),
    Error(ErrorCode),
}

impl View for Value {
    type V = ValueModel;

    open spec fn view(&self) -> ValueModel {
        match self {
            Value::Bool(b) => ValueModel::Bool(*b),
            Value::Number(n) => ValueModel::Number(*n),
            Value::Text(s) => ValueModel::Text(text_bytes(s@)),
            Value::Error(e) => ValueModel::Error(*e),
        }
    }
}

/// A value as it is shown: TRUE or FALSE, a number with two fraction digits, text
/// as it is, or `#` and the error code.
pub open spec fn display_bytes(v: ValueModel) -> Seq<u8> {
    match v {
        ValueModel::Bool(b) => if b {
            seq![84u8, 82u8, 85u8, 69u8]
        } else {
            seq![70u8, 65u8, 76u8, 83u8, 69u8]
        },
        ValueModel::Number(n) => number_text(n),
        ValueModel::Text(t) => t,
        ValueModel::Error(e) => seq![35u8] + code_text(e),
    }
}

proof fn lemma_ascii_valid(bytes: Seq<u8>)
    requires
        forall|i: int| 0 <= i < bytes.len() ==> bytes[i] < 128,
    ensures
        valid_utf8(bytes),
    decreases bytes.len(),
{
    if bytes.len() > 0 {
        let rest = bytes.subrange(1, bytes.len() as int);
        assert forall|i: int| 0 <= i < rest.len() implies rest[i] < 128 by {
            assert(rest[i] == bytes[i + 1]);
        }
        lemma_ascii_valid(rest);
    }
}

proof fn lemma_digits_ascii(n: nat)
    ensures
        forall|i: int| 0 <= i < digits(n).len() ==> 48 <= #[trigger] digits(n)[i] <= 57,
    decreases n,
{
    if n >= 10 {
        lemma_digits_ascii(n / 10);
        let d = digits(n / 10);
        assert forall|i: int| 0 <= i < digits(n).len() implies 48 <= #[trigger] digits(n)[i] <= 57 by {
            if i < d.len() {
                assert(digits(n)[i] == d[i]);
            }
        }
    }
}

impl Value {
    /// A copy of this value.
    pub fn duplicate(&self) -> (r: Value)
        ensures
            r@ == self@,
    {
        match self {
            Value::Bool(b) => Value::Bool(*b),
            Value::Number(n) => Value::Number(*n),
            Value::Text(s) => Value::Text(s.clone()),
            Value::Error(e) => Value::Error(*e),
        }
    }

    /// The value as it is shown in an output cell.
    pub fn display(&self) -> (r: String)
        ensures
            text_bytes(r@) == display_bytes(self@),
    {
        let bytes: Vec<u8> = match self {
            Value::Text(s) => {
                return s.clone();
            },
            Value::Bool(b) => {
                let mut out: Vec<u8> = Vec::new();
                if *b {
                    push_all(&mut out, &[84u8, 82, 85, 69]);
                } else {
                    push_all(&mut out, &[70u8, 65, 76, 83, 69]);
                }
                out
            },
            Value::Number(n) => {
                let out = number_to_bytes(*n);
                proof {
                    match *n {
                        Number::Fixed(u) => lemma_digits_ascii(hundredths(u as int) / 100),
                        Number::NaN => {},
                    }
                }
                out
            },
            Value::Error(e) => {
                let mut out: Vec<u8> = Vec::new();
                out.push(35);
                let code = code_to_bytes(*e);
                push_all(&mut out, code.as_slice());
                out
            },
        };
        assert(bytes@ =~= display_bytes(self@));
        proof {
            assert forall|i: int| 0 <= i < bytes@.len() implies bytes@[i] < 128 by {
                match self@ {
                    ValueModel::Number(Number::Fixed(u)) => {
                        let h = hundredths(u as int);
                        let sign: Seq<u8> = if u < 0 { seq![45u8] } else { Seq::empty() };
                        let tail = seq![46u8, (48 + (h % 100) / 10) as u8, (48 + h % 10) as u8];
                        assert(bytes@ == sign + digits(h / 100) + tail);
                        if i >= sign.len() && i < sign.len() + digits(h / 100).len() {
                            assert(bytes@[i] == digits(h / 100)[i - sign.len()]);
                        }
                    },
                    _ => {},
                }
            }
            lemma_ascii_valid(bytes@);
            decode_utf8_encode_utf8(bytes@);
        }
        match utf8_to_string(bytes) {
            Some(s) => s,
            None => {
                proof {
                    assert(false);
                }
                String::new()
            },
        }
    }
}

} // verus!
