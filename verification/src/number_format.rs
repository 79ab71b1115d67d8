//! The number formatter: renders a decimal literal with a thousands
//! separator every three digits and, for fractional values, a two-digit
//! fractional suffix.
//!
//! The formatter accepts the full number-literal grammar of the classifier
//! except `inf` and `nan`: an optional sign, digits with at most one dot
//! and at least one digit, and an optional exponent. The exponent is
//! applied by shifting the digit string; magnitudes beyond `EXP_LIMIT`
//! fail the transform (a machine limit: the shifted digits are written
//! out), as do `inf` and `nan`, and a failed transform is skipped by the
//! engine. The fractional suffix is the fraction rounded half-up to two
//! places, with a carry into the integer part when it rounds to one; the
//! sign is written once, before the grouped digits.

use vstd::prelude::*;

use crate::clip_item::{
    all_digits, is_digits_dot, is_exp_text, is_float_body, lemma_no_body_without_digit,
    lemma_prefix_is_digits_dot, lemma_reject_after_prefix, strip_sign,
};
use crate::text::{chars_vec, find_char, is_digit, is_digit_char, lemma_find_char, string_of,
    trim_chars, trim_spec};
use crate::transforms::TransformError;

verus! {

/// The numeric value of a digit character.
pub open spec fn digit_val(c: char) -> int {
    c as u32 - 0x30
}

/// The digit character for a value in `0..=9`.
pub open spec fn val_digit(v: int) -> char {
    if v == 0 {
        '0'
    } else if v == 1 {
        '1'
    } else if v == 2 {
        '2'
    } else if v == 3 {
        '3'
    } else if v == 4 {
        '4'
    } else if v == 5 {
        '5'
    } else if v == 6 {
        '6'
    } else if v == 7 {
        '7'
    } else if v == 8 {
        '8'
    } else {
        '9'
    }
}

/// Decimal digits of a non-negative integer, most significant first.
pub open spec fn digits_of(v: int) -> Seq<char>
    decreases v,
{
    if 0 <= v <= 9 {
        seq![val_digit(v)]
    } else if v > 9 {
        digits_of(v / 10) + seq![val_digit(v % 10)]
    } else {
        Seq::empty()
    }
}

/// Digits grouped by threes from the right with `,` separators.
pub open spec fn grouped(d: Seq<char>) -> Seq<char>
    decreases d.len(),
{
    if d.len() <= 3 {
        d
    } else {
        grouped(d.take(d.len() - 3)) + seq![','] + d.skip(d.len() - 3)
    }
}

/// `d` without leading zeros.
pub open spec fn strip_zeros(d: Seq<char>) -> Seq<char>
    decreases d.len(),
{
    if d.len() > 0 && d[0] == '0' {
        strip_zeros(d.skip(1))
    } else {
        d
    }
}

/// `d` without leading zeros, but at least the single digit `0`.
pub open spec fn canon_int(d: Seq<char>) -> Seq<char> {
    if strip_zeros(d).len() == 0 {
        seq!['0']
    } else {
        strip_zeros(d)
    }
}

/// Index of the first `e`/`E` in `s`, or `s.len()` if absent.
pub open spec fn find_exp(s: Seq<char>) -> int
    decreases s.len(),
{
    if s.len() == 0 {
        0
    } else if s[0] == 'e' || s[0] == 'E' {
        0
    } else {
        1 + find_exp(s.skip(1))
    }
}

pub proof fn lemma_find_exp(s: Seq<char>)
    ensures
        0 <= find_exp(s) <= s.len(),
        forall|i: int| 0 <= i < find_exp(s) ==> !(s[i] == 'e' || s[i] == 'E'),
        find_exp(s) < s.len() ==> (s[find_exp(s)] == 'e' || s[find_exp(s)] == 'E'),
    decreases s.len(),
{
    if s.len() > 0 && !(s[0] == 'e' || s[0] == 'E') {
        lemma_find_exp(s.skip(1));
        assert forall|i: int| 0 <= i < find_exp(s) implies !(s[i] == 'e' || s[i] == 'E') by {
            if i > 0 {
                assert(s.skip(1)[i - 1] == s[i]);
            }
        }
    }
}

/// The digits-and-dot part of a signless body, before any exponent marker.
pub open spec fn mantissa_of(b: Seq<char>) -> Seq<char> {
    b.take(find_exp(b))
}

/// The exponent text after the marker (sign and digits); empty if none.
pub open spec fn exp_text_of(b: Seq<char>) -> Seq<char> {
    if find_exp(b) < b.len() {
        b.skip(find_exp(b) + 1)
    } else {
        Seq::empty()
    }
}

/// Numeric value of a digit string, most significant digit first.
pub open spec fn digits_val(ds: Seq<char>) -> int
    decreases ds.len(),
{
    if ds.len() == 0 {
        0
    } else {
        digits_val(ds.drop_last()) * 10 + digit_val(ds.last())
    }
}

/// The signed exponent value of a signless body; 0 when there is none.
pub open spec fn exp_val_of(b: Seq<char>) -> int {
    let e = exp_text_of(b);
    if e.len() > 0 && e[0] == '-' {
        -digits_val(strip_sign(e))
    } else {
        digits_val(strip_sign(e))
    }
}

/// Digits before the dot of the mantissa (the whole mantissa when there is
/// no dot).
pub open spec fn int_digits(t: Seq<char>) -> Seq<char> {
    let m = mantissa_of(strip_sign(t));
    m.take(find_char(m, '.'))
}

/// Digits after the dot of the mantissa; empty when there is no dot.
pub open spec fn frac_digits(t: Seq<char>) -> Seq<char> {
    let m = mantissa_of(strip_sign(t));
    if find_char(m, '.') < m.len() {
        m.skip(find_char(m, '.') + 1)
    } else {
        Seq::empty()
    }
}

/// `n` zero digits (none for `n <= 0`).
pub open spec fn zero_digits(n: int) -> Seq<char> {
    Seq::new(
        if n <= 0 {
            0
        } else {
            n as nat
        },
        |i: int| '0',
    )
}

/// The integer digits after the exponent moves the dot `k` places to the
/// right (left for negative `k`).
pub open spec fn shifted_int(i0: Seq<char>, f0: Seq<char>, k: int) -> Seq<char> {
    if k >= 0 {
        if k <= f0.len() {
            i0 + f0.take(k)
        } else {
            i0 + f0 + zero_digits(k - f0.len())
        }
    } else if -k <= i0.len() {
        i0.take(i0.len() + k)
    } else {
        Seq::empty()
    }
}

/// The fraction digits after the exponent moves the dot `k` places.
pub open spec fn shifted_frac(i0: Seq<char>, f0: Seq<char>, k: int) -> Seq<char> {
    if k >= 0 {
        if k <= f0.len() {
            f0.skip(k)
        } else {
            Seq::empty()
        }
    } else if -k <= i0.len() {
        i0.skip(i0.len() + k) + f0
    } else {
        zero_digits(-k - i0.len()) + i0 + f0
    }
}

/// The integer digits of the rendered value: mantissa digits with the
/// exponent applied.
pub open spec fn fmt_int_digits(t: Seq<char>) -> Seq<char> {
    shifted_int(int_digits(t), frac_digits(t), exp_val_of(strip_sign(t)))
}

/// The fraction digits of the rendered value.
pub open spec fn fmt_frac_digits(t: Seq<char>) -> Seq<char> {
    shifted_frac(int_digits(t), frac_digits(t), exp_val_of(strip_sign(t)))
}

/// The fraction holds no nonzero digit.
pub open spec fn frac_is_zero(f: Seq<char>) -> bool {
    forall|i: int| 0 <= i < f.len() ==> f[i] == '0'
}

/// The fraction rounded half-up to two decimal places, as a value in
/// `0..=100` (100 means a carry into the integer part).
pub open spec fn frac_round2(f: Seq<char>) -> int {
    let d0 = if f.len() > 0 {
        digit_val(f[0])
    } else {
        0
    };
    let d1 = if f.len() > 1 {
        digit_val(f[1])
    } else {
        0
    };
    let up: int = if f.len() > 2 && digit_val(f[2]) >= 5 {
        1
    } else {
        0
    };
    d0 * 10 + d1 + up
}

/// A digit string incremented by one.
pub open spec fn inc_digits(d: Seq<char>) -> Seq<char>
    decreases d.len(),
{
    if d.len() == 0 {
        seq!['1']
    } else if d.last() == '9' {
        inc_digits(d.drop_last()) + seq!['0']
    } else {
        d.drop_last() + seq![val_digit(digit_val(d.last()) + 1)]
    }
}

/// The two characters of a value in `0..=99`.
pub open spec fn two_digits(v: int) -> Seq<char> {
    seq![val_digit(v / 10), val_digit(v % 10)]
}

/// The rendering of a valid plain decimal `t` (already trimmed):
/// integer-valued inputs become the grouped integer digits with the sign
/// kept for nonzero values; fractional inputs get a two-digit rounded
/// fractional suffix after the grouped integer part.
pub open spec fn format_decimal(t: Seq<char>) -> Seq<char> {
    let neg = t.len() > 0 && t[0] == '-';
    let ints = canon_int(fmt_int_digits(t));
    let f = fmt_frac_digits(t);
    if frac_is_zero(f) {
        if neg && ints != seq!['0'] {
            seq!['-'] + grouped(ints)
        } else {
            grouped(ints)
        }
    } else {
        let r2 = frac_round2(f);
        let ints2 = if r2 == 100 {
            inc_digits(ints)
        } else {
            ints
        };
        let fr = if r2 == 100 {
            0
        } else {
            r2
        };
        let body = grouped(ints2) + seq!['.'] + two_digits(fr);
        if neg {
            seq!['-'] + body
        } else {
            body
        }
    }
}

/// Largest exponent magnitude the formatter applies. The exponent is
/// realized by writing out the shifted digit string, so a bound is a
/// machine necessity; values beyond it fail the transform.
pub const EXP_LIMIT: u32 = 99999;

/// Whether the number formatter accepts `content`: its trimmed text is a
/// signed decimal with at most one dot and an optional exponent whose
/// magnitude is within `EXP_LIMIT`; `inf` and `nan` are rejected.
pub open spec fn number_format_ok(content: Seq<char>) -> bool {
    let b = strip_sign(trim_spec(content));
    is_float_body(b) && -(EXP_LIMIT as int) <= exp_val_of(b) <= EXP_LIMIT as int
}

/// The formatter's output on an accepted `content`.
pub open spec fn number_format_spec(content: Seq<char>) -> Seq<char> {
    format_decimal(trim_spec(content))
}

fn digit_char(d: u8) -> (c: char)
    requires
        d <= 9,
    ensures
        c == val_digit(d as int),
{
    if d == 0 {
        '0'
    } else if d == 1 {
        '1'
    } else if d == 2 {
        '2'
    } else if d == 3 {
        '3'
    } else if d == 4 {
        '4'
    } else if d == 5 {
        '5'
    } else if d == 6 {
        '6'
    } else if d == 7 {
        '7'
    } else if d == 8 {
        '8'
    } else {
        '9'
    }
}

fn digits_vec(v: u64) -> (r: Vec<char>)
    ensures
        r@ == digits_of(v as int),
    decreases v,
{
    if v <= 9 {
        let mut r: Vec<char> = Vec::new();
        r.push(digit_char(v as u8));
        r
    } else {
        let mut r = digits_vec(v / 10);
        r.push(digit_char((v % 10) as u8));
        assert(r@ =~= digits_of((v / 10) as int) + seq![val_digit(v as int % 10)]);
        r
    }
}

/// `grouped` of the first `n` digits of `d`.
fn group_digits(d: &Vec<char>, n: usize) -> (r: Vec<char>)
    requires
        n <= d@.len(),
    ensures
        r@ == grouped(d@.take(n as int)),
    decreases n,
{
    if n <= 3 {
        let mut r: Vec<char> = Vec::new();
        let mut i: usize = 0;
        while i < n
            invariant
                i <= n <= d@.len(),
                r@ == d@.take(n as int).take(i as int),
            decreases n - i,
        {
            r.push(d[i]);
            assert(r@ =~= d@.take(n as int).take(i + 1));
            i += 1;
        }
        assert(d@.take(n as int).take(n as int) =~= d@.take(n as int));
        r
    } else {
        let mut r = group_digits(d, n - 3);
        r.push(',');
        r.push(d[n - 3]);
        r.push(d[n - 2]);
        r.push(d[n - 1]);
        proof {
            let t = d@.take(n as int);
            assert(t.take(t.len() - 3) =~= d@.take(n - 3));
            assert(r@ =~= grouped(t.take(t.len() - 3)) + seq![','] + t.skip(t.len() - 3));
        }
        r
    }
}

/// The next digit character after `c`.
fn digit_succ(c: char) -> (r: char)
    requires
        is_digit(c),
        c != '9',
    ensures
        r == val_digit(digit_val(c) + 1),
{
    if c == '0' {
        '1'
    } else if c == '1' {
        '2'
    } else if c == '2' {
        '3'
    } else if c == '3' {
        '4'
    } else if c == '4' {
        '5'
    } else if c == '5' {
        '6'
    } else if c == '6' {
        '7'
    } else if c == '7' {
        '8'
    } else {
        assert(c == '8') by {
            assert(0x30 <= c as u32 <= 0x39);
        };
        '9'
    }
}

/// Increment of the digit string `d.take(n)`.
fn inc_vec(d: &Vec<char>, n: usize) -> (r: Vec<char>)
    requires
        n <= d@.len(),
        forall|i: int| 0 <= i < n ==> is_digit(d@[i]),
    ensures
        r@ == inc_digits(d@.take(n as int)),
    decreases n,
{
    if n == 0 {
        let mut r: Vec<char> = Vec::new();
        r.push('1');
        assert(r@ =~= inc_digits(d@.take(0)));
        r
    } else if d[n - 1] == '9' {
        let mut r = inc_vec(d, n - 1);
        r.push('0');
        proof {
            let t = d@.take(n as int);
            assert(t.drop_last() =~= d@.take(n - 1));
            assert(r@ =~= inc_digits(t.drop_last()) + seq!['0']);
        }
        r
    } else {
        let mut r: Vec<char> = Vec::new();
        let mut i: usize = 0;
        while i < n - 1
            invariant
                i <= n - 1,
                n <= d@.len(),
                r@ == d@.take(n - 1).take(i as int),
            decreases n - 1 - i,
        {
            r.push(d[i]);
            assert(r@ =~= d@.take(n - 1).take(i + 1));
            i += 1;
        }
        assert(d@.take(n - 1).take(n - 1) =~= d@.take(n - 1));
        let c = d[n - 1];
        assert(is_digit(d@[n - 1]));
        r.push(digit_succ(c));
        proof {
            let t = d@.take(n as int);
            assert(t.drop_last() =~= d@.take(n - 1));
            assert(t.last() == c);
            assert(r@ =~= t.drop_last() + seq![val_digit(digit_val(t.last()) + 1)]);
        }
        r
    }
}

/// Skips any transform whose rule does not apply; formats a decimal literal.
pub struct NumberFormatter;

impl NumberFormatter {
    pub fn new() -> (r: Self) {
        NumberFormatter
    }

    /// The integer `n` with `,` between each group of three digits, the
    /// sign kept in front. `i64::MIN` is excluded so the magnitude fits.
    pub fn format_with_commas(n: i64) -> (r: String)
        requires
            n > i64::MIN,
        ensures
            r@ == (if n < 0 {
                seq!['-']
            } else {
                Seq::<char>::empty()
            }) + grouped(digits_of(if n < 0 {
                -n as int
            } else {
                n as int
            })),
    {
        let m: u64 = if n < 0 {
            (-n) as u64
        } else {
            n as u64
        };
        let digits = digits_vec(m);
        let mut out: Vec<char> = Vec::new();
        if n < 0 {
            out.push('-');
        }
        let mut g = group_digits(&digits, digits.len());
        assert(digits@.take(digits@.len() as int) =~= digits@);
        out.append(&mut g);
        proof {
            assert(out@ =~= (if n < 0 {
                seq!['-']
            } else {
                Seq::<char>::empty()
            }) + grouped(digits_of(m as int)));
        }
        string_of(&out)
    }
}

proof fn lemma_strip_zeros_skip(d: Seq<char>, k: int)
    requires
        0 <= k <= d.len(),
        forall|i: int| 0 <= i < k ==> d[i] == '0',
        k == d.len() || d[k] != '0',
    ensures
        strip_zeros(d) == d.skip(k),
    decreases k,
{
    if k == 0 {
        assert(d.skip(0) =~= d);
    } else {
        lemma_strip_zeros_skip(d.skip(1), k - 1);
        assert(d.skip(1).skip(k - 1) =~= d.skip(k));
    }
}

impl crate::transforms::Transform for NumberFormatter {
    /// The formatter's rule applies to items tagged `Number`.
    open spec fn spec_eligible(&self, item: &crate::clip_item::ClipItem) -> bool {
        item.content_type == crate::clip_item::ContentType::Number
    }

    /// In-range number literals are rendered with grouping, the exponent
    /// applied; everything else fails.
    open spec fn spec_output(&self, content: Seq<char>) -> Option<Seq<char>> {
        if number_format_ok(content) {
            Some(number_format_spec(content))
        } else {
            None
        }
    }

    open spec fn spec_kind(&self) -> crate::clip_item::TransformKindModel {
        crate::clip_item::TransformKindModel::NumberFormat
    }

    fn can_transform(&self, item: &crate::clip_item::ClipItem) -> (r: bool) {
        matches!(item.content_type, crate::clip_item::ContentType::Number)
    }

    fn transform_type(&self) -> (r: crate::clip_item::TransformType) {
        crate::clip_item::TransformType::NumberFormat
    }

    /// Parse the trimmed content as a number literal, apply the exponent,
    /// and render with grouping; reject exactly `inf`/`nan`, out-of-range
    /// exponents, and texts outside the literal grammar.
    fn transform(&self, content: &str) -> (r: Result<String, TransformError>) {
        let chars = chars_vec(content);
        let t = trim_chars(&chars);
        match parse_trimmed(&t) {
            None => Err(TransformError::InvalidNumber),
            Some(p) => {
                let out = render_value(p.neg, &p.canon, p.fz, p.r2, Ghost(t@));
                Ok(string_of(&out))
            },
        }
    }
}

/// Powers of ten.
pub open spec fn pow10(n: int) -> int
    decreases n,
{
    if n <= 0 {
        1
    } else {
        10 * pow10(n - 1)
    }
}

proof fn lemma_pow10_pos(n: int)
    ensures
        pow10(n) >= 1,
    decreases n,
{
    if n > 0 {
        lemma_pow10_pos(n - 1);
    }
}

proof fn lemma_pow10_mono(a: int, b: int)
    requires
        a <= b,
    ensures
        pow10(a) <= pow10(b),
    decreases b - a,
{
    if a < b {
        lemma_pow10_mono(a, b - 1);
        lemma_pow10_pos(b - 1);
    }
}

proof fn lemma_digits_val_bounds(ds: Seq<char>)
    requires
        all_digits(ds),
    ensures
        0 <= digits_val(ds) < pow10(ds.len() as int),
    decreases ds.len(),
{
    if ds.len() > 0 {
        assert forall|i: int| 0 <= i < ds.drop_last().len() implies is_digit(
            #[trigger] ds.drop_last()[i],
        ) by {
            assert(ds.drop_last()[i] == ds[i]);
        }
        lemma_digits_val_bounds(ds.drop_last());
        assert(is_digit(ds.last()));
        assert(pow10(ds.len() as int) == 10 * pow10(ds.len() - 1));
    }
}

proof fn lemma_digits_val_lower(ds: Seq<char>)
    requires
        all_digits(ds),
        ds.len() > 0,
        digit_val(ds[0]) >= 1,
    ensures
        digits_val(ds) >= pow10(ds.len() - 1),
    decreases ds.len(),
{
    if ds.len() == 1 {
        assert(digits_val(ds.drop_last()) == 0);
    } else {
        assert forall|i: int| 0 <= i < ds.drop_last().len() implies is_digit(
            #[trigger] ds.drop_last()[i],
        ) by {
            assert(ds.drop_last()[i] == ds[i]);
        }
        assert(ds.drop_last()[0] == ds[0]);
        lemma_digits_val_lower(ds.drop_last());
        assert(is_digit(ds.last()));
        assert(digit_val(ds.last()) >= 0);
        assert(pow10(ds.len() - 1) == 10 * pow10(ds.len() - 2));
    }
}

proof fn lemma_digits_val_all_zeros(ds: Seq<char>)
    requires
        forall|i: int| 0 <= i < ds.len() ==> digit_val(#[trigger] ds[i]) == 0,
    ensures
        digits_val(ds) == 0,
    decreases ds.len(),
{
    if ds.len() > 0 {
        assert forall|i: int| 0 <= i < ds.drop_last().len() implies digit_val(
            #[trigger] ds.drop_last()[i],
        ) == 0 by {
            assert(ds.drop_last()[i] == ds[i]);
        }
        lemma_digits_val_all_zeros(ds.drop_last());
        assert(digit_val(ds.last()) == 0);
    }
}

/// Leading zeros do not change a digit string's value.
proof fn lemma_digits_val_strip(ds: Seq<char>, z: int)
    requires
        0 <= z <= ds.len(),
        forall|i: int| 0 <= i < z ==> digit_val(#[trigger] ds[i]) == 0,
    ensures
        digits_val(ds) == digits_val(ds.skip(z)),
    decreases ds.len(),
{
    if z == ds.len() {
        lemma_digits_val_all_zeros(ds);
        assert(ds.skip(z) =~= Seq::<char>::empty());
    } else {
        assert(ds.len() > z);
        assert forall|i: int| 0 <= i < z implies digit_val(#[trigger] ds.drop_last()[i])
            == 0 by {
            assert(ds.drop_last()[i] == ds[i]);
        }
        lemma_digits_val_strip(ds.drop_last(), z);
        assert(ds.skip(z).len() > 0);
        assert(ds.skip(z).drop_last() =~= ds.drop_last().skip(z));
        assert(ds.skip(z).last() == ds.last());
    }
}

/// Shifting the dot keeps everything a digit.
proof fn lemma_shifted_digits(i0: Seq<char>, f0: Seq<char>, k: int)
    requires
        all_digits(i0),
        all_digits(f0),
    ensures
        all_digits(shifted_int(i0, f0, k)),
        all_digits(shifted_frac(i0, f0, k)),
{
    assert(is_digit('0'));
    let si = shifted_int(i0, f0, k);
    let sf = shifted_frac(i0, f0, k);
    assert forall|i: int| 0 <= i < si.len() implies is_digit(#[trigger] si[i]) by {
        if k >= 0 {
            if k <= f0.len() {
                if i >= i0.len() {
                    assert(si[i] == f0.take(k)[i - i0.len()]);
                    assert(f0.take(k)[i - i0.len()] == f0[i - i0.len()]);
                }
            } else {
                if i < i0.len() {
                } else if i < i0.len() + f0.len() {
                    assert(si[i] == (i0 + f0)[i]);
                    assert((i0 + f0)[i] == f0[i - i0.len()]);
                } else {
                    assert(si[i] == zero_digits(k - f0.len())[i - i0.len() - f0.len()]);
                }
            }
        } else if -k <= i0.len() {
            assert(si[i] == i0[i]);
        }
    }
    assert forall|i: int| 0 <= i < sf.len() implies is_digit(#[trigger] sf[i]) by {
        if k >= 0 {
            if k <= f0.len() {
                assert(sf[i] == f0[i + k]);
            }
        } else if -k <= i0.len() {
            if i < -k {
                assert(sf[i] == i0[i0.len() + k + i]);
            } else {
                assert(sf[i] == f0[i + k]);
            }
        } else {
            if i < -k - i0.len() {
                assert(sf[i] == zero_digits(-k - i0.len())[i]);
            } else if i < -k {
                assert(sf[i] == (zero_digits(-k - i0.len()) + i0)[i]);
                assert((zero_digits(-k - i0.len()) + i0)[i] == i0[i - (-k - i0.len())]);
            } else {
                assert(sf[i] == f0[i + k]);
            }
        }
    }
}

/// Copy of `t[a..b]`.
fn copy_range(t: &Vec<char>, a: usize, b: usize) -> (r: Vec<char>)
    requires
        a <= b <= t@.len(),
    ensures
        r@ == t@.subrange(a as int, b as int),
{
    let mut r: Vec<char> = Vec::new();
    let mut i: usize = a;
    while i < b
        invariant
            a <= i <= b <= t@.len(),
            r@ == t@.subrange(a as int, i as int),
        decreases b - i,
    {
        r.push(t[i]);
        assert(r@ =~= t@.subrange(a as int, i + 1));
        i += 1;
    }
    r
}

/// Append `n` zero digits.
fn push_zeros(v: &mut Vec<char>, n: usize)
    ensures
        final(v)@ == old(v)@ + zero_digits(n as int),
{
    assert(old(v)@ + zero_digits(0) =~= old(v)@);
    let mut c: usize = 0;
    while c < n
        invariant
            c <= n,
            v@ == old(v)@ + zero_digits(c as int),
        decreases n - c,
    {
        v.push('0');
        assert(v@ =~= old(v)@ + zero_digits(c + 1));
        c += 1;
    }
}

/// Whether every character is the zero digit.
fn all_zero_digits(v: &Vec<char>) -> (r: bool)
    ensures
        r == frac_is_zero(v@),
{
    let mut i: usize = 0;
    while i < v.len()
        invariant
            i <= v@.len(),
            forall|j: int| 0 <= j < i ==> v@[j] == '0',
        decreases v@.len() - i,
    {
        if v[i] != '0' {
            assert(v@[i as int] != '0');
            return false;
        }
        i += 1;
    }
    true
}

/// A plain decimal reduced to what the renderer needs: the sign, the
/// canonical integer digits, whether the fraction is all zeros, and the
/// fraction rounded half-up to two places.
struct ParsedDecimal {
    neg: bool,
    canon: Vec<char>,
    fz: bool,
    r2: u32,
}
/// How the spec's parts fall out of a scanned
/// `sign? digits [ '.' digits ] [ (e|E) exponent ]` shape: the mantissa
/// runs to `pos`, the integer digits to `j`, the exponent text after
/// `pos`.
proof fn lemma_split_parts(t: Seq<char>, off: int, j: int, pos: int, has_dot: bool)
    requires
        0 <= off <= j <= pos <= t.len(),
        off == if t.len() > 0 && (t[0] == '-' || t[0] == '+') {
            1int
        } else {
            0int
        },
        forall|i: int| off <= i < j ==> is_digit(t[i]),
        has_dot ==> j < pos && t[j] == '.' && (forall|i: int| j < i < pos ==> is_digit(t[i])),
        !has_dot ==> j == pos,
        pos < t.len() ==> (t[pos] == 'e' || t[pos] == 'E'),
    ensures
        mantissa_of(strip_sign(t)) == t.subrange(off, pos),
        int_digits(t) == t.subrange(off, j),
        has_dot ==> frac_digits(t) == t.subrange(j + 1, pos),
        !has_dot ==> frac_digits(t) == Seq::<char>::empty(),
        pos < t.len() ==> exp_text_of(strip_sign(t)) == t.subrange(pos + 1, t.len() as int),
        pos == t.len() ==> exp_text_of(strip_sign(t)) == Seq::<char>::empty(),
{
    let b = strip_sign(t);
    assert(b =~= t.subrange(off, t.len() as int));
    // no digit and no dot is an exponent marker
    assert forall|i: int| off <= i < pos implies !(t[i] == 'e' || t[i] == 'E') by {
        if i < j {
            assert(is_digit(t[i]));
            assert(0x30 <= t[i] as u32 <= 0x39);
        } else if has_dot && i == j {
            assert(t[i] == '.');
        } else {
            assert(is_digit(t[i]));
            assert(0x30 <= t[i] as u32 <= 0x39);
        }
    }
    lemma_find_exp(b);
    if find_exp(b) < pos - off {
        assert(b[find_exp(b)] == t[off + find_exp(b)]);
        assert(false);
    }
    if pos - off < find_exp(b) {
        assert(pos < t.len());
        assert(b[pos - off] == t[pos]);
        assert(false);
    }
    assert(find_exp(b) == pos - off);
    let m = mantissa_of(b);
    assert(m =~= t.subrange(off, pos));
    lemma_find_char(m, '.');
    if has_dot {
        assert(m[j - off] == '.');
        if find_char(m, '.') < j - off {
            assert(is_digit(m[find_char(m, '.')]));
        }
        assert(find_char(m, '.') == j - off);
        assert(int_digits(t) =~= t.subrange(off, j));
        assert(frac_digits(t) =~= t.subrange(j + 1, pos));
    } else {
        if find_char(m, '.') < m.len() {
            assert(is_digit(m[find_char(m, '.')]));
        }
        assert(find_char(m, '.') == m.len());
        assert(int_digits(t) =~= t.subrange(off, j));
        assert(frac_digits(t) =~= Seq::<char>::empty());
    }
    if pos < t.len() {
        assert(exp_text_of(b) =~= t.subrange(pos + 1, t.len() as int));
    }
}

/// Canonical (zero-stripped, nonempty) form of the digit run `t[off..j]`.
fn canon_vec(t: &Vec<char>, off: usize, j: usize) -> (canon: Vec<char>)
    requires
        off <= j <= t@.len(),
        forall|i: int| off <= i < j ==> is_digit(t@[i]),
    ensures
        canon@ == canon_int(t@.subrange(off as int, j as int)),
        forall|i: int| 0 <= i < canon@.len() ==> is_digit(#[trigger] canon@[i]),
        canon@.len() > 0,
{
    let ghost ints = t@.subrange(off as int, j as int);
    let mut z: usize = off;
    while z < j && t[z] == '0'
        invariant
            off <= z <= j <= t@.len(),
            forall|i: int| off <= i < z ==> t@[i] == '0',
        decreases j - z,
    {
        z += 1;
    }
    proof {
        lemma_strip_zeros_skip(ints, z - off);
        assert(ints.skip(z - off) =~= t@.subrange(z as int, j as int));
    }
    let mut canon: Vec<char> = Vec::new();
    if z == j {
        canon.push('0');
        proof {
            assert(canon@ =~= seq!['0']);
            assert(canon@ =~= canon_int(ints));
        }
    } else {
        let mut i: usize = z;
        while i < j
            invariant
                z <= i <= j <= t@.len(),
                canon@ == t@.subrange(z as int, i as int),
            decreases j - i,
        {
            canon.push(t[i]);
            assert(canon@ =~= t@.subrange(z as int, i + 1));
            i += 1;
        }
        proof {
            assert(t@[z as int] != '0');
            assert(strip_zeros(ints).len() > 0);
            assert(canon@ =~= canon_int(ints));
        }
    }
    canon
}
/// Scan and evaluate the exponent suffix; the marker sits at `pos`.
#[verifier::rlimit(100)]
fn scan_exponent(t: &Vec<char>, off: usize, j: usize, pos: usize, has_dot: bool) -> (r: Option<
    (bool, u32),
>)
    requires
        off <= j <= pos < t@.len(),
        off == if t@.len() > 0 && (t@[0] == '-' || t@[0] == '+') {
            1int
        } else {
            0int
        },
        forall|i: int| off <= i < j ==> is_digit(t@[i]),
        has_dot ==> j < pos && t@[j as int] == '.' && (forall|i: int|
            j < i < pos ==> is_digit(t@[i])),
        !has_dot ==> j == pos,
        t@[pos as int] == 'e' || t@[pos as int] == 'E',
    ensures
        ({
            let b = strip_sign(t@);
            let e = exp_text_of(b);
            &&& (r is Some <==> (is_exp_text(e) && -(EXP_LIMIT as int) <= exp_val_of(b)
                <= EXP_LIMIT as int))
            &&& (r matches Some(kk) ==> exp_val_of(b) == (if kk.0 {
                -(kk.1 as int)
            } else {
                kk.1 as int
            }) && kk.1 <= EXP_LIMIT)
            &&& e == t@.subrange(pos + 1, t@.len() as int)
        }),
{
    let ghost b = strip_sign(t@);
    proof {
        lemma_split_parts(t@, off as int, j as int, pos as int, has_dot);
    }
    let ghost e_full = exp_text_of(b);
    let n: usize = t.len();
    let mut k_neg: bool = false;
    let mut p: usize = pos + 1;
    if p < n && (t[p] == '+' || t[p] == '-') {
        k_neg = t[p] == '-';
        p += 1;
    }
    proof {
        assert(e_full =~= t@.subrange(pos + 1, n as int));
        assert(strip_sign(e_full) =~= t@.subrange(p as int, n as int));
    }
    let mut q: usize = p;
    while q < n && is_digit_char(t[q])
        invariant
            p <= q <= n,
            n == t@.len(),
            forall|i: int| p <= i < q ==> is_digit(t@[i]),
        decreases n - q,
    {
        q += 1;
    }
    if !(p < n && q == n) {
        proof {
            assert(!is_exp_text(e_full)) by {
                if p < n {
                    assert(strip_sign(e_full)[q - p] == t@[q as int]);
                    assert(!is_digit(strip_sign(e_full)[q - p]));
                }
            }
        }
        return None;
    }
    // the numeric value, leading zeros stripped, within the limit
    let mut z: usize = p;
    while z < n && t[z] as u32 == 0x30
        invariant
            p <= z <= n,
            n == t@.len(),
            forall|i: int| p <= i < z ==> digit_val(#[trigger] t@[i]) == 0,
        decreases n - z,
    {
        z += 1;
    }
    let ghost eds = t@.subrange(p as int, n as int);
    let ghost sds = t@.subrange(z as int, n as int);
    proof {
        assert forall|i: int| 0 <= i < eds.len() implies is_digit(#[trigger] eds[i]) by {
            assert(eds[i] == t@[p + i]);
        }
        assert forall|i: int| 0 <= i < sds.len() implies is_digit(#[trigger] sds[i]) by {
            assert(sds[i] == t@[z + i]);
        }
        assert forall|i: int| 0 <= i < z - p implies digit_val(#[trigger] eds[i]) == 0 by {
            assert(eds[i] == t@[p + i]);
        }
        lemma_digits_val_strip(eds, z - p);
        assert(eds.skip(z - p) =~= sds);
        assert(is_exp_text(e_full));
        assert(digits_val(strip_sign(e_full)) == digits_val(sds));
        if k_neg {
            assert(e_full[0] == '-');
        } else if e_full.len() > 0 && e_full[0] == '-' {
            assert(false);
        }
    }
    if n - z > 5 {
        proof {
            assert(sds.len() > 5);
            assert(sds[0] == t@[z as int]);
            assert(is_digit(t@[z as int]));
            assert(t@[z as int] as u32 != 0x30);
            assert(digit_val(sds[0]) >= 1);
            lemma_digits_val_lower(sds);
            lemma_pow10_mono(5, sds.len() - 1);
            reveal_with_fuel(pow10, 7);
            assert(pow10(5) == 100000);
            assert(digits_val(sds) >= 100000);
        }
        return None;
    }
    let mut w: usize = z;
    let mut v: u32 = 0;
    while w < n
        invariant
            z <= w <= n,
            n == t@.len(),
            n - z <= 5,
            forall|i: int| z <= i < n ==> is_digit(t@[i]),
            v as int == digits_val(t@.subrange(z as int, w as int)),
            (v as int) < pow10(w - z),
        decreases n - w,
    {
        let c = t[w];
        assert(is_digit(t@[w as int]));
        let d: u32 = c as u32 - 0x30;
        proof {
            lemma_pow10_mono(w - z, 4);
            reveal_with_fuel(pow10, 7);
            assert(v < 10000);
            let nxt = t@.subrange(z as int, w + 1);
            assert(nxt.drop_last() =~= t@.subrange(z as int, w as int));
            assert(nxt.last() == t@[w as int]);
        }
        v = v * 10 + d;
        w += 1;
    }
    proof {
        assert(t@.subrange(z as int, n as int) == sds);
        lemma_pow10_mono(n - z, 5);
        reveal_with_fuel(pow10, 7);
        assert(v <= 99999);
    }
    Some((k_neg, v))
}

/// Move the dot by the exponent, then reduce to the renderer's parts.
#[verifier::rlimit(100)]
fn build_parts(
    neg: bool,
    i0: Vec<char>,
    f0: Vec<char>,
    k_neg: bool,
    kval: u32,
    Ghost(t): Ghost<Seq<char>>,
) -> (p: ParsedDecimal)
    requires
        i0@ == int_digits(t),
        f0@ == frac_digits(t),
        forall|i: int| 0 <= i < i0@.len() ==> is_digit(#[trigger] i0@[i]),
        forall|i: int| 0 <= i < f0@.len() ==> is_digit(#[trigger] f0@[i]),
        exp_val_of(strip_sign(t)) == (if k_neg {
            -(kval as int)
        } else {
            kval as int
        }),
        neg == (t.len() > 0 && t[0] == '-'),
    ensures
        p.neg == (t.len() > 0 && t[0] == '-'),
        p.canon@ == canon_int(fmt_int_digits(t)),
        forall|i: int| 0 <= i < p.canon@.len() ==> is_digit(#[trigger] p.canon@[i]),
        p.canon@.len() > 0,
        p.fz == frac_is_zero(fmt_frac_digits(t)),
        p.r2 == frac_round2(fmt_frac_digits(t)),
        p.r2 <= 100,
{
    let ghost k: int = if k_neg {
        -(kval as int)
    } else {
        kval as int
    };
    let ghost gi0 = i0@;
    let ghost gf0 = f0@;
    proof {
        lemma_shifted_digits(gi0, gf0, k);
    }
    let ivec: Vec<char>;
    let fvec: Vec<char>;
    if !k_neg {
        let kk = kval as usize;
        if kk <= f0.len() {
            let mut iv = i0;
            let mut c: usize = 0;
            while c < kk
                invariant
                    c <= kk <= f0@.len(),
                    f0@ == gf0,
                    iv@ == gi0 + gf0.take(c as int),
                decreases kk - c,
            {
                iv.push(f0[c]);
                assert(iv@ =~= gi0 + gf0.take(c + 1));
                c += 1;
            }
            fvec = copy_range(&f0, kk, f0.len());
            ivec = iv;
            proof {
                assert(gf0.subrange(kk as int, gf0.len() as int) =~= gf0.skip(kk as int));
                assert(ivec@ =~= shifted_int(gi0, gf0, k));
                assert(fvec@ =~= shifted_frac(gi0, gf0, k));
            }
        } else {
            let flen = f0.len();
            let mut iv = i0;
            let mut f0m = f0;
            iv.append(&mut f0m);
            push_zeros(&mut iv, kk - flen);
            ivec = iv;
            fvec = Vec::new();
            proof {
                assert(ivec@ =~= shifted_int(gi0, gf0, k));
                assert(fvec@ =~= shifted_frac(gi0, gf0, k));
            }
        }
    } else {
        let m = kval as usize;
        if m <= i0.len() {
            let ilen = i0.len();
            ivec = copy_range(&i0, 0, ilen - m);
            let mut fv = copy_range(&i0, ilen - m, ilen);
            let mut f0m = f0;
            fv.append(&mut f0m);
            fvec = fv;
            proof {
                assert(gi0.subrange(0, ilen - m) =~= gi0.take(ilen - m));
                assert(ivec@ =~= shifted_int(gi0, gf0, k));
                assert(gi0.subrange(ilen - m, ilen as int) =~= gi0.skip(ilen - m));
                assert(fvec@ =~= shifted_frac(gi0, gf0, k));
            }
        } else {
            let ilen = i0.len();
            ivec = Vec::new();
            let mut fv: Vec<char> = Vec::new();
            push_zeros(&mut fv, m - ilen);
            let mut i0m = i0;
            fv.append(&mut i0m);
            let mut f0m = f0;
            fv.append(&mut f0m);
            fvec = fv;
            proof {
                assert(ivec@ =~= shifted_int(gi0, gf0, k));
                assert(fvec@ =~= shifted_frac(gi0, gf0, k));
            }
        }
    }
    proof {
        assert(ivec@ == fmt_int_digits(t));
        assert(fvec@ == fmt_frac_digits(t));
    }
    let canon = canon_vec(&ivec, 0, ivec.len());
    proof {
        assert(ivec@.subrange(0, ivec@.len() as int) =~= ivec@);
    }
    let fz = all_zero_digits(&fvec);
    let flen = fvec.len();
    let d0: u32 = if flen > 0 {
        fvec[0] as u32 - 0x30
    } else {
        0
    };
    let d1: u32 = if flen > 1 {
        fvec[1] as u32 - 0x30
    } else {
        0
    };
    let up: u32 = if flen > 2 && fvec[2] as u32 >= 0x35 {
        1
    } else {
        0
    };
    proof {
        if flen > 0 {
            assert(is_digit(fvec@[0]));
        }
        if flen > 1 {
            assert(is_digit(fvec@[1]));
        }
        if flen > 2 {
            assert(is_digit(fvec@[2]));
        }
    }
    let r2: u32 = d0 * 10 + d1 + up;
    assert(r2 == frac_round2(fvec@));
    ParsedDecimal { neg, canon, fz, r2 }
}

/// Scan the trimmed text; `None` exactly when the formatter rejects it:
/// no digit, a stray character, `inf`/`nan`, or an exponent out of range.
#[verifier::rlimit(100)]
fn parse_trimmed(t: &Vec<char>) -> (r: Option<ParsedDecimal>)
    ensures
        r is Some <==> (is_float_body(strip_sign(t@)) && -(EXP_LIMIT as int) <= exp_val_of(
            strip_sign(t@),
        ) <= EXP_LIMIT as int),
        r matches Some(p) ==> {
            &&& p.neg == (t@.len() > 0 && t@[0] == '-')
            &&& p.canon@ == canon_int(fmt_int_digits(t@))
            &&& (forall|i: int| 0 <= i < p.canon@.len() ==> is_digit(#[trigger] p.canon@[i]))
            &&& p.canon@.len() > 0
            &&& p.fz == frac_is_zero(fmt_frac_digits(t@))
            &&& p.r2 == frac_round2(fmt_frac_digits(t@))
            &&& p.r2 <= 100
        },
{
    let ghost b = strip_sign(t@);
    let n: usize = t.len();
    let neg: bool = n > 0 && t[0] == '-';
    let off: usize = if n > 0 && (t[0] == '-' || t[0] == '+') {
        1
    } else {
        0
    };
    proof {
        assert(b =~= t@.subrange(off as int, n as int));
    }
    // the mantissa: digits, an optional dot, digits
    let mut j: usize = off;
    while j < n && is_digit_char(t[j])
        invariant
            off <= j <= n,
            n == t@.len(),
            forall|i: int| off <= i < j ==> is_digit(t@[i]),
        decreases n - j,
    {
        j += 1;
    }
    let has_dot: bool = j < n && t[j] == '.';
    let mut pos: usize = j;
    if has_dot {
        pos = j + 1;
        while pos < n && is_digit_char(t[pos])
            invariant
                j + 1 <= pos <= n,
                n == t@.len(),
                forall|i: int| j < i < pos ==> is_digit(t@[i]),
            decreases n - pos,
        {
            pos += 1;
        }
    }
    let ndig: usize = (j - off) + if has_dot {
        pos - j - 1
    } else {
        0
    };
    if ndig == 0 {
        proof {
            if b.len() > 0 {
                assert(b[0] == t@[off as int]);
                if b[0] == '.' && b.len() > 1 {
                    assert(b[1] == t@[off + 1]);
                }
                lemma_no_body_without_digit(b);
            }
            assert(!is_float_body(b));
        }
        return None;
    }
    if pos < n && !(t[pos] == 'e' || t[pos] == 'E') {
        proof {
            lemma_reject_after_prefix(b, j - off, pos - off, has_dot);
            assert(b[pos - off] == t@[pos as int]);
            assert(!is_float_body(b));
        }
        return None;
    }
    let mut k_neg: bool = false;
    let mut kval: u32 = 0;
    if pos < n {
        match scan_exponent(t, off, j, pos, has_dot) {
            Some(kk) => {
                k_neg = kk.0;
                kval = kk.1;
            },
            None => {
                proof {
                    let e = exp_text_of(b);
                    if !is_exp_text(e) {
                        lemma_reject_after_prefix(b, j - off, pos - off, has_dot);
                        assert forall|k: int|
                            0 <= k < b.len() && (b[k] == 'e' || b[k] == 'E') implies !(
                        is_digits_dot(b.take(k)) && is_exp_text(b.skip(k + 1))) by {
                            if k == pos - off {
                                assert(b.skip(k + 1) =~= t@.subrange(pos + 1, n as int));
                            }
                        }
                        assert(!is_float_body(b));
                    }
                }
                return None;
            },
        }
        proof {
            lemma_prefix_is_digits_dot(b, j - off, pos - off, has_dot, ndig as int);
            lemma_split_parts(t@, off as int, j as int, pos as int, has_dot);
            assert(is_float_body(b)) by {
                assert(b[pos - off] == t@[pos as int]);
                assert(is_digits_dot(b.take(pos - off)));
                assert(b.skip(pos - off + 1) =~= exp_text_of(b));
                assert(is_exp_text(exp_text_of(b)));
            }
        }
    } else {
        proof {
            lemma_prefix_is_digits_dot(b, j - off, pos - off, has_dot, ndig as int);
            lemma_split_parts(t@, off as int, j as int, pos as int, has_dot);
            assert(b.take(pos - off) =~= b);
            assert(is_float_body(b));
            assert(exp_text_of(b) == Seq::<char>::empty());
            assert(strip_sign(Seq::<char>::empty()) =~= Seq::<char>::empty());
            assert(exp_val_of(b) == 0);
        }
    }
    // the mantissa digit runs, handed to the dot-shifting step
    let i0 = copy_range(t, off, j);
    let f0 = if has_dot {
        copy_range(t, j + 1, pos)
    } else {
        Vec::new()
    };
    proof {
        assert(i0@ == int_digits(t@));
        if has_dot {
            assert(f0@ == frac_digits(t@));
        } else {
            assert(f0@ =~= frac_digits(t@));
        }
        assert forall|i: int| 0 <= i < i0@.len() implies is_digit(#[trigger] i0@[i]) by {
            assert(i0@[i] == t@[off + i]);
        }
        assert forall|i: int| 0 <= i < f0@.len() implies is_digit(#[trigger] f0@[i]) by {
            assert(f0@[i] == t@[j + 1 + i]);
        }
    }
    Some(build_parts(neg, i0, f0, k_neg, kval, Ghost(t@)))
}

/// Assemble the output characters from the parsed parts of `t`.
#[verifier::rlimit(100)]
fn render_value(
    neg: bool,
    canon: &Vec<char>,
    fz: bool,
    r2: u32,
    Ghost(t): Ghost<Seq<char>>,
) -> (out: Vec<char>)
    requires
        neg == (t.len() > 0 && t[0] == '-'),
        canon@ == canon_int(fmt_int_digits(t)),
        forall|i: int| 0 <= i < canon@.len() ==> is_digit(#[trigger] canon@[i]),
        canon@.len() > 0,
        fz == frac_is_zero(fmt_frac_digits(t)),
        r2 == frac_round2(fmt_frac_digits(t)),
        r2 <= 100,
    ensures
        out@ == format_decimal(t),
{
    let mut out: Vec<char> = Vec::new();
    if fz {
        let zero_val = canon.len() == 1 && *canon.get(0).unwrap() == '0';
        if neg && !zero_val {
            out.push('-');
        }
        let mut g = group_digits(canon, canon.len());
        assert(canon@.take(canon@.len() as int) =~= canon@);
        out.append(&mut g);
        proof {
            if zero_val {
                assert(canon@ =~= seq!['0']);
            } else {
                assert(canon@ != seq!['0']);
            }
            assert(out@ =~= format_decimal(t));
        }
    } else {
        if neg {
            out.push('-');
        }
        let fr: u32;
        let mut g: Vec<char>;
        if r2 == 100 {
            let inc = inc_vec(canon, canon.len());
            assert(canon@.take(canon@.len() as int) =~= canon@);
            g = group_digits(&inc, inc.len());
            assert(inc@.take(inc@.len() as int) =~= inc@);
            fr = 0;
        } else {
            g = group_digits(canon, canon.len());
            assert(canon@.take(canon@.len() as int) =~= canon@);
            fr = r2;
        }
        out.append(&mut g);
        out.push('.');
        out.push(digit_char((fr / 10) as u8));
        out.push(digit_char((fr % 10) as u8));
        proof {
            assert(two_digits(fr as int) =~= seq![
                val_digit(fr as int / 10),
                val_digit(fr as int % 10),
            ]);
            assert(out@ =~= format_decimal(t));
        }
    }
    out
}

} // verus!
