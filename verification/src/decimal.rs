//! Plain decimal numbers ("45.3", "360.50", "01,500" after the comma is
//! replaced) read exactly as a mantissa and a count of fractional digits.

use vstd::prelude::*;
use crate::text::{is_ascii_digit_spec, is_digit, subvec};

verus! {

/// The number `mantissa / 10^scale`.
#[derive(Debug, Clone, Copy, PartialEq, Eq)]
pub struct Decimal {
    pub mantissa: u64,
    pub scale: usize,
}

pub open spec fn all_digits(s: Seq<char>) -> bool {
    forall|i: int| 0 <= i < s.len() ==> #[trigger] is_ascii_digit_spec(s[i])
}

pub open spec fn digit_val(c: char) -> nat {
    ((c as u32) - ('0' as u32)) as nat
}

/// The number written by a sequence of decimal digits.
pub open spec fn digits_value(s: Seq<char>) -> nat
    decreases s.len(),
{
    if s.len() == 0 {
        0
    } else {
        digits_value(s.drop_last()) * 10 + digit_val(s.last())
    }
}

pub open spec fn pow10(n: nat) -> nat
    decreases n,
{
    if n == 0 {
        1
    } else {
        10 * pow10((n - 1) as nat)
    }
}

/// `s` is `int_part` alone, or `int_part '.' frac_part`, with only digits in
/// both parts and at least one digit in all.
pub open spec fn is_decimal_split(s: Seq<char>, int_part: Seq<char>, frac_part: Seq<char>) -> bool {
    &&& all_digits(int_part)
    &&& all_digits(frac_part)
    &&& int_part.len() + frac_part.len() > 0
    &&& (s == int_part && frac_part.len() == 0 || s == int_part + seq!['.'] + frac_part)
}

pub open spec fn is_decimal_text(s: Seq<char>) -> bool {
    exists|a: Seq<char>, b: Seq<char>| is_decimal_split(s, a, b)
}

/// The digits of `s` without its decimal point.
pub open spec fn decimal_digits(s: Seq<char>) -> Seq<char> {
    s.filter(|c: char| c != '.')
}

/// The number of digits after the decimal point (0 without one).
pub open spec fn decimal_scale(s: Seq<char>) -> nat {
    if exists|p: int| 0 <= p < s.len() && s[p] == '.' {
        let p = choose|p: int| 0 <= p < s.len() && s[p] == '.';
        (s.len() - p - 1) as nat
    } else {
        0
    }
}

/// The value of a decimal text: `Some` exactly when the text is digits with at
/// most one decimal point and at least one digit, and its digits, read as one
/// integer, fit in a `u64`.
pub open spec fn parse_decimal_spec(s: Seq<char>) -> Option<Decimal> {
    if is_decimal_text(s) && digits_value(decimal_digits(s)) <= u64::MAX {
        Some(Decimal { mantissa: digits_value(decimal_digits(s)) as u64, scale: decimal_scale(s) as usize })
    } else {
        None
    }
}

/// `floor(d * factor)`.
pub open spec fn scaled_floor(d: Decimal, factor: nat) -> nat {
    ((d.mantissa as nat) * factor) / pow10(d.scale as nat)
}

pub proof fn lemma_digits_value_push(s: Seq<char>, c: char)
    ensures
        digits_value(s.push(c)) == digits_value(s) * 10 + digit_val(c),
{
    assert(s.push(c).drop_last() == s);
}

pub proof fn lemma_digits_value_prefix(s: Seq<char>, i: int)
    requires
        0 <= i <= s.len(),
    ensures
        digits_value(s.take(i)) <= digits_value(s),
    decreases s.len() - i,
{
    if i < s.len() {
        lemma_digits_value_prefix(s, i + 1);
        assert(s.take(i + 1).drop_last() == s.take(i));
    } else {
        assert(s.take(i) == s);
    }
}

proof fn lemma_pow10_pos(n: nat)
    ensures
        pow10(n) >= 1,
    decreases n,
{
    if n > 0 {
        lemma_pow10_pos((n - 1) as nat);
    }
}

/// Reads a decimal text: see `parse_decimal_spec`.
pub fn parse_decimal(s: &Vec<char>) -> (r: Option<Decimal>)
    ensures
        r == parse_decimal_spec(s@),
{
    // Locate the decimal point and check every other character is a digit.
    let mut dot: Option<usize> = None;
    let mut i: usize = 0;
    while i < s.len()
        invariant
            i <= s.len(),
            match dot {
                None => all_digits(s@.take(i as int)),
                Some(p) => p < i && s@[p as int] == '.' && all_digits(s@.take(p as int))
                    && all_digits(s@.subrange(p + 1, i as int)),
            },
        decreases s.len() - i,
    {
        let c = s[i];
        if c == '.' {
            if dot.is_some() {
                proof {
                    lemma_not_decimal_two_dots(s@, dot.unwrap() as int, i as int);
                }
                return None;
            }
            dot = Some(i);
        } else if !is_digit(c) {
            proof {
                lemma_not_decimal_bad_char(s@, i as int);
            }
            return None;
        }
        i += 1;
    }
    assert(s@.take(s.len() as int) == s@);
    if s.len() == 0 || (s.len() == 1 && dot.is_some()) {
        proof {
            lemma_not_decimal_no_digit(s@);
        }
        return None;
    }
    proof {
        lemma_decimal_shape(s@, dot);
    }
    // Read the digits.
    let mut m: u64 = 0;
    let mut j: usize = 0;
    let ghost digits = decimal_digits(s@);
    let ghost mut seen: Seq<char> = Seq::empty();
    proof {
        lemma_filter_take(s@, 0);
    }
    while j < s.len()
        invariant
            j <= s.len(),
            seen == decimal_digits(s@.take(j as int)),
            m as nat == digits_value(seen),
            digits == decimal_digits(s@),
            forall|k: int| 0 <= k < s.len() && s@[k] != '.' ==> is_ascii_digit_spec(#[trigger] s@[k]),
        decreases s.len() - j,
    {
        let c = s[j];
        proof {
            lemma_filter_take(s@, j as int + 1);
            assert(s@.take(j + 1).drop_last() == s@.take(j as int));
        }
        if c != '.' {
            let d: u64 = (c as u32 - '0' as u32) as u64;
            proof {
                lemma_digits_value_push(seen, c);
            }
            if m > (u64::MAX - d) / 10 {
                proof {
                    seen = seen.push(c);
                    lemma_filter_prefix(s@, j as int + 1);
                    lemma_digits_value_prefix(digits, seen.len() as int);
                }
                return None;
            }
            m = m * 10 + d;
            proof {
                seen = seen.push(c);
            }
        }
        j += 1;
    }
    assert(s@.take(s.len() as int) == s@);
    let scale: usize = match dot {
        None => 0,
        Some(p) => s.len() - p - 1,
    };
    Some(Decimal { mantissa: m, scale })
}

/// `filter` of a prefix one character longer.
proof fn lemma_filter_take(s: Seq<char>, j: int)
    requires
        0 <= j <= s.len(),
    ensures
        j == 0 ==> decimal_digits(s.take(j)) == Seq::<char>::empty(),
        j > 0 ==> decimal_digits(s.take(j)) == if s[j - 1] != '.' {
            decimal_digits(s.take(j - 1)).push(s[j - 1])
        } else {
            decimal_digits(s.take(j - 1))
        },
{
    reveal_with_fuel(Seq::filter, 1);
    if j > 0 {
        assert(s.take(j).drop_last() == s.take(j - 1));
    } else {
        assert(s.take(j) =~= Seq::<char>::empty());
    }
}

/// The filtered prefix is a prefix of the filtered whole.
proof fn lemma_filter_prefix(s: Seq<char>, j: int)
    requires
        0 <= j <= s.len(),
    ensures
        decimal_digits(s.take(j)).len() <= decimal_digits(s).len(),
        decimal_digits(s).take(decimal_digits(s.take(j)).len() as int) == decimal_digits(s.take(j)),
    decreases s.len() - j,
{
    if j == s.len() {
        assert(s.take(j) == s);
    } else {
        lemma_filter_prefix(s, j + 1);
        lemma_filter_take(s, j + 1);
        let a = decimal_digits(s.take(j));
        let b = decimal_digits(s.take(j + 1));
        let w = decimal_digits(s);
        assert(w.take(a.len() as int) == w.take(b.len() as int).take(a.len() as int));
        assert(b.take(a.len() as int) == a);
    }
}

proof fn lemma_not_decimal_bad_char(s: Seq<char>, i: int)
    requires
        0 <= i < s.len(),
        s[i] != '.',
        !is_ascii_digit_spec(s[i]),
    ensures
        parse_decimal_spec(s) is None,
{
    if is_decimal_text(s) {
        let (a, b) = choose|a: Seq<char>, b: Seq<char>| is_decimal_split(s, a, b);
        if s == a {
            assert(is_ascii_digit_spec(a[i]));
        } else {
            assert(s == a + seq!['.'] + b);
            if i < a.len() {
                assert(s[i] == a[i]);
            } else if i > a.len() {
                assert(s[i] == b[i - a.len() - 1]);
            }
        }
    }
}

proof fn lemma_not_decimal_two_dots(s: Seq<char>, p: int, q: int)
    requires
        0 <= p < q < s.len(),
        s[p] == '.',
        s[q] == '.',
    ensures
        parse_decimal_spec(s) is None,
{
    if is_decimal_text(s) {
        let (a, b) = choose|a: Seq<char>, b: Seq<char>| is_decimal_split(s, a, b);
        assert(is_decimal_split(s, a, b));
        if s == a {
            assert(is_ascii_digit_spec(a[p]));
            assert(false);
        } else {
            assert(s == a + seq!['.'] + b);
            if p < a.len() {
                assert(s[p] == a[p]);
                assert(is_ascii_digit_spec(a[p]));
                assert(false);
            } else if p == a.len() {
                assert(s[q] == b[q - a.len() - 1]);
                assert(is_ascii_digit_spec(b[q - a.len() - 1]));
                assert(false);
            } else {
                assert(s[p] == b[p - a.len() - 1]);
                assert(is_ascii_digit_spec(b[p - a.len() - 1]));
                assert(false);
            }
        }
    }
}

proof fn lemma_not_decimal_no_digit(s: Seq<char>)
    requires
        s.len() == 0 || (s.len() == 1 && s[0] == '.'),
    ensures
        parse_decimal_spec(s) is None,
{
    if is_decimal_text(s) {
        let (a, b) = choose|a: Seq<char>, b: Seq<char>| is_decimal_split(s, a, b);
        assert(is_decimal_split(s, a, b));
        if s != a {
            assert((a + seq!['.'] + b).len() == a.len() + b.len() + 1);
            assert(false);
        } else {
            assert(is_ascii_digit_spec(a[0]));
            assert(false);
        }
    }
}

proof fn lemma_decimal_shape(s: Seq<char>, dot: Option<usize>)
    requires
        s.len() > 0,
        !(s.len() == 1 && dot is Some),
        match dot {
            None => all_digits(s),
            Some(p) => p < s.len() && s[p as int] == '.' && all_digits(s.take(p as int))
                && all_digits(s.subrange(p + 1, s.len() as int)),
        },
    ensures
        is_decimal_text(s),
        forall|k: int| 0 <= k < s.len() && s[k] != '.' ==> is_ascii_digit_spec(#[trigger] s[k]),
        decimal_scale(s) == match dot {
            None => 0nat,
            Some(p) => (s.len() - p - 1) as nat,
        },
{
    match dot {
        None => {
            assert(is_decimal_split(s, s, Seq::<char>::empty()));
            assert(!exists|p: int| 0 <= p < s.len() && s[p] == '.') by {
                if exists|p: int| 0 <= p < s.len() && s[p] == '.' {
                    let p = choose|p: int| 0 <= p < s.len() && s[p] == '.';
                    assert(is_ascii_digit_spec(s[p]));
                    assert(false);
                }
            }
            assert(decimal_scale(s) == 0);
        },
        Some(p) => {
            let a = s.take(p as int);
            let b = s.subrange(p + 1, s.len() as int);
            assert(s == a + seq!['.'] + b);
            assert(is_decimal_split(s, a, b));
            assert forall|k: int| 0 <= k < s.len() && s[k] != '.' implies is_ascii_digit_spec(
                #[trigger] s[k],
            ) by {
                if k < p {
                    assert(s[k] == a[k]);
                } else {
                    assert(s[k] == b[k - p - 1]);
                }
            }
            assert(0 <= p < s.len() && s[p as int] == '.');
            let q = choose|q: int| 0 <= q < s.len() && s[q] == '.';
            assert(0 <= q < s.len() && s[q] == '.');
            if q < p {
                assert(s[q] == a[q]);
                assert(is_ascii_digit_spec(a[q]));
            } else if q > p {
                assert(s[q] == b[q - p - 1]);
                assert(is_ascii_digit_spec(b[q - p - 1]));
            }
            assert(q == p);
            assert(decimal_scale(s) == (s.len() - p - 1) as nat);
        },
    }
}

/// `floor(d * factor)` as a `u128`.
pub fn decimal_floor_wide(d: Decimal, factor: u64) -> (q: u128)
    ensures
        q as nat == scaled_floor(d, factor as nat),
{
    proof {
        vstd::arithmetic::mul::lemma_mul_upper_bound(
            d.mantissa as int, u64::MAX as int, factor as int, u64::MAX as int);
    }
    let prod: u128 = d.mantissa as u128 * factor as u128;
    let mut q: u128 = prod;
    let mut k: usize = 0;
    proof {
        assert(pow10(0nat) == 1);
    }
    while k < d.scale
        invariant
            k <= d.scale,
            prod == d.mantissa * factor,
            q as nat == prod as nat / pow10(k as nat),
        decreases d.scale - k,
    {
        proof {
            lemma_pow10_pos(k as nat);
            lemma_div_div(prod as nat, pow10(k as nat), 10);
            assert(pow10((k + 1) as nat) == 10 * pow10(k as nat));
            assert(pow10(k as nat) * 10 == 10 * pow10(k as nat)) by (nonlinear_arith);
        }
        q = q / 10;
        k += 1;
    }
    q
}

/// `floor(d * factor)`, when it fits in a `u64`.
pub fn decimal_scaled(d: Decimal, factor: u64) -> (r: Option<u64>)
    ensures
        match r {
            Some(v) => v as nat == scaled_floor(d, factor as nat),
            None => scaled_floor(d, factor as nat) > u64::MAX,
        },
{
    let q = decimal_floor_wide(d, factor);
    if q > u64::MAX as u128 {
        None
    } else {
        Some(q as u64)
    }
}

proof fn lemma_div_div(x: nat, a: nat, b: nat)
    requires
        a > 0,
        b > 0,
    ensures
        (x / a) / b == x / (a * b),
{
    vstd::arithmetic::div_mod::lemma_div_denominator(x as int, a as int, b as int);
}


// ---------------------------------------------------------------------------
// Float texts
// ---------------------------------------------------------------------------

/// The index of the first exponent mark (`e` or `E`), if any.
pub open spec fn exp_mark_from(s: Seq<char>, i: int) -> Option<int>
    decreases s.len() - i,
{
    if i < 0 || i >= s.len() {
        None
    } else if s[i] == 'e' || s[i] == 'E' {
        Some(i)
    } else {
        exp_mark_from(s, i + 1)
    }
}

/// An exponent: an optional sign and at least one digit.
pub open spec fn exponent_value(x: Seq<char>) -> Option<int> {
    if x.len() > 0 && (x[0] == '+' || x[0] == '-') {
        let d = x.skip(1);
        if d.len() > 0 && all_digits(d) {
            Some(if x[0] == '-' { -(digits_value(d) as int) } else { digits_value(d) as int })
        } else {
            None
        }
    } else if x.len() > 0 && all_digits(x) {
        Some(digits_value(x) as int)
    } else {
        None
    }
}

/// A non-negative finite number written as Rust reads a float: an optional
/// `+`, a decimal (see `parse_decimal_spec`), and an optional exponent
/// `e`/`E` with an optional sign and digits. The parts are the decimal and
/// the exponent (0 without one).
pub open spec fn float_parts(s: Seq<char>) -> Option<(Decimal, int)> {
    let body = if s.len() > 0 && s[0] == '+' { s.skip(1) } else { s };
    match exp_mark_from(body, 0) {
        None => match parse_decimal_spec(body) {
            Some(d) => Some((d, 0)),
            None => None,
        },
        Some(k) => match (parse_decimal_spec(body.take(k)), exponent_value(body.skip(k + 1))) {
            (Some(d), Some(e)) => Some((d, e)),
            _ => None,
        },
    }
}

/// `floor(d * 10^e * factor)`.
pub open spec fn float_scaled(d: Decimal, e: int, factor: nat) -> nat {
    let num = (d.mantissa as nat) * factor;
    if e >= d.scale {
        num * pow10((e - d.scale) as nat)
    } else {
        num / pow10((d.scale - e) as nat)
    }
}

/// `floor(value * factor)` of a float text (see `float_parts`).
pub open spec fn float_text_scaled(s: Seq<char>, factor: nat) -> Option<nat> {
    match float_parts(s) {
        Some((d, e)) => Some(float_scaled(d, e, factor)),
        None => None,
    }
}

proof fn lemma_pow10_mono(a: nat, b: nat)
    requires
        a <= b,
    ensures
        pow10(a) <= pow10(b),
    decreases b,
{
    if a < b {
        lemma_pow10_mono(a, (b - 1) as nat);
        lemma_pow10_pos((b - 1) as nat);
    }
}

proof fn lemma_pow10_39()
    ensures
        pow10(39) == 1_000_000_000_000_000_000_000_000_000_000_000_000_000nat,
{
    reveal_with_fuel(pow10, 40);
}

/// A product of a `u64` and a `u64` over `10^k` with `k >= 39` is 0.
proof fn lemma_tiny(num: nat, k: nat)
    requires
        num <= u64::MAX * u64::MAX,
        k >= 39,
    ensures
        num / pow10(k) == 0,
{
    lemma_pow10_39();
    lemma_pow10_mono(39, k);
    vstd::arithmetic::div_mod::lemma_basic_div(num as int, pow10(k) as int);
}

fn exp_mark_exec(s: &Vec<char>) -> (r: Option<usize>)
    ensures
        match r {
            Some(k) => exp_mark_from(s@, 0) == Some(k as int) && k < s.len(),
            None => exp_mark_from(s@, 0) is None,
        },
{
    let mut i: usize = 0;
    while i < s.len()
        invariant
            i <= s.len(),
            exp_mark_from(s@, 0) == exp_mark_from(s@, i as int),
        decreases s.len() - i,
    {
        if s[i] == 'e' || s[i] == 'E' {
            return Some(i);
        }
        i += 1;
    }
    None
}

/// An exponent read with a cap: `(negative, magnitude, over)`; when `over`
/// the magnitude is above `cap`, else it is `magnitude`.
fn exponent_exec(x: &Vec<char>, cap: u128) -> (r: Option<(bool, u128, bool)>)
    requires
        cap < u128::MAX / 20,
    ensures
        match r {
            None => exponent_value(x@) is None,
            Some((neg, v, over)) => exponent_value(x@) is Some && {
                let e = exponent_value(x@).unwrap();
                let mag = if neg { -e } else { e };
                &&& mag >= 0
                &&& (over ==> mag > cap)
                &&& (!over ==> mag == v as int && v <= cap)
            },
        },
{
    if x.len() == 0 {
        return None;
    }
    let signed = x[0] == '+' || x[0] == '-';
    let neg = x[0] == '-';
    let start: usize = if signed { 1 } else { 0 };
    let d = subvec(x, start, x.len());
    assert(d@ == x@.skip(start as int));
    if !signed {
        assert(x@.skip(0) == x@);
    }
    if d.len() == 0 {
        return None;
    }
    let mut v: u128 = 0;
    let mut over = false;
    let mut i: usize = 0;
    while i < d.len()
        invariant
            i <= d.len(),
            x.len() > 0,
            signed == (x@[0] == '+' || x@[0] == '-'),
            neg == (x@[0] == '-'),
            signed ==> d@ == x@.skip(1),
            !signed ==> d@ == x@,
            cap < u128::MAX / 20,
            v <= cap,
            !over ==> v as nat == digits_value(d@.take(i as int)),
            over ==> digits_value(d@.take(i as int)) > cap,
            all_digits(d@.take(i as int)),
        decreases d.len() - i,
    {
        let c = d[i];
        if !is_digit(c) {
            assert(!all_digits(d@)) by {
                assert(!is_ascii_digit_spec(d@[i as int]));
            }
            if signed {
                assert(x@.skip(1) == d@);
            } else {
                assert(x@ == d@);
                assert(!(x@[0] == '+' || x@[0] == '-'));
            }
            assert(exponent_value(x@) is None);
            return None;
        }
        proof {
            assert(d@.take(i + 1).drop_last() == d@.take(i as int));
            lemma_digits_value_push(d@.take(i as int), c);
            assert(d@.take(i + 1) == d@.take(i as int).push(c));
        }
        if !over {
            let nv: u128 = v * 10 + (c as u32 - '0' as u32) as u128;
            if nv > cap {
                over = true;
            } else {
                v = nv;
            }
        }
        i += 1;
    }
    assert(d@.take(d.len() as int) == d@);
    assert(all_digits(d@));
    Some((neg, v, over))
}

proof fn lemma_pow10_zero_step(num: nat)
    ensures
        pow10(0) == 1,
        num * pow10(0) == num,
        num / pow10(0) == num,
{
    assert(pow10(0) == 1);
}

/// `floor(value * factor)` of a float text, when it fits in a `u64`: see
/// `float_text_scaled`.
pub fn float_text_scaled_exec(s: &Vec<char>, factor: u64) -> (r: Option<u64>)
    requires
        factor >= 1,
    ensures
        match r {
            Some(v) => float_text_scaled(s@, factor as nat) == Some(v as nat),
            None => float_text_scaled(s@, factor as nat) is None || float_text_scaled(s@, factor as nat).unwrap()
                > u64::MAX,
        },
{
    let body = if s.len() > 0 && s[0] == '+' {
        subvec(s, 1, s.len())
    } else {
        subvec(s, 0, s.len())
    };
    assert(body@ == (if s@.len() > 0 && s@[0] == '+' { s@.skip(1) } else { s@ }));
    match exp_mark_exec(&body) {
        None => {
            match parse_decimal(&body) {
                None => None,
                Some(d) => {
                    let ghost num: nat = (d.mantissa as nat) * (factor as nat);
                    proof {
                        lemma_pow10_zero_step(num);
                    }
                    assert(float_scaled(d, 0, factor as nat) == scaled_floor(d, factor as nat));
                    assert(float_parts(s@) == Some((d, 0int)));
                    decimal_scaled(d, factor)
                },
            }
        },
        Some(k) => {
            let m = subvec(&body, 0, k);
            let x = subvec(&body, k + 1, body.len());
            assert(m@ == body@.take(k as int));
            assert(x@ == body@.skip(k + 1));
            let d = match parse_decimal(&m) {
                None => {
                    return None;
                },
                Some(d) => d,
            };
            let sc: u128 = d.scale as u128;
            match exponent_exec(&x, sc + 64) {
                None => None,
                Some((neg, v, over)) => {
                    let ghost e = exponent_value(x@).unwrap();
                    let ghost num: nat = (d.mantissa as nat) * (factor as nat);
                    assert(float_parts(s@) == Some((d, e)));
                    assert(float_text_scaled(s@, factor as nat) == Some(float_scaled(d, e, factor as nat)));
                    proof {
                        vstd::arithmetic::mul::lemma_mul_upper_bound(
                            d.mantissa as int, u64::MAX as int, factor as int, u64::MAX as int);
                        lemma_pow10_zero_step(num);
                    }
                    if neg {
                        // The scale grows by the exponent's magnitude.
                        if over || sc + v >= 39 {
                            proof {
                                assert(e < d.scale as int);
                                lemma_tiny(num, (d.scale - e) as nat);
                            }
                            Some(0)
                        } else {
                            let d2 = Decimal { mantissa: d.mantissa, scale: (sc + v) as usize };
                            assert(d2.scale == d.scale - e);
                            assert(float_scaled(d, e, factor as nat) == scaled_floor(d2, factor as nat));
                            decimal_scaled(d2, factor)
                        }
                    } else if !over && v <= sc {
                        let d2 = Decimal { mantissa: d.mantissa, scale: (sc - v) as usize };
                        assert(d2.scale == d.scale - e);
                        assert(float_scaled(d, e, factor as nat) == scaled_floor(d2, factor as nat));
                        decimal_scaled(d2, factor)
                    } else {
                        // A whole number: the product times 10^(e - scale).
                        assert(e > d.scale);
                        let prod: u128 = d.mantissa as u128 * factor as u128;
                        if prod == 0 {
                            assert(num == 0);
                            assert(float_scaled(d, e, factor as nat) == 0) by {
                                vstd::arithmetic::mul::lemma_mul_basics(pow10((e - d.scale) as nat) as int);
                            }
                            return Some(0);
                        }
                        if over {
                            proof {
                                lemma_pow10_39();
                                lemma_pow10_mono(39, (e - d.scale) as nat);
                                vstd::arithmetic::mul::lemma_mul_inequality(
                                    1, num as int, pow10((e - d.scale) as nat) as int);
                            }
                            return None;
                        }
                        let k2: u64 = (v - sc) as u64;
                        assert(k2 as int == e - d.scale);
                        assert(float_text_scaled(s@, factor as nat) == Some(num * pow10(k2 as nat)));
                        if prod > u64::MAX as u128 {
                            proof {
                                lemma_pow10_pos(k2 as nat);
                                assert(num * pow10(k2 as nat) >= num) by (nonlinear_arith)
                                    requires
                                        pow10(k2 as nat) >= 1,
                                ;
                            }
                            return None;
                        }
                        let mut q: u128 = prod;
                        let mut j: u64 = 0;
                        while j < k2
                            invariant
                                j <= k2,
                                float_text_scaled(s@, factor as nat) == Some(num * pow10(k2 as nat)),
                                k2 as int == e - d.scale,
                                q as nat == num * pow10(j as nat),
                                q <= u64::MAX,
                                num >= 1,
                                pow10(0) == 1,
                            decreases k2 - j,
                        {
                            proof {
                                assert(pow10((j + 1) as nat) == 10 * pow10(j as nat));
                                assert(num * (10 * pow10(j as nat)) == (num * pow10(j as nat)) * 10) by (nonlinear_arith);
                            }
                            q = q * 10;
                            j += 1;
                            if q > u64::MAX as u128 {
                                proof {
                                    lemma_pow10_mono(j as nat, k2 as nat);
                                    assert(num * pow10(j as nat) <= num * pow10(k2 as nat)) by (nonlinear_arith)
                                        requires
                                            pow10(j as nat) <= pow10(k2 as nat),
                                            num >= 1,
                                    ;
                                }
                                return None;
                            }
                        }
                        Some(q as u64)
                    }
                },
            }
        },
    }
}

// ---------------------------------------------------------------------------
// Writing numbers
// ---------------------------------------------------------------------------

pub open spec fn digit_char(d: nat) -> char {
    ((d + 48) as u32) as char
}

/// The decimal digits of `n`, without leading zeros ("0" for zero).
pub open spec fn nat_text(n: nat) -> Seq<char>
    decreases n,
{
    if n < 10 {
        seq![digit_char(n)]
    } else {
        nat_text(n / 10).push(digit_char(n % 10))
    }
}

/// The decimal digits of an integer, with `-` before a negative one.
pub open spec fn int_text(n: int) -> Seq<char> {
    if n < 0 {
        seq!['-'] + nat_text((-n) as nat)
    } else {
        nat_text(n as nat)
    }
}

fn digit_of(d: u64) -> (c: char)
    requires
        d < 10,
    ensures
        c == digit_char(d as nat),
{
    let b: u8 = (d as u8) + 48;
    b as char
}

/// `n` written in decimal.
pub fn u64_text(n: u64) -> (r: Vec<char>)
    ensures
        r@ == nat_text(n as nat),
    decreases n,
{
    if n < 10 {
        let mut v: Vec<char> = Vec::new();
        v.push(digit_of(n));
        assert(v@ == seq![digit_char(n as nat)]);
        v
    } else {
        let mut v = u64_text(n / 10);
        v.push(digit_of(n % 10));
        v
    }
}

fn digit_of_wide(d: u128) -> (c: char)
    requires
        d < 10,
    ensures
        c == digit_char(d as nat),
{
    let b: u8 = (d as u8) + 48;
    b as char
}

/// `n` written in decimal.
pub fn u128_text(n: u128) -> (r: Vec<char>)
    ensures
        r@ == nat_text(n as nat),
    decreases n,
{
    if n < 10 {
        let mut v: Vec<char> = Vec::new();
        v.push(digit_of_wide(n));
        assert(v@ == seq![digit_char(n as nat)]);
        v
    } else {
        let mut v = u128_text(n / 10);
        v.push(digit_of_wide(n % 10));
        v
    }
}

/// `n` written in decimal with a sign when negative.
pub fn i64_text(n: i64) -> (r: Vec<char>)
    ensures
        r@ == int_text(n as int),
{
    if n < 0 {
        let m: u64 = if n == i64::MIN {
            9223372036854775808u64
        } else {
            (-n) as u64
        };
        let mut v: Vec<char> = Vec::new();
        v.push('-');
        let d = u64_text(m);
        crate::text::push_all(&mut v, &d);
        v
    } else {
        u64_text(n as u64)
    }
}

} // verus!
