//! Exact fixed-point score arithmetic and the numeric-token scanner.
//!
//! A raw score is an integer count of micro-points (`1_000_000` micro-units
//! per point). A standardized score is an integer count of the same
//! micro-units on the 0-100 scale, computed as `raw * 100 / qmax` with the
//! division truncated toward zero. A score cell is scanned for its first
//! numeric token, of the shape: an optional leading `-`, a digit run, and
//! optionally a `.` followed by a digit run. Fractional digits beyond the
//! sixth do not change the value; a magnitude beyond
//! [`MAX_ABS_MICROS`] does not fit the fixed-point range and is rejected.
use vstd::prelude::*;
use vstd::string::StrSliceExecFns;

use crate::text::{digit_val, is_digit, is_digit_char};

verus! {

/// Micro-units per point.
pub const MICROS_PER_POINT: i64 = 1_000_000;

/// Factor taking a raw micro-point count to the standardized scale:
/// `100` points, in micro-units.
pub const STD_SCALE: i128 = 100_000_000;

/// Largest raw-score magnitude the fixed-point range admits, in micro-units
/// (one thousand million points).
pub const MAX_ABS_MICROS: i64 = 1_000_000_000_000_000;

/// Largest standardized-score magnitude: reached when the raw score has the
/// largest magnitude and the qualifying maximum is one micro-unit.
pub const MAX_ABS_STD: i128 = 100_000_000_000_000_000_000_000;

pub open spec fn abs_int(a: int) -> int {
    if a < 0 {
        -a
    } else {
        a
    }
}

/// Integer division rounding toward zero, the rounding used for every
/// score division in this crate.
pub open spec fn div_trunc(a: int, b: int) -> int
    recommends
        b != 0,
{
    if (a < 0) != (b < 0) {
        -(abs_int(a) / abs_int(b))
    } else {
        abs_int(a) / abs_int(b)
    }
}

/// The standardized score, in micro-units, of a raw score within a file
/// whose qualifying maximum is `qmax`: `raw / qmax * 100`, truncated toward
/// zero; by convention `0` when `qmax == 0`.
pub open spec fn std_micros(raw: int, qmax: int) -> int {
    if qmax == 0 {
        0
    } else {
        div_trunc(raw * STD_SCALE, qmax)
    }
}

proof fn lemma_div_le(a: int, b: int)
    requires
        0 <= a,
        1 <= b,
    ensures
        0 <= a / b <= a,
{
    vstd::arithmetic::div_mod::lemma_div_nonincreasing(a, b);
    vstd::arithmetic::div_mod::lemma_div_pos_is_pos(a, b);
}

/// A raw score of the largest admitted magnitude standardizes to a value
/// within [`MAX_ABS_STD`], whatever the qualifying maximum.
pub proof fn lemma_std_bound(raw: int, qmax: int)
    requires
        abs_int(raw) <= MAX_ABS_MICROS,
    ensures
        abs_int(std_micros(raw, qmax)) <= MAX_ABS_STD,
{
    if qmax != 0 {
        let p = raw * STD_SCALE;
        assert(abs_int(p) == abs_int(raw) * STD_SCALE && abs_int(raw) * STD_SCALE
            <= MAX_ABS_MICROS * STD_SCALE) by (nonlinear_arith)
            requires
                p == raw * STD_SCALE,
                abs_int(raw) == if raw < 0 {
                    -raw
                } else {
                    raw
                },
                abs_int(p) == if p < 0 {
                    -p
                } else {
                    p
                },
                abs_int(raw) <= MAX_ABS_MICROS,
        ;
        lemma_div_le(abs_int(p), abs_int(qmax));
    }
}

/// The raw score equal to the qualifying maximum standardizes to exactly
/// `100` points whenever the maximum is not zero.
pub proof fn lemma_std_of_max(qmax: int)
    requires
        qmax != 0,
    ensures
        std_micros(qmax, qmax) == STD_SCALE,
{
    let p = qmax * STD_SCALE;
    let a = abs_int(qmax);
    assert(abs_int(p) == a * STD_SCALE && (p < 0) == (qmax < 0) && a * STD_SCALE == a * (
    STD_SCALE as int)) by (nonlinear_arith)
        requires
            qmax != 0,
            p == qmax * STD_SCALE,
            a == if qmax < 0 {
                -qmax
            } else {
                qmax
            },
            abs_int(p) == if p < 0 {
                -p
            } else {
                p
            },
    ;
    assert(a * (STD_SCALE as int) == (a as int) * (STD_SCALE as int));
    vstd::arithmetic::div_mod::lemma_div_by_multiple(STD_SCALE as int, a);
    assert((STD_SCALE * a) / a == STD_SCALE);
    assert(a * STD_SCALE == STD_SCALE * a) by (nonlinear_arith);
}

/// Truncating division on machine integers.
pub fn div_trunc_i128(a: i128, b: i128) -> (q: i128)
    requires
        b != 0,
        -0x7fff_ffff_ffff_ffff_ffff_ffff_ffff_ffff <= a,
        -0x7fff_ffff_ffff_ffff_ffff_ffff_ffff_ffff <= b,
    ensures
        q == div_trunc(a as int, b as int),
        abs_int(q as int) <= abs_int(a as int),
{
    let ua: u128 = if a < 0 {
        (-a) as u128
    } else {
        a as u128
    };
    let ub: u128 = if b < 0 {
        (-b) as u128
    } else {
        b as u128
    };
    let uq: u128 = ua / ub;
    proof {
        lemma_div_le(ua as int, ub as int);
    }
    if (a < 0) != (b < 0) {
        -(uq as i128)
    } else {
        uq as i128
    }
}

/// The standardized score of `raw` in a file whose qualifying maximum is
/// `qmax`, in micro-units.
pub fn std_micros_exec(raw: i64, qmax: i64) -> (r: i128)
    requires
        abs_int(raw as int) <= MAX_ABS_MICROS,
        abs_int(qmax as int) <= MAX_ABS_MICROS,
    ensures
        r == std_micros(raw as int, qmax as int),
        abs_int(r as int) <= MAX_ABS_STD,
{
    if qmax == 0 {
        return 0;
    }
    let wide: i128 = (raw as i128) * STD_SCALE;
    let r = div_trunc_i128(wide, qmax as i128);
    proof {
        lemma_std_bound(raw as int, qmax as int);
    }
    r
}

/// Whether a numeric token starts at position `i`: a digit, or a minus
/// sign directly followed by a digit.
pub open spec fn token_at(s: Seq<char>, i: int) -> bool {
    0 <= i < s.len() && (is_digit_char(s[i]) || (s[i] == '-' && i + 1 < s.len() && is_digit_char(
        s[i + 1],
    )))
}

/// Position of the first numeric token at or after `from`.
pub open spec fn first_token_start(s: Seq<char>, from: int) -> Option<int>
    decreases s.len() - from,
{
    if from >= s.len() {
        None
    } else if token_at(s, from) {
        Some(from)
    } else {
        first_token_start(s, from + 1)
    }
}

/// End of the digit run starting at `from`.
pub open spec fn digits_end(s: Seq<char>, from: int) -> int
    decreases s.len() - from,
{
    if 0 <= from < s.len() && is_digit_char(s[from]) {
        digits_end(s, from + 1)
    } else {
        from
    }
}

/// Value of the digit run in `[from, to)`, read left to right.
pub open spec fn digits_value(s: Seq<char>, from: int, to: int) -> int
    decreases to - from,
{
    if to <= from {
        0
    } else {
        digits_value(s, from, to - 1) * 10 + digit_val(s[to - 1])
    }
}

pub open spec fn pow10(k: int) -> int
    decreases k,
{
    if k <= 0 {
        1
    } else {
        10 * pow10(k - 1)
    }
}

/// The fractional contribution, in micro-units, of the token whose whole
/// part's digit run ends at `de`.
pub open spec fn frac_micros(s: Seq<char>, de: int) -> int {
    if de < s.len() && s[de] == '.' && de + 1 < s.len() && is_digit_char(s[de + 1]) {
        let fe = digits_end(s, de + 1);
        let used = if fe - (de + 1) > 6 {
            de + 7
        } else {
            fe
        };
        digits_value(s, de + 1, used) * pow10(6 - (used - (de + 1)))
    } else {
        0
    }
}

/// Value in micro-units of the numeric token starting at `i`; meaningful
/// only where `token_at(s, i)` holds. Fractional digits beyond the sixth
/// are dropped (the magnitude is truncated toward zero).
pub open spec fn token_value_micros(s: Seq<char>, i: int) -> int {
    let neg = s[i] == '-';
    let d0 = if neg {
        i + 1
    } else {
        i
    };
    let de = digits_end(s, d0);
    let mag = digits_value(s, d0, de) * 1_000_000 + frac_micros(s, de);
    if neg {
        -mag
    } else {
        mag
    }
}

/// What scanning a score cell's text yields: the value in micro-units of
/// the first numeric token, or nothing when no token occurs.
pub open spec fn scan_micros(s: Seq<char>) -> Option<int> {
    match first_token_start(s, 0) {
        Option::None => Option::None,
        Option::Some(i) => Option::Some(token_value_micros(s, i)),
    }
}

proof fn lemma_digits_value_nonneg(s: Seq<char>, from: int, to: int)
    requires
        forall|j: int| from <= j < to ==> is_digit_char(#[trigger] s[j]),
    ensures
        digits_value(s, from, to) >= 0,
    decreases to - from,
{
    if to > from {
        lemma_digits_value_nonneg(s, from, to - 1);
    }
}

proof fn lemma_digits_value_monotone(s: Seq<char>, from: int, mid: int, to: int)
    requires
        from <= mid <= to,
        forall|j: int| from <= j < to ==> is_digit_char(#[trigger] s[j]),
    ensures
        digits_value(s, from, mid) <= digits_value(s, from, to),
    decreases to - mid,
{
    if mid < to {
        lemma_digits_value_monotone(s, from, mid, to - 1);
        lemma_digits_value_nonneg(s, from, to - 1);
    }
}

proof fn lemma_digits_end_at(s: Seq<char>, from: int, to: int)
    requires
        0 <= from <= to <= s.len(),
        forall|j: int| from <= j < to ==> is_digit_char(#[trigger] s[j]),
        to == s.len() || !is_digit_char(s[to]),
    ensures
        digits_end(s, from) == to,
    decreases to - from,
{
    if from < to {
        lemma_digits_end_at(s, from + 1, to);
    }
}

/// Every position in a digit run is a digit, and the run stays inside the
/// string.
proof fn lemma_digits_end_props(s: Seq<char>, from: int)
    requires
        0 <= from <= s.len(),
    ensures
        from <= digits_end(s, from) <= s.len(),
        forall|j: int| from <= j < digits_end(s, from) ==> is_digit_char(#[trigger] s[j]),
    decreases s.len() - from,
{
    if from < s.len() && is_digit_char(s[from]) {
        lemma_digits_end_props(s, from + 1);
    }
}

proof fn lemma_digits_end_past(s: Seq<char>, from: int, k: int)
    requires
        0 <= from <= k <= s.len(),
        forall|j: int| from <= j < k ==> is_digit_char(#[trigger] s[j]),
    ensures
        digits_end(s, from) >= k,
    decreases k - from,
{
    if from < k {
        lemma_digits_end_past(s, from + 1, k);
    } else {
        lemma_digits_end_props(s, from);
    }
}

proof fn lemma_pow10_le(k: int, hi: int)
    requires
        0 <= k <= hi <= 6,
    ensures
        1 <= pow10(k) <= pow10(hi) <= 1_000_000,
{
    reveal_with_fuel(pow10, 8);
    assert(pow10(0) == 1 && pow10(1) == 10 && pow10(2) == 100 && pow10(3) == 1000 && pow10(4)
        == 10000 && pow10(5) == 100000 && pow10(6) == 1000000);
}

proof fn lemma_digits_value_bound(s: Seq<char>, from: int, to: int)
    requires
        from <= to <= from + 6,
        forall|j: int| from <= j < to ==> is_digit_char(#[trigger] s[j]),
    ensures
        0 <= digits_value(s, from, to) <= pow10(to - from) - 1 < 1_000_000,
    decreases to - from,
{
    lemma_pow10_le(to - from, 6);
    if to > from {
        lemma_digits_value_bound(s, from, to - 1);
        assert(digit_val(s[to - 1]) <= 9);
        assert(pow10(to - from) == 10 * pow10(to - from - 1));
    }
}

/// The fractional contribution is never negative and stays below one
/// million micro-units.
proof fn lemma_frac_range(s: Seq<char>, de: int)
    requires
        0 <= de,
    ensures
        0 <= frac_micros(s, de) < 1_000_000,
{
    if de < s.len() && s[de] == '.' && de + 1 < s.len() && is_digit_char(s[de + 1]) {
        let f0 = de + 1;
        let fe = digits_end(s, f0);
        lemma_digits_end_props(s, f0);
        let used = if fe - f0 > 6 {
            de + 7
        } else {
            fe
        };
        lemma_digits_value_bound(s, f0, used);
        let v = digits_value(s, f0, used);
        let p = pow10(6 - (used - f0));
        lemma_pow10_le(6 - (used - f0), 6 - (used - f0));
        assert(0 <= v * p && v * p <= (pow10(used - f0) - 1) * p) by (nonlinear_arith)
            requires
                0 <= v <= pow10(used - f0) - 1,
                p >= 1,
        ;
        lemma_pow10_le(used - f0, 6);
        assert((pow10(used - f0) - 1) * p < pow10(used - f0) * p) by (nonlinear_arith)
            requires
                p >= 1,
        ;
        assert(pow10(used - f0) * p == pow10(6)) by {
            lemma_pow10_mul(used - f0, 6 - (used - f0));
        }
        assert(pow10(6) == 1_000_000) by {
            lemma_pow10_le(6, 6);
            reveal_with_fuel(pow10, 8);
        }
    }
}

proof fn lemma_pow10_mul(a: int, b: int)
    requires
        0 <= a,
        0 <= b,
    ensures
        pow10(a) * pow10(b) == pow10(a + b),
    decreases a,
{
    if a == 0 {
        assert(pow10(0) == 1);
    } else {
        lemma_pow10_mul(a - 1, b);
        assert(pow10(a) == 10 * pow10(a - 1));
        assert((10 * pow10(a - 1)) * pow10(b) == 10 * (pow10(a - 1) * pow10(b)))
            by (nonlinear_arith);
    }
}

/// Finds the start of the first numeric token of the text.
fn find_token(s: &str, n: usize) -> (r: Option<usize>)
    requires
        n == s@.len(),
    ensures
        match r {
            Some(i) => first_token_start(s@, 0) == Some(i as int) && token_at(s@, i as int) && i
                < n,
            None => first_token_start(s@, 0) is None,
        },
{
    let mut i: usize = 0;
    loop
        invariant
            n == s@.len(),
            0 <= i <= n,
            first_token_start(s@, 0) == first_token_start(s@, i as int),
        decreases n - i,
    {
        if i >= n {
            return None;
        }
        let c = s.get_char(i);
        if is_digit(c) {
            return Some(i);
        }
        if c == '-' && i + 1 < n && is_digit(s.get_char(i + 1)) {
            return Some(i);
        }
        assert(!token_at(s@, i as int));
        i += 1;
    }
}

/// Reads the digit run beginning at `from`, returning its end and, unless
/// the run's value exceeds one thousand million, the value itself.
fn read_digits(s: &str, n: usize, from: usize) -> (r: (usize, Option<u64>))
    requires
        n == s@.len(),
        from <= n,
    ensures
        r.0 == digits_end(s@, from as int),
        from <= r.0 <= n,
        match r.1 {
            Some(v) => v == digits_value(s@, from as int, r.0 as int) && v <= 1_000_000_009,
            None => digits_value(s@, from as int, r.0 as int) > 1_000_000_000,
        },
{
    let mut j: usize = from;
    let mut acc: u64 = 0;
    let mut big: bool = false;
    while j < n && is_digit(s.get_char(j))
        invariant
            n == s@.len(),
            from <= j <= n,
            forall|k: int| from <= k < j ==> is_digit_char(#[trigger] s@[k]),
            !big ==> acc == digits_value(s@, from as int, j as int) && acc <= 1_000_000_009,
            big ==> digits_value(s@, from as int, j as int) > 1_000_000_000,
        decreases n - j,
    {
        let c = s.get_char(j);
        proof {
            lemma_digits_value_nonneg(s@, from as int, j as int);
        }
        if !big {
            if acc > 100_000_000 {
                big = true;
            } else {
                acc = acc * 10 + (c as u32 - '0' as u32) as u64;
            }
        } else {
            proof {
                lemma_digits_value_monotone(s@, from as int, j as int, j + 1);
            }
        }
        j += 1;
    }
    proof {
        lemma_digits_end_at(s@, from as int, j as int);
    }
    if big || acc > 1_000_000_000 {
        (j, None)
    } else {
        (j, Some(acc))
    }
}

/// Scans a score cell's text for its first numeric token and returns the
/// token's value in micro-units.
///
/// `None` is returned when the text holds no numeric token or when the
/// token's magnitude exceeds [`MAX_ABS_MICROS`]; under the error policy of
/// this crate either case rejects the whole document as a parse failure.
pub fn scan_score(s: &str) -> (r: Option<i64>)
    ensures
        match r {
            Some(v) => scan_micros(s@) == Some(v as int) && abs_int(v as int) <= MAX_ABS_MICROS,
            None => match scan_micros(s@) {
                Option::None => true,
                Option::Some(v) => abs_int(v) > MAX_ABS_MICROS,
            },
        },
{
    let n = s.unicode_len();
    let i = match find_token(s, n) {
        Some(i) => i,
        None => {
            return None;
        },
    };
    let neg = s.get_char(i) == '-';
    let d0 = if neg {
        i + 1
    } else {
        i
    };
    let (de, whole_opt) = read_digits(s, n, d0);
    proof {
        lemma_digits_end_props(s@, d0 as int);
        lemma_frac_range(s@, de as int);
        lemma_digits_value_nonneg(s@, d0 as int, de as int);
    }
    let ghost w = digits_value(s@, d0 as int, de as int);
    let ghost tv = token_value_micros(s@, i as int);
    proof {
        assert(abs_int(tv) == w * 1_000_000 + frac_micros(s@, de as int)) by {
            assert(w * 1_000_000 >= 0) by (nonlinear_arith)
                requires
                    w >= 0,
            ;
        }
    }
    let whole = match whole_opt {
        Some(w) => w,
        None => {
            proof {
                assert(w * 1_000_000 > 1_000_000_000_000_000) by (nonlinear_arith)
                    requires
                        w > 1_000_000_000,
                ;
            }
            return None;
        },
    };
    let mut frac: u64 = 0;
    let mut have_frac: bool = false;
    if de < n && s.get_char(de) == '.' && de + 1 < n && is_digit(s.get_char(de + 1)) {
        have_frac = true;
        let f0 = de + 1;
        let mut j: usize = f0;
        while j < n && j - f0 < 6 && is_digit(s.get_char(j))
            invariant
                n == s@.len(),
                f0 <= j <= n,
                j - f0 <= 6,
                forall|k: int| f0 <= k < j ==> is_digit_char(#[trigger] s@[k]),
                frac == digits_value(s@, f0 as int, j as int),
                frac <= 999_999,
            decreases n - j,
        {
            let c = s.get_char(j);
            proof {
                lemma_digits_value_bound(s@, f0 as int, j as int);
                lemma_digits_value_bound(s@, f0 as int, j + 1);
            }
            frac = frac * 10 + (c as u32 - '0' as u32) as u64;
            j += 1;
        }
        let used = j;
        let ghost fe = digits_end(s@, f0 as int);
        proof {
            lemma_digits_end_past(s@, f0 as int, used as int);
            if used - f0 < 6 {
                lemma_digits_end_at(s@, f0 as int, used as int);
            }
            let u_spec = if fe - f0 > 6 {
                f0 + 6
            } else {
                fe
            };
            assert(u_spec == used as int);
        }
        let mut pad: usize = 0;
        while pad < 6 - (used - f0)
            invariant
                f0 <= used,
                used - f0 <= 6,
                pad <= 6 - (used - f0),
                forall|k: int| f0 <= k < used ==> is_digit_char(#[trigger] s@[k]),
                frac == digits_value(s@, f0 as int, used as int) * pow10(pad as int),
                frac <= 999_999_000_000,
            decreases 6 - (used - f0) - pad,
        {
            proof {
                lemma_digits_value_bound(s@, f0 as int, used as int);
                lemma_pow10_le(pad as int, 6);
                lemma_pow10_le(pad + 1, 6);
                assert(digits_value(s@, f0 as int, used as int) * pow10(pad + 1) == (digits_value(
                    s@,
                    f0 as int,
                    used as int,
                ) * pow10(pad as int)) * 10) by (nonlinear_arith);
                assert(digits_value(s@, f0 as int, used as int) * pow10(pad + 1) <= 999_999
                    * 1_000_000) by (nonlinear_arith)
                    requires
                        0 <= digits_value(s@, f0 as int, used as int) <= 999_999,
                        1 <= pow10(pad + 1) <= 1_000_000,
                ;
            }
            frac = frac * 10;
            pad += 1;
        }
        proof {
            assert(pad == 6 - (used - f0));
            assert(frac as int == frac_micros(s@, de as int));
        }
    }
    proof {
        if !have_frac {
            assert(frac_micros(s@, de as int) == 0);
        }
        assert(frac as int == frac_micros(s@, de as int));
        assert(whole as int == w);
        assert(w * 1_000_000 <= 1_000_000_009 * 1_000_000) by (nonlinear_arith)
            requires
                0 <= w <= 1_000_000_009,
        ;
    }
    let mag: u64 = whole * 1_000_000 + frac;
    if mag > 1_000_000_000_000_000 {
        return None;
    }
    if neg {
        Some(-(mag as i64))
    } else {
        Some(mag as i64)
    }
}

} // verus!
