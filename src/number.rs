//! Decimal literals as they appear in meter telegrams, read into exact
//! fixed-point values counted in billionths of the register's unit.
use vstd::prelude::*;
use vstd::string::StringSliceAdditionalSpecFns;

verus! {

/// Number of fractional decimal digits kept by a fixed-point reading.
pub const SCALE_DIGITS: u64 = 9;

/// Exponent magnitude at which reading stops counting (two to the 70th):
/// any larger exponent scales every nonzero mantissa past the `i64` range, or
/// below half a billionth, however many digits the literal has.
pub const EXPONENT_CAP: u128 = 1_180_591_620_717_411_303_424;

/// A bound above `i64::MAX` at which accumulated digits stop counting.
pub const DIGITS_CAP: u64 = 9_223_372_036_854_775_808;

/// Ten to the power `n`.
pub open spec fn pow10(n: nat) -> nat
    decreases n,
{
    if n == 0 {
        1
    } else {
        10 * pow10((n - 1) as nat)
    }
}

pub open spec fn is_digit(b: u8) -> bool {
    48 <= b <= 57
}

/// Length of the run of ASCII digits in `s` that starts at `i`.
pub open spec fn digit_run(s: Seq<u8>, i: int) -> nat
    decreases s.len() - i,
{
    if 0 <= i < s.len() && is_digit(s[i]) {
        1 + digit_run(s, i + 1)
    } else {
        0
    }
}

/// The natural number written by the decimal digits `d`.
pub open spec fn digits_value(d: Seq<u8>) -> nat
    decreases d.len(),
{
    if d.len() == 0 {
        0
    } else {
        digits_value(d.drop_last()) * 10 + (d.last() - 48) as nat
    }
}

pub proof fn lemma_pow10_positive(n: nat)
    ensures
        pow10(n) >= 1,
    decreases n,
{
    if n > 0 {
        lemma_pow10_positive((n - 1) as nat);
    }
}

pub proof fn lemma_pow10_monotone(a: nat, b: nat)
    requires
        a <= b,
    ensures
        pow10(a) <= pow10(b),
    decreases b,
{
    if a < b {
        lemma_pow10_monotone(a, (b - 1) as nat);
        lemma_pow10_positive((b - 1) as nat);
    }
}

proof fn lemma_digit_run_bound(s: Seq<u8>, i: int)
    requires
        0 <= i <= s.len(),
    ensures
        i + digit_run(s, i) <= s.len(),
        forall|j: int| i <= j < i + digit_run(s, i) ==> is_digit(#[trigger] s[j]),
    decreases s.len() - i,
{
    if i < s.len() && is_digit(s[i]) {
        lemma_digit_run_bound(s, i + 1);
    }
}

proof fn lemma_pow10_18()
    ensures
        pow10(9) == 1_000_000_000,
        pow10(18) == 1_000_000_000_000_000_000,
{
    reveal_with_fuel(pow10, 19);
}

/// Position just past the run of digits that starts at `i`.
fn skip_digits(s: &[u8], i: usize) -> (e: usize)
    requires
        i <= s@.len(),
    ensures
        e == i + digit_run(s@, i as int),
        e <= s@.len(),
{
    let mut j: usize = i;
    while j < s.len() && 48 <= s[j] && s[j] <= 57
        invariant
            i <= j <= s@.len(),
            digit_run(s@, i as int) == (j - i) + digit_run(s@, j as int),
        decreases s@.len() - j,
    {
        j = j + 1;
    }
    j
}

/// Ten to the power `n`, for `n` up to eighteen.
fn pow10_u64(n: usize) -> (r: u64)
    requires
        n <= 18,
    ensures
        r == pow10(n as nat),
{
    let mut r: u64 = 1;
    let mut k: usize = 0;
    while k < n
        invariant
            k <= n <= 18,
            r == pow10(k as nat),
        decreases n - k,
    {
        proof {
            lemma_pow10_monotone((k + 1) as nat, 18);
            lemma_pow10_18();
        }
        r = r * 10;
        k = k + 1;
    }
    r
}


/// Whether position `i` of `s` holds the byte `b`.
pub open spec fn at(s: Seq<u8>, i: int, b: u8) -> bool {
    0 <= i < s.len() && s[i] == b
}

/// Length of the optional sign of a literal starting at `p`.
pub open spec fn sign_len(s: Seq<u8>, p: int) -> int {
    if at(s, p, 43) || at(s, p, 45) {
        1
    } else {
        0
    }
}

pub open spec fn int_start(s: Seq<u8>, p: int) -> int {
    p + sign_len(s, p)
}

pub open spec fn int_len(s: Seq<u8>, p: int) -> nat {
    digit_run(s, int_start(s, p))
}

/// Position just past the integer digits, where a `.` may stand.
pub open spec fn dot_pos(s: Seq<u8>, p: int) -> int {
    int_start(s, p) + int_len(s, p)
}

pub open spec fn has_dot(s: Seq<u8>, p: int) -> bool {
    at(s, dot_pos(s, p), 46)
}

/// Where the fractional digits start, just past the dot when there is one.
pub open spec fn frac_start(s: Seq<u8>, p: int) -> int {
    if has_dot(s, p) {
        dot_pos(s, p) + 1
    } else {
        dot_pos(s, p)
    }
}

pub open spec fn frac_len(s: Seq<u8>, p: int) -> nat {
    if has_dot(s, p) {
        digit_run(s, dot_pos(s, p) + 1)
    } else {
        0
    }
}

/// Position just past the integer and fractional part.
pub open spec fn mantissa_end(s: Seq<u8>, p: int) -> int {
    if has_dot(s, p) {
        dot_pos(s, p) + 1 + frac_len(s, p)
    } else {
        dot_pos(s, p)
    }
}

pub open spec fn has_exp(s: Seq<u8>, p: int) -> bool {
    at(s, mantissa_end(s, p), 101) || at(s, mantissa_end(s, p), 69)
}

pub open spec fn exp_sign_len(s: Seq<u8>, p: int) -> int {
    let q = mantissa_end(s, p) + 1;
    if has_exp(s, p) && (at(s, q, 43) || at(s, q, 45)) {
        1
    } else {
        0
    }
}

pub open spec fn exp_start(s: Seq<u8>, p: int) -> int {
    mantissa_end(s, p) + 1 + exp_sign_len(s, p)
}

pub open spec fn exp_len(s: Seq<u8>, p: int) -> nat {
    if has_exp(s, p) {
        digit_run(s, exp_start(s, p))
    } else {
        0
    }
}

/// Position just past a literal starting at `p`.
pub open spec fn literal_end(s: Seq<u8>, p: int) -> int {
    if has_exp(s, p) {
        exp_start(s, p) + exp_len(s, p)
    } else {
        mantissa_end(s, p)
    }
}

/// A literal has at least one mantissa digit, and an exponent marker is
/// followed by at least one digit.
pub open spec fn literal_well_formed(s: Seq<u8>, p: int) -> bool {
    int_len(s, p) + frac_len(s, p) > 0 && (has_exp(s, p) ==> exp_len(s, p) > 0)
}

/// The mantissa digits, integer part then fractional part, without the dot.
pub open spec fn mantissa_digits(s: Seq<u8>, p: int) -> Seq<u8> {
    s.subrange(int_start(s, p), dot_pos(s, p)) + s.subrange(
        frac_start(s, p),
        frac_start(s, p) + frac_len(s, p),
    )
}

pub open spec fn exponent(s: Seq<u8>, p: int) -> int {
    let e = digits_value(s.subrange(exp_start(s, p), exp_start(s, p) + exp_len(s, p))) as int;
    if !has_exp(s, p) {
        0
    } else if at(s, mantissa_end(s, p) + 1, 45) {
        -e
    } else {
        e
    }
}

/// Power of ten by which the mantissa is scaled to count billionths.
pub open spec fn nano_shift(s: Seq<u8>, p: int) -> int {
    exponent(s, p) + SCALE_DIGITS - frac_len(s, p)
}

/// `v`, or `i64::MAX` if it is larger.
pub open spec fn saturate(v: nat) -> nat {
    if v > i64::MAX {
        i64::MAX as nat
    } else {
        v
    }
}

/// One when digit `i` of `d` is 5 or more, zero otherwise (or past the end).
pub open spec fn round_up_digit(d: Seq<u8>, i: int) -> nat {
    if 0 <= i < d.len() && d[i] >= 53 {
        1
    } else {
        0
    }
}

/// The digits `d` scaled by ten to the power `k`, rounded to the nearest
/// whole number with halves rounded up, and saturated at `i64::MAX`. With a
/// negative `k` the last `-k` digits fall after the point: the digits before
/// them count, plus one when the first of them is 5 or more.
pub open spec fn scaled_magnitude(d: Seq<u8>, k: int) -> nat {
    if k >= 0 {
        saturate(digits_value(d) * pow10(k as nat))
    } else if d.len() + k < 0 {
        0
    } else {
        saturate(digits_value(d.subrange(0, d.len() + k)) + round_up_digit(d, d.len() + k))
    }
}

/// The value of the well-formed literal starting at `p`, in billionths:
/// rounded to the nearest billionth (halves away from zero), and saturated
/// at `i64::MAX` billionths either way from zero.
pub open spec fn literal_nanos(s: Seq<u8>, p: int) -> Option<int> {
    if literal_well_formed(s, p) {
        let m = scaled_magnitude(mantissa_digits(s, p), nano_shift(s, p));
        if at(s, p, 45) {
            Some(-m)
        } else {
            Some(m as int)
        }
    } else {
        None
    }
}

/// What may follow a literal: `)` directly, or `*` and a unit text that a
/// later `)` closes.
pub open spec fn tail_ok(s: Seq<u8>, e: int) -> bool {
    at(s, e, 41) || (at(s, e, 42) && exists|j: int| e < j < s.len() && s[j] == 41)
}

/// The register value that `line` gives for identifier `id`: the line starts
/// with `id`, then `(`, a literal, an optional `*unit`, and `)`.
pub open spec fn extract_spec(line: Seq<u8>, id: Seq<u8>) -> Option<int> {
    let p = id.len() as int + 1;
    if line.len() > id.len() && line.subrange(0, id.len() as int) == id && line[id.len() as int]
        == 40 {
        match literal_nanos(line, p) {
            Some(v) => if tail_ok(line, literal_end(line, p)) {
                Some(v)
            } else {
                None
            },
            None => None,
        }
    } else {
        None
    }
}


proof fn lemma_pow10_19()
    ensures
        pow10(19) > i64::MAX,
{
    reveal_with_fuel(pow10, 20);
}

/// The digits `s[a..b]` followed by `s[c..e]`.
fn collect_digits(s: &[u8], a: usize, b: usize, c: usize, e: usize) -> (r: Vec<u8>)
    requires
        a <= b <= s@.len(),
        c <= e <= s@.len(),
    ensures
        r@ == s@.subrange(a as int, b as int) + s@.subrange(c as int, e as int),
{
    let mut r: Vec<u8> = Vec::new();
    let mut j: usize = a;
    while j < b
        invariant
            a <= j <= b <= s@.len(),
            r@ == s@.subrange(a as int, j as int),
        decreases b - j,
    {
        r.push(s[j]);
        j = j + 1;
        assert(r@ =~= s@.subrange(a as int, j as int));
    }
    let mut j: usize = c;
    while j < e
        invariant
            a <= b <= s@.len(),
            c <= j <= e <= s@.len(),
            r@ == s@.subrange(a as int, b as int) + s@.subrange(c as int, j as int),
        decreases e - j,
    {
        r.push(s[j]);
        j = j + 1;
        assert(r@ =~= s@.subrange(a as int, b as int) + s@.subrange(c as int, j as int));
    }
    r
}

/// The value of the first `n` digits of `d`, or `DIGITS_CAP` if it is larger.
fn capped_value(d: &Vec<u8>, n: usize) -> (r: u64)
    requires
        n <= d@.len(),
        forall|i: int| 0 <= i < d@.len() ==> is_digit(#[trigger] d@[i]),
    ensures
        r == if digits_value(d@.subrange(0, n as int)) < DIGITS_CAP {
            digits_value(d@.subrange(0, n as int))
        } else {
            DIGITS_CAP as nat
        },
{
    let mut acc: u64 = 0;
    let mut j: usize = 0;
    proof {
        assert(d@.subrange(0, 0) =~= Seq::<u8>::empty());
    }
    while j < n
        invariant
            j <= n <= d@.len(),
            forall|i: int| 0 <= i < d@.len() ==> is_digit(#[trigger] d@[i]),
            acc == if digits_value(d@.subrange(0, j as int)) < DIGITS_CAP {
                digits_value(d@.subrange(0, j as int))
            } else {
                DIGITS_CAP as nat
            },
        decreases n - j,
    {
        proof {
            assert(d@.subrange(0, j + 1).drop_last() =~= d@.subrange(0, j as int));
            assert(d@.subrange(0, j + 1).last() == d@[j as int]);
            assert(is_digit(d@[j as int]));
        }
        if acc < DIGITS_CAP {
            let grown: u128 = (acc as u128) * 10 + (d[j] - 48) as u128;
            acc = if grown < DIGITS_CAP as u128 {
                grown as u64
            } else {
                DIGITS_CAP
            };
        }
        j = j + 1;
    }
    acc
}

/// Saturating a product is unchanged by first capping a factor above the
/// saturation bound.
proof fn lemma_saturate_capped(v: nat, p: nat)
    requires
        p >= 1,
    ensures
        saturate((if v < DIGITS_CAP { v } else { DIGITS_CAP as nat }) * p) == saturate(v * p),
{
    if v >= DIGITS_CAP {
        assert(v * p >= v) by (nonlinear_arith)
            requires
                p >= 1,
        ;
        assert(DIGITS_CAP * p >= DIGITS_CAP) by (nonlinear_arith)
            requires
                p >= 1,
        ;
    }
}

/// The digits `d` scaled by ten to the power `k`, rounded and saturated.
fn scaled_exec(d: &Vec<u8>, k: i128) -> (r: u64)
    requires
        k > i128::MIN,
        forall|i: int| 0 <= i < d@.len() ==> is_digit(#[trigger] d@[i]),
    ensures
        r == scaled_magnitude(d@, k as int),
{
    let n = d.len();
    proof {
        lemma_pow10_18();
        assert(d@.subrange(0, n as int) =~= d@);
    }
    if k >= 0 {
        let whole = capped_value(d, n);
        if whole == 0 {
            assert(0 * pow10(k as nat) == 0);
            return 0;
        }
        if k > 18 {
            proof {
                lemma_pow10_monotone(19, k as nat);
                lemma_pow10_19();
                let dv = digits_value(d@) as int;
                let pw = pow10(k as nat) as int;
                assert(dv * pw >= pw) by (nonlinear_arith)
                    requires
                        dv >= 1,
                        pw >= 0,
                ;
            }
            return 9223372036854775807;
        }
        let pw = pow10_u64(k as usize);
        proof {
            lemma_pow10_positive(k as nat);
            lemma_pow10_monotone(k as nat, 18);
            lemma_saturate_capped(digits_value(d@), pow10(k as nat));
            let w = whole as int;
            let pi = pw as int;
            assert(w * pi <= DIGITS_CAP * 1_000_000_000_000_000_000) by (nonlinear_arith)
                requires
                    0 <= w <= DIGITS_CAP,
                    0 <= pi <= 1_000_000_000_000_000_000,
            ;
        }
        let product: u128 = (whole as u128) * (pw as u128);
        if product > 9223372036854775807u128 {
            9223372036854775807
        } else {
            product as u64
        }
    } else {
        let m: i128 = -k;
        if m > n as i128 {
            return 0;
        }
        let h: usize = n - (m as usize);
        let before = capped_value(d, h);
        let up: u64 = if d[h] >= 53 {
            1
        } else {
            0
        };
        proof {
            lemma_saturate_capped(digits_value(d@.subrange(0, h as int)), 1);
            if before == DIGITS_CAP {
                assert(digits_value(d@.subrange(0, h as int)) + up >= DIGITS_CAP);
            }
        }
        let total = before + up;
        if total > 9223372036854775807u64 {
            9223372036854775807
        } else {
            total
        }
    }
}

/// The value of the digits `s[a..b]`, or `EXPONENT_CAP` if it is larger.
fn read_capped(s: &[u8], a: usize, b: usize) -> (r: u128)
    requires
        a <= b <= s@.len(),
        forall|i: int| a <= i < b ==> is_digit(#[trigger] s@[i]),
    ensures
        r == if digits_value(s@.subrange(a as int, b as int)) < EXPONENT_CAP {
            digits_value(s@.subrange(a as int, b as int))
        } else {
            EXPONENT_CAP as nat
        },
{
    let mut acc: u128 = 0;
    let mut j: usize = a;
    proof {
        assert(s@.subrange(a as int, a as int) =~= Seq::<u8>::empty());
    }
    while j < b
        invariant
            a <= j <= b <= s@.len(),
            forall|i: int| a <= i < b ==> is_digit(#[trigger] s@[i]),
            acc == if digits_value(s@.subrange(a as int, j as int)) < EXPONENT_CAP {
                digits_value(s@.subrange(a as int, j as int))
            } else {
                EXPONENT_CAP as nat
            },
        decreases b - j,
    {
        let ghost prev = s@.subrange(a as int, j as int);
        let ghost next = s@.subrange(a as int, j + 1);
        proof {
            assert(next.drop_last() =~= prev);
            assert(next.last() == s@[j as int]);
        }
        if acc < EXPONENT_CAP {
            let grown = acc * 10 + (s[j] - 48) as u128;
            acc = if grown < EXPONENT_CAP {
                grown
            } else {
                EXPONENT_CAP
            };
        }
        j = j + 1;
    }
    acc
}

/// Reads the optional exponent that may start at `q`: whether it is
/// negative, its magnitude capped at `EXPONENT_CAP`, and the position just
/// past it.
fn read_exponent(s: &[u8], p: usize, q: usize) -> (r: Option<(bool, u128, usize)>)
    requires
        q == mantissa_end(s@, p as int),
        q <= s@.len(),
    ensures
        match r {
            Some((neg, v, e)) => (has_exp(s@, p as int) ==> exp_len(s@, p as int) > 0) && v
                <= EXPONENT_CAP && e == literal_end(s@, p as int) && (v < EXPONENT_CAP
                ==> exponent(s@, p as int) == (if neg {
                -(v as int)
            } else {
                v as int
            })) && (v == EXPONENT_CAP ==> if neg {
                exponent(s@, p as int) <= -(EXPONENT_CAP as int)
            } else {
                exponent(s@, p as int) >= EXPONENT_CAP
            }),
            None => has_exp(s@, p as int) && exp_len(s@, p as int) == 0,
        },
{
    let ghost g = s@;
    let ghost pp = p as int;
    let len = s.len();
    if !(q < len && (s[q] == 101 || s[q] == 69)) {
        return Some((false, 0, q));
    }
    let mut d = q + 1;
    let mut neg = false;
    if d < len && (s[d] == 43 || s[d] == 45) {
        neg = s[d] == 45;
        d = d + 1;
    }
    assert(d == exp_start(g, pp));
    let end = skip_digits(s, d);
    proof {
        lemma_digit_run_bound(g, d as int);
    }
    if end == d {
        return None;
    }
    let v = read_capped(s, d, end);
    Some((neg, v, end))
}

/// Far above zero, any power of ten takes a nonzero mantissa past the range.
proof fn lemma_scaled_far_up(d: Seq<u8>, k: int)
    requires
        k > 18,
    ensures
        scaled_magnitude(d, k) == if digits_value(d) == 0 {
            0
        } else {
            i64::MAX as nat
        },
{
    lemma_pow10_monotone(19, k as nat);
    lemma_pow10_19();
    let dv = digits_value(d) as int;
    let pw = pow10(k as nat) as int;
    assert(dv >= 1 ==> dv * pw >= pw) by (nonlinear_arith)
        requires
            pw >= 0,
    ;
    assert(0 * pw == 0);
}

/// Reads the literal that starts at `p`: its value in billionths and the
/// position just past it.
#[verifier::rlimit(40)]
fn read_literal(s: &[u8], p: usize) -> (r: Option<(i64, usize)>)
    requires
        p <= s@.len(),
    ensures
        match r {
            Some((v, e)) => literal_nanos(s@, p as int) == Some(v as int) && e == literal_end(
                s@,
                p as int,
            ),
            None => literal_nanos(s@, p as int) is None,
        },
{
    let ghost g = s@;
    let ghost pp = p as int;
    let len = s.len();
    let neg = p < len && s[p] == 45;
    let mut i = p;
    if p < len && (s[p] == 43 || s[p] == 45) {
        i = p + 1;
    }
    assert(i == int_start(g, pp));
    let dot = skip_digits(s, i);
    proof {
        lemma_digit_run_bound(g, i as int);
    }
    let has_dot_b = dot < len && s[dot] == 46;
    let mut frac_start = dot;
    let mut frac_end = dot;
    if has_dot_b {
        frac_start = dot + 1;
        frac_end = skip_digits(s, dot + 1);
        proof {
            lemma_digit_run_bound(g, dot + 1);
        }
    }
    assert(has_dot_b == has_dot(g, pp));
    assert(frac_end == mantissa_end(g, pp));
    let int_digits = dot - i;
    let frac_digits = frac_end - frac_start;
    assert(frac_digits == frac_len(g, pp));
    if int_digits == 0 && frac_digits == 0 {
        return None;
    }
    let (exp_neg, exp_value, end) = match read_exponent(s, p, frac_end) {
        Some(x) => x,
        None => {
            return None;
        },
    };
    assert(literal_well_formed(g, pp));
    let digits = collect_digits(s, i, dot, frac_start, frac_end);
    proof {
        assert(digits@ == mantissa_digits(g, pp));
        assert forall|k: int| 0 <= k < digits@.len() implies is_digit(#[trigger] digits@[k]) by {
            if k < dot - i {
                assert(digits@[k] == g[i + k]);
            } else {
                assert(digits@[k] == g[frac_start + k - (dot - i)]);
            }
        }
    }
    let shift: i128 = if exp_neg {
        9 - (frac_digits as i128) - (exp_value as i128)
    } else {
        9 - (frac_digits as i128) + (exp_value as i128)
    };
    proof {
        if exp_value < EXPONENT_CAP {
            assert(shift == nano_shift(g, pp));
        } else if exp_neg {
            assert(digits@.len() + shift < 0);
            assert(digits@.len() + nano_shift(g, pp) < 0);
        } else {
            lemma_scaled_far_up(digits@, shift as int);
            lemma_scaled_far_up(digits@, nano_shift(g, pp));
        }
    }
    let magnitude = scaled_exec(&digits, shift);
    let v: i64 = if neg {
        -(magnitude as i64)
    } else {
        magnitude as i64
    };
    Some((v, end))
}

/// Whether `line` starts with `id` followed by `(`.
fn starts_with_tag(line: &[u8], id: &[u8]) -> (r: bool)
    ensures
        r == (line@.len() > id@.len() && line@.subrange(0, id@.len() as int) == id@
            && line@[id@.len() as int] == 40),
{
    if line.len() <= id.len() {
        return false;
    }
    let mut j: usize = 0;
    while j < id.len()
        invariant
            j <= id@.len() < line@.len(),
            line@.subrange(0, j as int) =~= id@.subrange(0, j as int),
        decreases id@.len() - j,
    {
        if line[j] != id[j] {
            assert(line@.subrange(0, id@.len() as int)[j as int] != id@[j as int]);
            return false;
        }
        j = j + 1;
    }
    assert(id@.subrange(0, j as int) =~= id@);
    line[id.len()] == 40
}

/// Whether `)` occurs in `s` after position `e`.
fn closes_after(s: &[u8], e: usize) -> (r: bool)
    ensures
        r == exists|j: int| e < j < s@.len() && s@[j] == 41,
{
    let mut j: usize = e;
    while j < s.len()
        invariant
            j >= e,
            forall|k: int| e < k <= j && k < s@.len() ==> s@[k] != 41,
        decreases s@.len() - j,
    {
        j = j + 1;
        if j < s.len() && s[j] == 41 {
            assert(e < j < s@.len() && s@[j as int] == 41);
            return true;
        }
    }
    false
}

/// The register value that the line bytes give for identifier `id`.
pub fn extract_bytes(line: &[u8], id: &[u8]) -> (r: Option<i64>)
    ensures
        match r {
            Some(v) => extract_spec(line@, id@) == Some(v as int),
            None => extract_spec(line@, id@) is None,
        },
{
    if !starts_with_tag(line, id) {
        return None;
    }
    let ll = line.len();
    let il = id.len();
    assert(il < ll);
    let (v, e) = match read_literal(line, il + 1) {
        Some(x) => x,
        None => {
            return None;
        },
    };
    let ghost le = literal_end(line@, id@.len() as int + 1);
    proof {
        lemma_literal_end_bound(line@, id@.len() as int + 1);
    }
    if e < line.len() && line[e] == 41 {
        return Some(v);
    }
    if e < line.len() && line[e] == 42 && closes_after(line, e) {
        return Some(v);
    }
    None
}

proof fn lemma_literal_end_bound(s: Seq<u8>, p: int)
    requires
        0 <= p <= s.len(),
    ensures
        literal_end(s, p) <= s.len(),
{
    lemma_digit_run_bound(s, int_start(s, p));
    if has_dot(s, p) {
        lemma_digit_run_bound(s, dot_pos(s, p) + 1);
    }
    if has_exp(s, p) {
        lemma_digit_run_bound(s, exp_start(s, p));
    }
}

/// The value that `line` gives for register identifier `id`, in billionths
/// of the register's unit: present when the line is `id`, `(`, a decimal
/// literal of any length, an optional `*unit`, and `)`, and absent otherwise.
/// The value is rounded to the nearest billionth, halves away from zero, and
/// saturates at `i64::MAX` billionths either way from zero.
pub fn extract(line: &str, id: &str) -> (r: Option<i64>)
    ensures
        match r {
            Some(v) => extract_spec(line.spec_bytes(), id.spec_bytes()) == Some(v as int),
            None => extract_spec(line.spec_bytes(), id.spec_bytes()) is None,
        },
{
    extract_bytes(line.as_bytes(), id.as_bytes())
}

/// `v` is exactly one decimal literal, well formed, within bounds and
/// representable.
pub open spec fn is_literal(v: Seq<u8>) -> bool {
    literal_nanos(v, 0) is Some && literal_end(v, 0) == v.len()
}

/// Whether `line` begins with `id`.
pub open spec fn starts_with(line: Seq<u8>, id: Seq<u8>) -> bool {
    line.len() >= id.len() && line.subrange(0, id.len() as int) == id
}

/// A line that does not begin with `id` gives no value for it.
pub proof fn lemma_other_prefix_absent(line: Seq<u8>, id: Seq<u8>)
    requires
        !starts_with(line, id),
    ensures
        extract_spec(line, id) is None,
{
}

proof fn lemma_digit_run_shift(s: Seq<u8>, v: Seq<u8>, off: int, i: int)
    requires
        0 <= off,
        off + v.len() < s.len(),
        s.subrange(off, off + v.len()) == v,
        !is_digit(s[off + v.len()]),
        0 <= i <= v.len(),
    ensures
        digit_run(s, off + i) == digit_run(v, i),
    decreases v.len() - i,
{
    if i < v.len() {
        assert(s[off + i] == s.subrange(off, off + v.len())[i]);
        lemma_digit_run_shift(s, v, off, i + 1);
    }
}

proof fn lemma_at_shift(s: Seq<u8>, v: Seq<u8>, off: int, i: int, b: u8)
    requires
        0 <= off,
        off + v.len() < s.len(),
        s.subrange(off, off + v.len()) == v,
        s[off + v.len()] != b,
        0 <= i <= v.len(),
    ensures
        at(s, off + i, b) == at(v, i, b),
{
    if i < v.len() {
        assert(s[off + i] == s.subrange(off, off + v.len())[i]);
    }
}

proof fn lemma_sub_shift(s: Seq<u8>, v: Seq<u8>, off: int, a: int, b: int)
    requires
        0 <= off,
        off + v.len() < s.len(),
        s.subrange(off, off + v.len()) == v,
        0 <= a <= b <= v.len(),
    ensures
        s.subrange(off + a, off + b) == v.subrange(a, b),
{
    assert forall|k: int| 0 <= k < b - a implies s.subrange(off + a, off + b)[k] == v.subrange(a, b)[k] by {
        assert(s[off + a + k] == s.subrange(off, off + v.len())[a + k]);
    }
    assert(s.subrange(off + a, off + b) =~= v.subrange(a, b));
}

proof fn lemma_literal_end_parts(s: Seq<u8>, p: int)
    ensures
        p <= int_start(s, p) <= dot_pos(s, p) <= mantissa_end(s, p) <= literal_end(s, p),
        has_dot(s, p) ==> dot_pos(s, p) < mantissa_end(s, p),
        has_exp(s, p) ==> mantissa_end(s, p) < exp_start(s, p) <= literal_end(s, p),
{
}

/// A literal followed by `)` or `*` reads as it reads alone.
proof fn lemma_literal_in_line(s: Seq<u8>, v: Seq<u8>, off: int)
    requires
        0 <= off,
        off + v.len() < s.len(),
        s.subrange(off, off + v.len()) == v,
        s[off + v.len()] == 41 || s[off + v.len()] == 42,
        literal_end(v, 0) == v.len(),
    ensures
        literal_nanos(s, off) == literal_nanos(v, 0),
        literal_end(s, off) == off + v.len(),
{
    lemma_literal_end_parts(v, 0);
    lemma_at_shift(s, v, off, 0, 43);
    lemma_at_shift(s, v, off, 0, 45);
    let is0 = int_start(v, 0);
    assert(int_start(s, off) == off + is0);
    lemma_digit_run_shift(s, v, off, is0);
    let d = dot_pos(v, 0);
    assert(dot_pos(s, off) == off + d);
    lemma_at_shift(s, v, off, d, 46);
    assert(has_dot(s, off) == has_dot(v, 0));
    if has_dot(v, 0) {
        lemma_digit_run_shift(s, v, off, d + 1);
    }
    assert(frac_len(s, off) == frac_len(v, 0));
    assert(frac_start(s, off) == off + frac_start(v, 0));
    let me = mantissa_end(v, 0);
    assert(mantissa_end(s, off) == off + me);
    lemma_at_shift(s, v, off, me, 101);
    lemma_at_shift(s, v, off, me, 69);
    assert(has_exp(s, off) == has_exp(v, 0));
    if has_exp(v, 0) {
        lemma_at_shift(s, v, off, me + 1, 43);
        lemma_at_shift(s, v, off, me + 1, 45);
        assert(exp_sign_len(s, off) == exp_sign_len(v, 0));
        lemma_digit_run_shift(s, v, off, exp_start(v, 0));
        assert(exp_len(s, off) == exp_len(v, 0));
        lemma_sub_shift(s, v, off, exp_start(v, 0), exp_start(v, 0) + exp_len(v, 0));
        assert(exponent(s, off) == exponent(v, 0));
    }
    assert(literal_end(s, off) == off + v.len());
    lemma_sub_shift(s, v, off, is0, d);
    lemma_sub_shift(s, v, off, frac_start(v, 0), frac_start(v, 0) + frac_len(v, 0));
    assert(mantissa_digits(s, off) == mantissa_digits(v, 0));
    assert(nano_shift(s, off) == nano_shift(v, 0));
}

/// For an identifier `id` and a literal `v`, the line `id(v*unit)` gives the
/// same value as `id(v)`, whatever the unit text, and that value is `v`'s.
pub proof fn lemma_unit_ignored(id: Seq<u8>, v: Seq<u8>, unit: Seq<u8>)
    requires
        is_literal(v),
    ensures
        extract_spec(id + seq![40u8] + v + seq![42u8] + unit + seq![41u8], id) == extract_spec(
            id + seq![40u8] + v + seq![41u8],
            id,
        ),
        extract_spec(id + seq![40u8] + v + seq![41u8], id) == literal_nanos(v, 0),
{
    let plain = id + seq![40u8] + v + seq![41u8];
    let with_unit = id + seq![40u8] + v + seq![42u8] + unit + seq![41u8];
    let off = id.len() as int + 1;
    assert(plain.subrange(0, id.len() as int) =~= id);
    assert(with_unit.subrange(0, id.len() as int) =~= id);
    assert(plain.subrange(off, off + v.len()) =~= v);
    assert(with_unit.subrange(off, off + v.len()) =~= v);
    assert(plain[id.len() as int] == 40);
    assert(with_unit[id.len() as int] == 40);
    assert(plain[off + v.len()] == 41);
    assert(with_unit[off + v.len()] == 42);
    lemma_literal_in_line(plain, v, off);
    lemma_literal_in_line(with_unit, v, off);
    let last = with_unit.len() - 1;
    assert(with_unit[last] == 41);
    assert(tail_ok(with_unit, off + v.len()));
    assert(tail_ok(plain, off + v.len()));
}

} // verus!
