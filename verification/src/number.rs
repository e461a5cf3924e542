//! Duration tokens: a decimal number with an optional unit suffix.
//!
//! A token has the form `<number><suffix>?`, where the suffix is one of
//! `s`, `m`, `h` or `d` (seconds, minutes, hours, days; seconds when it is
//! absent) and the number is an optionally signed decimal with an optional
//! fractional part and an optional power-of-ten exponent (`1.5e2`).  A
//! token's value is computed exactly, in fixed-point units of `1 / SCALE`
//! milliseconds, as long as it stays within `SCALED_CAP`; beyond that the
//! computation saturates.

use vstd::prelude::*;

verus! {

/// Fixed-point units per millisecond: scaled token values carry this many
/// extra units per millisecond, so up to `SCALE_DIGITS` fractional decimal
/// digits of a millisecond are represented exactly.
pub const SCALE: u128 = 1_000_000_000;

/// Half of `SCALE`, used to round half away from zero.
pub const SCALE_HALF: u128 = 500_000_000;

/// The number of decimal digits of `SCALE`.
pub const SCALE_DIGITS: usize = 9;

/// Saturation bound of the fixed-point computation.  It exceeds
/// `u64::MAX * SCALE`, so a total saturated above still rounds to
/// `u64::MAX` milliseconds, and one saturated below still clamps to zero.
pub const SCALED_CAP: u128 = 100_000_000_000_000_000_000_000_000_000;

/// Every mantissa whose scaled token value fits under `SCALED_CAP` lies
/// at or under this bound (`SCALED_CAP / (MS_PER_SECOND * 1)`), since the
/// multiplier is at least `MS_PER_SECOND`.
pub const MANTISSA_EXACT_BOUND: u128 = 100_000_000_000_000_000_000_000_000;

/// Clamp applied while accumulating mantissa digits.  It is far above
/// any mantissa whose scaled value fits under `SCALED_CAP`, so clamping
/// never disturbs an exactly representable token.
pub const MANTISSA_CLAMP: u128 = 1_000_000_000_000_000_000_000_000_000;

/// Clamp applied while accumulating exponent digits.  Any token whose
/// scaled value is exactly representable has an exponent far below this
/// bound, so clamping never disturbs such a token.
pub const EXP_CLAMP: u128 = 1_000_000_000_000_000_000_000_000_000_000;

/// Milliseconds per second, the multiplier of the `s` suffix and of a
/// token without a suffix.
pub const MS_PER_SECOND: u128 = 1_000;

/// Milliseconds per minute, the multiplier of the `m` suffix.
pub const MS_PER_MINUTE: u128 = 60_000;

/// Milliseconds per hour, the multiplier of the `h` suffix.
pub const MS_PER_HOUR: u128 = 3_600_000;

/// Milliseconds per day, the multiplier of the `d` suffix.
pub const MS_PER_DAY: u128 = 86_400_000;

pub open spec fn is_digit(c: char) -> bool {
    48 <= c as u32 && c as u32 <= 57
}

pub open spec fn digit_val(c: char) -> int {
    c as u32 - 48
}

pub open spec fn digit_or_dot(c: char) -> bool {
    is_digit(c) || c == '.'
}

/// The digits of `s` read as a decimal integer.
pub open spec fn digits_val(s: Seq<char>) -> int
    decreases s.len(),
{
    if s.len() == 0 {
        0
    } else {
        10 * digits_val(s.drop_last()) + digit_val(s.last())
    }
}

/// `s` with every `'.'` removed.
pub open spec fn strip_dots(s: Seq<char>) -> Seq<char>
    decreases s.len(),
{
    if s.len() == 0 {
        Seq::<char>::empty()
    } else if s.last() == '.' {
        strip_dots(s.drop_last())
    } else {
        strip_dots(s.drop_last()).push(s.last())
    }
}

pub open spec fn has_dot(s: Seq<char>) -> bool {
    exists|i: int| 0 <= i < s.len() && s[i] == '.'
}

/// The number of characters after the last `'.'` of `s`; 0 without a dot.
pub open spec fn frac_len(s: Seq<char>) -> int
    decreases s.len(),
{
    if s.len() == 0 {
        0
    } else if s.last() == '.' {
        0
    } else if has_dot(s.drop_last()) {
        1 + frac_len(s.drop_last())
    } else {
        0
    }
}

/// An unsigned decimal body: only digits and at most one dot, with at
/// least one digit.
pub open spec fn valid_body(b: Seq<char>) -> bool {
    &&& forall|i: int| 0 <= i < b.len() ==> digit_or_dot(#[trigger] b[i])
    &&& forall|i: int, j: int|
        0 <= i < j < b.len() ==> !(#[trigger] b[i] == '.' && #[trigger] b[j] == '.')
    &&& exists|i: int| 0 <= i < b.len() && is_digit(#[trigger] b[i])
}

/// Length of the sign prefix of a signed decimal: one for `+` or `-`.
pub open spec fn sign_len(p: Seq<char>) -> int {
    if p.len() > 0 && (p[0] == '+' || p[0] == '-') {
        1
    } else {
        0
    }
}

pub open spec fn is_negative(p: Seq<char>) -> bool {
    p.len() > 0 && p[0] == '-'
}

/// The body of a signed decimal: everything after the sign, if any.
pub open spec fn body_of(p: Seq<char>) -> Seq<char> {
    p.skip(sign_len(p))
}

pub open spec fn is_exp_marker(c: char) -> bool {
    c == 'e' || c == 'E'
}

/// The index of the first exponent marker of `b`, or `b.len()` without one.
pub open spec fn exp_idx(b: Seq<char>) -> int
    decreases b.len(),
{
    if b.len() == 0 {
        0
    } else if is_exp_marker(b[0]) {
        0
    } else {
        1 + exp_idx(b.skip(1))
    }
}

pub open spec fn has_exp(b: Seq<char>) -> bool {
    exp_idx(b) < b.len()
}

/// The significand of a number body: everything before the exponent marker.
pub open spec fn sig_of(b: Seq<char>) -> Seq<char> {
    b.take(exp_idx(b))
}

/// The exponent field of a number body: everything after the marker;
/// empty without one.
pub open spec fn exp_field_of(b: Seq<char>) -> Seq<char> {
    if has_exp(b) {
        b.skip(exp_idx(b) + 1)
    } else {
        Seq::<char>::empty()
    }
}

/// A valid exponent field: an optional sign, then at least one digit.
pub open spec fn valid_exp_field(p: Seq<char>) -> bool {
    &&& body_of(p).len() > 0
    &&& forall|i: int| 0 <= i < body_of(p).len() ==> is_digit(#[trigger] body_of(p)[i])
}

pub open spec fn exp_field_val(p: Seq<char>) -> int {
    if is_negative(p) {
        -digits_val(body_of(p))
    } else {
        digits_val(body_of(p))
    }
}

/// A valid number body: a decimal significand, optionally followed by an
/// exponent marker and a valid exponent field.
pub open spec fn valid_number(b: Seq<char>) -> bool {
    valid_body(sig_of(b)) && (has_exp(b) ==> valid_exp_field(exp_field_of(b)))
}

pub open spec fn has_unit_suffix(t: Seq<char>) -> bool {
    t.len() > 0 && (t.last() == 's' || t.last() == 'm' || t.last() == 'h' || t.last() == 'd')
}

/// The milliseconds-per-unit factor selected by the token's suffix.
pub open spec fn spec_multiplier(t: Seq<char>) -> int {
    if t.len() > 0 && t.last() == 'm' {
        MS_PER_MINUTE as int
    } else if t.len() > 0 && t.last() == 'h' {
        MS_PER_HOUR as int
    } else if t.len() > 0 && t.last() == 'd' {
        MS_PER_DAY as int
    } else {
        MS_PER_SECOND as int
    }
}

/// The token without its unit suffix: the signed decimal part.
pub open spec fn numeric_part(t: Seq<char>) -> Seq<char> {
    if has_unit_suffix(t) {
        t.drop_last()
    } else {
        t
    }
}

/// The body of the token's number: the numeric part without its sign.
pub open spec fn token_body(t: Seq<char>) -> Seq<char> {
    body_of(numeric_part(t))
}

/// The significand of the token's number.
pub open spec fn token_sig(t: Seq<char>) -> Seq<char> {
    sig_of(token_body(t))
}

/// A token is valid when its numeric part is a signed decimal with an
/// optional exponent.
pub open spec fn token_valid(t: Seq<char>) -> bool {
    valid_number(token_body(t))
}

pub open spec fn pow10(n: nat) -> int
    decreases n,
{
    if n == 0 {
        1
    } else {
        10 * pow10((n - 1) as nat)
    }
}

/// The token's mantissa: the significand's digits, dot removed, read as
/// an integer.
pub open spec fn token_mantissa(t: Seq<char>) -> int {
    digits_val(strip_dots(token_sig(t)))
}

/// The number of fractional digits of the token's significand.
pub open spec fn token_frac(t: Seq<char>) -> int {
    frac_len(token_sig(t))
}

/// The token's exponent; zero without an exponent field.
pub open spec fn token_exp(t: Seq<char>) -> int {
    if has_exp(token_body(t)) {
        exp_field_val(exp_field_of(token_body(t)))
    } else {
        0
    }
}

/// The net power of ten the mantissa is scaled by: the token's value is
/// `mantissa * 10^(exp - frac)` units, so its value in milliseconds times
/// `SCALE` is `mantissa * multiplier * 10^token_shift`.
pub open spec fn token_shift(t: Seq<char>) -> int {
    SCALE_DIGITS - token_frac(t) + token_exp(t)
}

/// The magnitude of the token's value in `1 / SCALE` milliseconds.
/// Meaningful when `token_shift(t) >= 0`; the exponent of the power is
/// guarded so that the function is total.
pub open spec fn token_magnitude_scaled(t: Seq<char>) -> int {
    token_mantissa(t) * spec_multiplier(t) * pow10(
        if token_shift(t) >= 0 {
            token_shift(t) as nat
        } else {
            0
        },
    )
}

/// The token's signed value in `1 / SCALE` milliseconds.
pub open spec fn token_scaled(t: Seq<char>) -> int {
    if is_negative(numeric_part(t)) {
        -token_magnitude_scaled(t)
    } else {
        token_magnitude_scaled(t)
    }
}

/// A valid token whose scaled value is exactly representable: a
/// nonnegative net shift and a magnitude within `SCALED_CAP`.
pub open spec fn token_tame(t: Seq<char>) -> bool {
    &&& token_valid(t)
    &&& token_shift(t) >= 0
    &&& token_magnitude_scaled(t) <= SCALED_CAP as int
}

proof fn lemma_pow10_pos(n: nat)
    ensures
        1 <= pow10(n),
    decreases n,
{
    if n > 0 {
        lemma_pow10_pos((n - 1) as nat);
    }
}

proof fn lemma_pow10_mono(a: nat, b: nat)
    requires
        a <= b,
    ensures
        pow10(a) <= pow10(b),
    decreases b,
{
    if a < b {
        lemma_pow10_mono(a, (b - 1) as nat);
        lemma_pow10_pos((b - 1) as nat);
    }
}

/// On a digit-or-dot sequence, the stripped digits read as a nonnegative
/// integer, and that value only grows as the sequence is extended.
proof fn lemma_strip_dots_val(s: Seq<char>)
    requires
        forall|i: int| 0 <= i < s.len() ==> digit_or_dot(#[trigger] s[i]),
    ensures
        0 <= digits_val(strip_dots(s)),
        s.len() > 0 ==> digits_val(strip_dots(s.drop_last())) <= digits_val(strip_dots(s)),
    decreases s.len(),
{
    if s.len() > 0 {
        assert(forall|i: int|
            0 <= i < s.drop_last().len() ==> digit_or_dot(#[trigger] s.drop_last()[i]));
        lemma_strip_dots_val(s.drop_last());
        if s.last() != '.' {
            let st = strip_dots(s.drop_last()).push(s.last());
            assert(st.drop_last() =~= strip_dots(s.drop_last()));
            assert(digit_or_dot(s[s.len() - 1]));
            assert(0 <= digit_val(s.last()) <= 9);
        }
    }
}

proof fn lemma_has_dot_push(s: Seq<char>, c: char)
    ensures
        has_dot(s.push(c)) == (has_dot(s) || c == '.'),
{
    if has_dot(s.push(c)) {
        let i = choose|i: int| 0 <= i < s.push(c).len() && s.push(c)[i] == '.';
        if i < s.len() {
            assert(s[i] == '.');
        } else {
            assert(c == '.');
        }
    }
    if has_dot(s) {
        let i = choose|i: int| 0 <= i < s.len() && s[i] == '.';
        assert(s.push(c)[i] == '.');
    }
    if c == '.' {
        assert(s.push(c)[s.len() as int] == '.');
    }
}

proof fn lemma_exp_idx(b: Seq<char>)
    ensures
        0 <= exp_idx(b) <= b.len(),
        forall|j: int| 0 <= j < exp_idx(b) ==> !is_exp_marker(#[trigger] b[j]),
        exp_idx(b) < b.len() ==> is_exp_marker(b[exp_idx(b)]),
    decreases b.len(),
{
    if b.len() > 0 && !is_exp_marker(b[0]) {
        lemma_exp_idx(b.skip(1));
        assert forall|j: int| 0 <= j < exp_idx(b) implies !is_exp_marker(#[trigger] b[j]) by {
            if j > 0 {
                assert(b.skip(1)[j - 1] == b[j]);
            }
        }
        if exp_idx(b) < b.len() {
            assert(b.skip(1)[exp_idx(b.skip(1))] == b[exp_idx(b)]);
        }
    }
}

/// On an all-digit sequence the value read is a nonnegative integer that
/// only grows as the sequence is extended.
proof fn lemma_digits_val_digits(s: Seq<char>)
    requires
        forall|i: int| 0 <= i < s.len() ==> is_digit(#[trigger] s[i]),
    ensures
        0 <= digits_val(s),
        s.len() > 0 ==> digits_val(s.drop_last()) <= digits_val(s),
    decreases s.len(),
{
    if s.len() > 0 {
        assert(forall|i: int|
            0 <= i < s.drop_last().len() ==> is_digit(#[trigger] s.drop_last()[i]));
        lemma_digits_val_digits(s.drop_last());
        assert(0 <= digit_val(s.last()) <= 9);
    }
}

proof fn lemma_pow10_27()
    ensures
        pow10(27) == 1_000_000_000_000_000_000_000_000_000,
{
    reveal_with_fuel(pow10, 28);
}

/// Scan the characters of `t` between `start` and `end` as a plain digit
/// run.  Succeeds exactly when the run is nonempty and all digits, and
/// returns its value, clamped once it passes `EXP_CLAMP`.
#[verifier::rlimit(50)]
fn scan_digits(t: &str, start: usize, end: usize) -> (r: Option<u128>)
    requires
        start <= end <= t@.len(),
    ensures
        r is Some <==> ({
            let dd = t@.subrange(start as int, end as int);
            dd.len() > 0 && forall|i: int| 0 <= i < dd.len() ==> is_digit(#[trigger] dd[i])
        }),
        r matches Some(v) ==> {
            let dd = t@.subrange(start as int, end as int);
            &&& v <= 10 * EXP_CLAMP + 9
            &&& (digits_val(dd) <= EXP_CLAMP as int ==> v as int == digits_val(dd))
        },
{
    let ghost dd = t@.subrange(start as int, end as int);
    if start == end {
        return None;
    }
    let mut i: usize = start;
    let mut acc: u128 = 0;
    while i < end
        invariant
            start <= i <= end <= t@.len(),
            dd == t@.subrange(start as int, end as int),
            dd.len() == end - start,
            forall|k: int| 0 <= k < i - start ==> is_digit(#[trigger] dd[k]),
            acc <= 10 * EXP_CLAMP + 9,
            digits_val(dd.take(i - start)) <= EXP_CLAMP as int ==> acc as int == digits_val(
                dd.take(i - start),
            ),
        decreases end - i,
    {
        let c = t.get_char(i);
        let ghost pre = dd.take(i - start);
        let ghost cur = dd.take(i + 1 - start);
        proof {
            assert(c == dd[i - start]);
            assert(cur =~= pre.push(c));
            assert(cur.drop_last() =~= pre);
        }
        let cu = c as u32;
        if 48 <= cu && cu <= 57 {
            let d = (cu - 48) as u128;
            proof {
                assert(forall|k: int| 0 <= k < cur.len() ==> is_digit(#[trigger] cur[k]));
                lemma_digits_val_digits(cur);
                assert(digits_val(cur) == 10 * digits_val(pre) + digit_val(c));
            }
            if acc > EXP_CLAMP {
                acc = EXP_CLAMP;
            } else {
                acc = acc * 10 + d;
            }
        } else {
            proof {
                assert(!is_digit(dd[i - start]));
            }
            return None;
        }
        i = i + 1;
    }
    proof {
        assert(dd.take(end - start) =~= dd);
    }
    Some(acc)
}

/// Scan the characters of `t` between `start` and `end` as an unsigned
/// decimal body.  Succeeds exactly when the body is valid, and then
/// returns the accumulated mantissa (clamped above `MANTISSA_CLAMP`) and
/// the number of fractional digits.
#[verifier::rlimit(50)]
fn scan_decimal(t: &str, start: usize, end: usize) -> (r: Option<(u128, usize)>)
    requires
        start <= end <= t@.len(),
    ensures
        r is Some <==> valid_body(t@.subrange(start as int, end as int)),
        r matches Some(af) ==> {
            let bb = t@.subrange(start as int, end as int);
            &&& af.0 <= 10 * MANTISSA_CLAMP + 9
            &&& af.1 as int == frac_len(bb)
            &&& (digits_val(strip_dots(bb)) <= MANTISSA_EXACT_BOUND ==> af.0
                as int == digits_val(strip_dots(bb)))
        },
{
    let ghost b = t@.subrange(start as int, end as int);
    let mut i: usize = start;
    let mut acc: u128 = 0;
    let mut f: usize = 0;
    let mut seen_dot = false;
    let mut seen_digit = false;
    while i < end
        invariant
            start <= i <= end <= t@.len(),
            b == t@.subrange(start as int, end as int),
            b.len() == end - start,
            seen_dot == has_dot(b.take(i - start)),
            seen_digit == exists|k: int| 0 <= k < i - start && is_digit(#[trigger] b[k]),
            forall|k: int| 0 <= k < i - start ==> digit_or_dot(#[trigger] b[k]),
            forall|k: int, l: int|
                0 <= k < l < i - start ==> !(#[trigger] b[k] == '.' && #[trigger] b[l] == '.'),
            acc <= 10 * MANTISSA_CLAMP + 9,
            digits_val(strip_dots(b.take(i - start))) <= MANTISSA_EXACT_BOUND
                ==> acc as int == digits_val(strip_dots(b.take(i - start))),
            f as int == frac_len(b.take(i - start)),
            f <= i - start,
        decreases end - i,
    {
        let c = t.get_char(i);
        let ghost pre = b.take(i - start);
        let ghost cur = b.take(i + 1 - start);
        proof {
            assert(c == b[i - start]);
            assert(cur =~= pre.push(c));
            assert(cur.drop_last() =~= pre);
            lemma_has_dot_push(pre, c);
        }
        let cu = c as u32;
        if 48 <= cu && cu <= 57 {
            let d = (cu - 48) as u128;
            proof {
                assert(c != '.');
                assert(strip_dots(cur) == strip_dots(pre).push(c));
                assert(strip_dots(pre).push(c).drop_last() =~= strip_dots(pre));
                assert(digits_val(strip_dots(cur)) == 10 * digits_val(strip_dots(pre)) + digit_val(
                    c,
                ));
                assert(forall|k: int| 0 <= k < pre.len() ==> digit_or_dot(#[trigger] pre[k]));
                lemma_strip_dots_val(pre);
                assert forall|k: int, l: int|
                    0 <= k < l < i + 1 - start implies !(#[trigger] b[k] == '.' && #[trigger] b[l]
                    == '.') by {
                    if l == i - start {
                        assert(b[l] == c);
                    }
                }
            }
            if acc > MANTISSA_CLAMP {
                acc = MANTISSA_CLAMP;
            } else {
                acc = acc * 10 + d;
            }
            if seen_dot {
                f = f + 1;
            }
            seen_digit = true;
        } else if c == '.' {
            if seen_dot {
                // A second dot: the body cannot be a decimal.
                proof {
                    let k = choose|k: int| 0 <= k < pre.len() && #[trigger] pre[k] == '.';
                    assert(b[k] == '.' && b[i - start] == '.');
                    assert(!valid_body(b));
                }
                return None;
            }
            seen_dot = true;
            proof {
                assert(strip_dots(cur) == strip_dots(pre));
                assert(frac_len(cur) == 0);
                assert(!has_dot(pre));
                assert(frac_len(pre) == 0);
                assert forall|k: int, l: int|
                    0 <= k < l < i + 1 - start implies !(#[trigger] b[k] == '.' && #[trigger] b[l]
                    == '.') by {
                    if l == i - start && b[k] == '.' {
                        assert(pre[k] == '.');
                        assert(has_dot(pre));
                    }
                }
            }
        } else {
            // Not a digit and not a dot: the body cannot be a decimal.
            proof {
                assert(!digit_or_dot(b[i - start]));
                assert(!valid_body(b));
            }
            return None;
        }
        i = i + 1;
    }
    proof {
        assert(b.take(end - start) =~= b);
    }
    if !seen_digit {
        // No digit at all (this includes an empty body).
        return None;
    }
    proof {
        assert(valid_body(b));
    }
    Some((acc, f))
}

/// Position of the exponent marker within the body between `start` and
/// `end`; `end` when there is none.
fn find_exp_marker(t: &str, start: usize, end: usize) -> (epos: usize)
    requires
        start <= end <= t@.len(),
    ensures
        start <= epos <= end,
        epos - start == exp_idx(t@.subrange(start as int, end as int)),
{
    let ghost b = t@.subrange(start as int, end as int);
    let mut epos: usize = start;
    while epos < end && t.get_char(epos) != 'e' && t.get_char(epos) != 'E'
        invariant
            start <= epos <= end <= t@.len(),
            b == t@.subrange(start as int, end as int),
            b.len() == end - start,
            forall|j: int| 0 <= j < epos - start ==> !is_exp_marker(#[trigger] b[j]),
        decreases end - epos,
    {
        epos = epos + 1;
    }
    proof {
        lemma_exp_idx(b);
        if epos < end {
            assert(is_exp_marker(b[epos - start]));
        }
        assert(exp_idx(b) == epos - start) by {
            if exp_idx(b) < epos - start {
                assert(is_exp_marker(b[exp_idx(b)]));
            }
        }
    }
    epos
}

/// Scan the exponent field between `from` and `end`: an optional sign and
/// a digit run.  Succeeds exactly on a valid field and returns the sign
/// and the digits' value, clamped once it passes `EXP_CLAMP`.
fn scan_exp_field(t: &str, from: usize, end: usize) -> (r: Option<(u128, bool)>)
    requires
        from <= end <= t@.len(),
    ensures
        r is Some <==> valid_exp_field(t@.subrange(from as int, end as int)),
        r matches Some(ve) ==> {
            let p = t@.subrange(from as int, end as int);
            &&& ve.1 == is_negative(p)
            &&& ve.0 <= 10 * EXP_CLAMP + 9
            &&& (digits_val(body_of(p)) <= EXP_CLAMP as int ==> ve.0 as int == digits_val(
                body_of(p),
            ))
        },
{
    let ghost p = t@.subrange(from as int, end as int);
    let (dstart, en): (usize, bool) = if from < end {
        let c0 = t.get_char(from);
        if c0 == '-' {
            (from + 1, true)
        } else if c0 == '+' {
            (from + 1, false)
        } else {
            (from, false)
        }
    } else {
        (from, false)
    };
    proof {
        assert(dstart - from == sign_len(p));
        assert(en == is_negative(p));
        assert(body_of(p) =~= t@.subrange(dstart as int, end as int));
    }
    match scan_digits(t, dstart, end) {
        Some(ev) => Some((ev, en)),
        None => None,
    }
}

/// Multiply `m0` by `10^shift`, saturating at `SCALED_CAP`.
fn scale_up(m0: u128, shift: i128) -> (res: u128)
    requires
        m0 <= SCALED_CAP,
        shift >= 0,
    ensures
        res <= SCALED_CAP,
        m0 as int * pow10(shift as nat) <= SCALED_CAP as int ==> res as int == m0 as int * pow10(
            shift as nat,
        ),
        m0 == 0 ==> res == 0,
{
    let mut v: u128 = m0;
    let mut s: i128 = shift;
    while s > 0 && v > 0 && v < SCALED_CAP
        invariant
            0 <= s,
            shift >= 0,
            v <= 10 * SCALED_CAP,
            v as int * pow10(s as nat) == m0 as int * pow10(shift as nat),
            m0 == 0 ==> v == 0,
        decreases s,
    {
        proof {
            assert(pow10(s as nat) == 10 * pow10((s - 1) as nat));
            assert((v * 10) as int * pow10((s - 1) as nat) == v as int * pow10(s as nat))
                by (nonlinear_arith)
                requires
                    pow10(s as nat) == 10 * pow10((s - 1) as nat),
            ;
        }
        v = v * 10;
        s = s - 1;
    }
    let res: u128 = if v > SCALED_CAP {
        SCALED_CAP
    } else {
        v
    };
    proof {
        lemma_pow10_pos(s as nat);
        lemma_pow10_pos(shift as nat);
        if m0 as int * pow10(shift as nat) <= SCALED_CAP as int {
            if v == 0 {
                assert(m0 as int * pow10(shift as nat) == 0);
            } else if s > 0 {
                assert(pow10(s as nat) == 10 * pow10((s - 1) as nat));
                lemma_pow10_pos((s - 1) as nat);
                assert(false) by (nonlinear_arith)
                    requires
                        v as int * pow10(s as nat) == m0 as int * pow10(shift as nat),
                        m0 as int * pow10(shift as nat) <= SCALED_CAP as int,
                        v >= SCALED_CAP,
                        SCALED_CAP >= 1,
                        pow10(s as nat) == 10 * pow10((s - 1) as nat),
                        pow10((s - 1) as nat) >= 1,
                ;
            } else {
                assert(v as int == m0 as int * pow10(shift as nat));
            }
        }
    }
    res
}

/// Divide `m0` by `10^k`, truncating; used on a negative net shift, where
/// the result is never exact enough to matter (the token is not tame).
fn scale_down(m0: u128, k: i128) -> (res: u128)
    requires
        m0 <= SCALED_CAP,
    ensures
        res <= SCALED_CAP,
        m0 == 0 ==> res == 0,
{
    let mut v: u128 = m0;
    let mut j: i128 = k;
    while j > 0 && v > 0
        invariant
            v <= SCALED_CAP,
            m0 == 0 ==> v == 0,
        decreases j,
    {
        v = v / 10;
        j = j - 1;
    }
    v
}

/// Parse one duration token.  Returns its scaled value: `None` exactly on
/// malformed tokens, the exact value `token_scaled` whenever the token is
/// tame, and a value saturated within `SCALED_CAP` otherwise.
#[verifier::rlimit(100)]
pub fn parse_token(t: &str) -> (r: Option<i128>)
    ensures
        r is Some <==> token_valid(t@),
        r matches Some(v) ==> -(SCALED_CAP as int) <= v <= SCALED_CAP as int,
        r matches Some(v) ==> (token_tame(t@) ==> v == token_scaled(t@)),
{
    let n = t.unicode_len();
    // Strip the unit suffix and pick the multiplier.
    let (end, mult): (usize, u128) = if n > 0 {
        let c = t.get_char(n - 1);
        if c == 's' {
            (n - 1, MS_PER_SECOND)
        } else if c == 'm' {
            (n - 1, MS_PER_MINUTE)
        } else if c == 'h' {
            (n - 1, MS_PER_HOUR)
        } else if c == 'd' {
            (n - 1, MS_PER_DAY)
        } else {
            (n, MS_PER_SECOND)
        }
    } else {
        (n, MS_PER_SECOND)
    };
    let ghost p = numeric_part(t@);
    proof {
        assert(p =~= t@.take(end as int));
        assert(mult == spec_multiplier(t@));
    }
    // Strip the sign.
    let (start, neg): (usize, bool) = if end > 0 {
        let c0 = t.get_char(0);
        if c0 == '-' {
            (1, true)
        } else if c0 == '+' {
            (1, false)
        } else {
            (0, false)
        }
    } else {
        (0, false)
    };
    let ghost b = body_of(p);
    proof {
        assert(start as int == sign_len(p));
        assert(neg == is_negative(p));
        assert(b =~= t@.subrange(start as int, end as int));
    }
    // Locate the exponent marker, if any.
    let epos = find_exp_marker(t, start, end);
    let has_e = epos < end;
    proof {
        assert(has_e == has_exp(b));
        assert(token_sig(t@) == sig_of(b));
        assert(sig_of(b) =~= t@.subrange(start as int, epos as int));
    }
    // Scan the significand: digits with at most one dot.
    let (acc, f): (u128, usize) = match scan_decimal(t, start, epos) {
        Some(af) => af,
        None => {
            proof {
                assert(!valid_body(sig_of(b)));
            }
            return None;
        },
    };
    // Scan the exponent field: an optional sign, then digits.
    let (eacc, eneg): (u128, bool) = if has_e {
        let ghost ef = exp_field_of(b);
        proof {
            assert(ef =~= t@.subrange((epos + 1) as int, end as int));
        }
        match scan_exp_field(t, epos + 1, end) {
            Some(ve) => ve,
            None => {
                proof {
                    assert(!valid_exp_field(ef));
                }
                return None;
            },
        }
    } else {
        (0, false)
    };
    proof {
        assert(token_valid(t@));
    }
    // The token is valid; combine mantissa, multiplier, exponent and
    // scale, keeping every intermediate at or under SCALED_CAP once it
    // crosses it.
    let ghost mant = token_mantissa(t@);
    let ghost mul = spec_multiplier(t@);
    let ghost tshift = token_shift(t@);
    let e: i128 = if eneg {
        -(eacc as i128)
    } else {
        eacc as i128
    };
    let shift: i128 = (SCALE_DIGITS as i128) - (f as i128) + e;
    let m1: u128 = {
        proof {
            assert(acc * mult <= (10 * MANTISSA_CLAMP + 9) * MS_PER_DAY) by (nonlinear_arith)
                requires
                    acc <= 10 * MANTISSA_CLAMP + 9,
                    mult <= MS_PER_DAY,
            ;
        }
        acc * mult
    };
    let m2: u128 = if m1 > SCALED_CAP {
        SCALED_CAP
    } else {
        m1
    };
    proof {
        if token_tame(t@) {
            let pw10 = pow10(tshift as nat);
            lemma_pow10_pos(tshift as nat);
            lemma_strip_dots_val(sig_of(b));
            assert(token_magnitude_scaled(t@) == mant * mul * pw10);
            assert(mant <= MANTISSA_EXACT_BOUND) by (nonlinear_arith)
                requires
                    mant * mul * pw10 <= SCALED_CAP as int,
                    mul >= 1000,
                    pw10 >= 1,
                    mant >= 0,
                    SCALED_CAP == 100_000_000_000_000_000_000_000_000_000u128,
                    MANTISSA_EXACT_BOUND == 100_000_000_000_000_000_000_000_000u128,
            ;
            assert(acc as int == mant);
            assert(f as int == token_frac(t@));
            assert(m1 as int == mant * mul);
            assert(m1 as int <= SCALED_CAP as int) by (nonlinear_arith)
                requires
                    m1 as int == mant * mul,
                    mant * mul * pw10 <= SCALED_CAP as int,
                    mant >= 0,
                    mul >= 1000,
                    pw10 >= 1,
            ;
            assert(m2 == m1);
            if mant >= 1 {
                // The shift is small, so the exponent digits were
                // accumulated exactly and the run-time shift is the
                // specified one.
                assert(pw10 <= MANTISSA_EXACT_BOUND as int) by (nonlinear_arith)
                    requires
                        mant * mul * pw10 <= SCALED_CAP as int,
                        mant >= 1,
                        mul >= 1000,
                        pw10 >= 1,
                        SCALED_CAP == 100_000_000_000_000_000_000_000_000_000u128,
                        MANTISSA_EXACT_BOUND == 100_000_000_000_000_000_000_000_000u128,
                ;
                assert(tshift <= 26) by {
                    if tshift >= 27 {
                        lemma_pow10_mono(27nat, tshift as nat);
                        lemma_pow10_27();
                    }
                }
                if has_e {
                    let dv = digits_val(body_of(exp_field_of(b)));
                    lemma_digits_val_digits(body_of(exp_field_of(b)));
                    if eneg {
                        assert(token_exp(t@) == -dv);
                        assert(dv <= SCALE_DIGITS as int);
                    } else {
                        assert(token_exp(t@) == dv);
                        assert(dv == tshift - SCALE_DIGITS + token_frac(t@));
                    }
                    assert(dv <= EXP_CLAMP as int);
                    assert(eacc as int == dv);
                    assert(e as int == token_exp(t@));
                } else {
                    assert(token_exp(t@) == 0);
                }
                assert(shift as int == tshift);
            }
        }
    }
    let mag: u128 = if shift >= 0 {
        scale_up(m2, shift)
    } else {
        scale_down(m2, -shift)
    };
    proof {
        if token_tame(t@) {
            if mant == 0 {
                assert(m2 == 0);
                assert(token_magnitude_scaled(t@) == 0);
            } else {
                assert(pow10(shift as nat) == pow10(tshift as nat));
                assert(m2 as int * pow10(shift as nat) == token_magnitude_scaled(t@));
            }
            assert(mag as int == token_magnitude_scaled(t@));
        }
    }
    let sv: i128 = mag as i128;
    if neg {
        Some(-sv)
    } else {
        Some(sv)
    }
}

} // verus!
