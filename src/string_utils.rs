//! Reading numbers typed into a text field.
use vstd::prelude::*;

use crate::arith::lemma_div_unique;
use crate::fixed::{Fixed, RAW_LIMIT};
use crate::utils::{lemma_pow10_monotone, lemma_pow10_positive, pow10};

verus! {

/// Largest exponent magnitude that reading keeps exactly; any larger one
/// already makes the value saturate or vanish.
pub const EXPONENT_CAP: i128 = 1_000_000_000_000_000_000_000_000_000_000;

/// Whether a character is white space in Unicode's sense.
pub open spec fn is_space(c: char) -> bool {
    c == ' ' || ('\t' <= c && c <= '\r') || c == '\u{85}' || c == '\u{a0}' || c == '\u{1680}' || (
    '\u{2000}' <= c && c <= '\u{200a}') || c == '\u{2028}' || c == '\u{2029}' || c == '\u{202f}'
        || c == '\u{205f}' || c == '\u{3000}'
}

/// The text without its leading white space.
pub open spec fn trim_start(s: Seq<char>) -> Seq<char>
    decreases s.len(),
{
    if s.len() > 0 && is_space(s[0]) {
        trim_start(s.drop_first())
    } else {
        s
    }
}

/// The text without its trailing white space.
pub open spec fn trim_end(s: Seq<char>) -> Seq<char>
    decreases s.len(),
{
    if s.len() > 0 && is_space(s.last()) {
        trim_end(s.drop_last())
    } else {
        s
    }
}

/// The text without white space at either end.
pub open spec fn trim(s: Seq<char>) -> Seq<char> {
    trim_end(trim_start(s))
}

pub open spec fn is_digit(c: char) -> bool {
    '0' <= c && c <= '9'
}

pub open spec fn all_digits(s: Seq<char>) -> bool {
    forall|i: int| 0 <= i < s.len() ==> is_digit(#[trigger] s[i])
}

/// The number that a run of decimal digits writes.
pub open spec fn digits_value(s: Seq<char>) -> int
    decreases s.len(),
{
    if s.len() == 0 {
        0
    } else {
        10 * digits_value(s.drop_last()) + (s.last() as int - '0' as int)
    }
}

/// Index of the first `a` or `b`, or the length where there is neither.
pub open spec fn first_of(s: Seq<char>, a: char, b: char) -> int
    decreases s.len(),
{
    if s.len() == 0 || s[0] == a || s[0] == b {
        0
    } else {
        1 + first_of(s.drop_first(), a, b)
    }
}

/// The number written by a non-empty run of digits.
pub open spec fn run_value(t: Seq<char>) -> Option<int> {
    if t.len() > 0 && all_digits(t) {
        Some(digits_value(t))
    } else {
        None
    }
}

/// The exponent after an `e`: an optional sign and at least one digit.
pub open spec fn exponent_value(t: Seq<char>) -> Option<int> {
    if t.len() > 0 && t[0] == '-' {
        match run_value(t.drop_first()) {
            Some(v) => Some(-v),
            None => None,
        }
    } else if t.len() > 0 && t[0] == '+' {
        run_value(t.drop_first())
    } else {
        run_value(t)
    }
}

/// The digits of a mantissa with its point removed, and how many of them
/// stand before the point: digits, optionally a point and more digits, with at
/// least one digit in all.
pub open spec fn mantissa_digits(m: Seq<char>) -> Option<(Seq<char>, int)> {
    let p = first_of(m, '.', '.');
    let whole = m.take(p);
    let frac = if p < m.len() {
        m.subrange(p + 1, m.len() as int)
    } else {
        Seq::<char>::empty()
    };
    if all_digits(whole) && all_digits(frac) && whole.len() + frac.len() > 0 {
        Some((whole + frac, p))
    } else {
        None
    }
}

/// The integer written by digits `d`, times `10^(s - |d|)`, rounded to the
/// nearest integer with halves rounded up: the millionths of a number whose
/// digits are `d` and whose point stands `s - 6` digits from the left.
pub open spec fn scaled(d: Seq<char>, s: int) -> int {
    let n = digits_value(d);
    let len = d.len() as int;
    if s >= len {
        n * pow10((s - len) as nat)
    } else {
        (2 * n + pow10((len - s) as nat)) / (2 * pow10((len - s) as nat))
    }
}

/// `v`, saturated at `RAW_LIMIT`.
pub open spec fn saturate(v: int) -> int {
    if v > RAW_LIMIT {
        RAW_LIMIT as int
    } else {
        v
    }
}

/// The raw value of a decimal number without a sign: a mantissa, optionally
/// followed by `e` or `E` and an exponent. The value is rounded to the nearest
/// millionth and saturates at `RAW_LIMIT`.
pub open spec fn unsigned_value(body: Seq<char>) -> Option<int> {
    let x = first_of(body, 'e', 'E');
    let e = if x < body.len() {
        exponent_value(body.subrange(x + 1, body.len() as int))
    } else {
        Some(0)
    };
    match (mantissa_digits(body.take(x)), e) {
        (Some((d, w)), Some(e)) => Some(saturate(scaled(d, w + e + 6))),
        _ => None,
    }
}

/// The raw value of a decimal number with an optional `+` or `-` sign.
pub open spec fn decimal_value(t: Seq<char>) -> Option<int> {
    if t.len() > 0 && t[0] == '-' {
        match unsigned_value(t.drop_first()) {
            Some(v) => Some(-v),
            None => None,
        }
    } else if t.len() > 0 && t[0] == '+' {
        unsigned_value(t.drop_first())
    } else {
        unsigned_value(t)
    }
}

/// Reading typed input.
pub trait StringUtils {
    /// The text.
    spec fn text(&self) -> Seq<char>;

    /// Trims white space from both ends and reads a decimal number, with an
    /// optional sign and an optional exponent (`1e3`, `2.5E-1`). The value is
    /// rounded to the nearest millionth and its magnitude saturates at
    /// `RAW_LIMIT`; `None` where the rest is no number.
    fn parse_input(&self) -> (r: Option<Fixed>)
        ensures
            r matches Some(v) ==> decimal_value(trim(self.text())) == Some(v.raw as int),
            r is None ==> decimal_value(trim(self.text())) is None,
    ;
}

fn is_space_exec(c: char) -> (r: bool)
    ensures
        r == is_space(c),
{
    c == ' ' || ('\t' <= c && c <= '\r') || c == '\u{85}' || c == '\u{a0}' || c == '\u{1680}' || (
    '\u{2000}' <= c && c <= '\u{200a}') || c == '\u{2028}' || c == '\u{2029}' || c == '\u{202f}'
        || c == '\u{205f}' || c == '\u{3000}'
}

proof fn lemma_digits_value_prefix(s: Seq<char>, i: int)
    requires
        all_digits(s),
        0 <= i <= s.len(),
    ensures
        0 <= digits_value(s.take(i)) <= digits_value(s),
    decreases s.len(),
{
    if i < s.len() {
        let t = s.drop_last();
        assert(t.take(i) =~= s.take(i));
        lemma_digits_value_prefix(t, i);
        lemma_digits_value_prefix(t, t.len() as int);
        assert(t.take(t.len() as int) =~= t);
        assert(is_digit(s[s.len() - 1]));
    } else {
        assert(s.take(i) =~= s);
        if s.len() > 0 {
            let t = s.drop_last();
            lemma_digits_value_prefix(t, t.len() as int);
            assert(t.take(t.len() as int) =~= t);
            assert(is_digit(s[s.len() - 1]));
        }
    }
}

proof fn lemma_first_of(s: Seq<char>, a: char, b: char, j: int)
    requires
        0 <= j <= s.len(),
        forall|k: int| 0 <= k < j ==> s[k] != a && s[k] != b,
        j == s.len() || s[j] == a || s[j] == b,
    ensures
        first_of(s, a, b) == j,
    decreases j,
{
    if j > 0 {
        lemma_first_of(s.drop_first(), a, b, j - 1);
    }
}

proof fn lemma_all_digits_sub(d: Seq<char>, i: int, j: int)
    requires
        all_digits(d),
        0 <= i <= j <= d.len(),
    ensures
        all_digits(d.subrange(i, j)),
{
    assert forall|k: int| 0 <= k < j - i implies is_digit(#[trigger] d.subrange(i, j)[k]) by {
        assert(d.subrange(i, j)[k] == d[i + k]);
    }
}

/// Digits write a number below the power of ten of their count.
proof fn lemma_digits_value_bound(d: Seq<char>)
    requires
        all_digits(d),
    ensures
        0 <= digits_value(d) < pow10(d.len()),
    decreases d.len(),
{
    if d.len() > 0 {
        let u = d.drop_last();
        lemma_all_digits_sub(d, 0, d.len() - 1);
        assert(u =~= d.subrange(0, d.len() - 1));
        lemma_digits_value_bound(u);
        assert(is_digit(d[d.len() - 1]));
    }
}

/// The digits before position `t` count `10^(len - t)` times each.
proof fn lemma_digits_value_split(d: Seq<char>, t: int)
    requires
        0 <= t <= d.len(),
    ensures
        digits_value(d) == digits_value(d.take(t)) * pow10((d.len() - t) as nat) + digits_value(
            d.subrange(t, d.len() as int),
        ),
    decreases d.len(),
{
    if t == d.len() {
        assert(d.take(t) =~= d);
        assert(d.subrange(t, d.len() as int) =~= Seq::<char>::empty());
    } else {
        let u = d.drop_last();
        lemma_digits_value_split(u, t);
        assert(u.take(t) =~= d.take(t));
        let tail = d.subrange(t, d.len() as int);
        assert(tail.drop_last() =~= u.subrange(t, u.len() as int));
        assert(tail.last() == d.last());
        let k = digits_value(d.take(t));
        let pu = pow10((u.len() - t) as nat);
        assert(pow10((d.len() - t) as nat) == 10 * pu);
        assert(10 * (k * pu) == k * (10 * pu)) by (nonlinear_arith);
    }
}

/// A run of digits lies between its leading digit and the next one, times
/// the place value of that digit.
proof fn lemma_leading_digit(e: Seq<char>)
    requires
        all_digits(e),
        e.len() >= 1,
    ensures
        (e[0] as int - '0' as int) * pow10((e.len() - 1) as nat) <= digits_value(e) < (e[0] as int
            - '0' as int + 1) * pow10((e.len() - 1) as nat),
{
    lemma_digits_value_split(e, 1);
    let head = e.take(1);
    assert(head.drop_last() =~= Seq::<char>::empty());
    assert(head.last() == e[0]);
    assert(digits_value(head.drop_last()) == 0);
    assert(digits_value(head) == e[0] as int - '0' as int);
    let rest = e.subrange(1, e.len() as int);
    lemma_all_digits_sub(e, 1, e.len() as int);
    lemma_digits_value_bound(rest);
    let c = pow10((e.len() - 1) as nat);
    let d1 = e[0] as int - '0' as int;
    assert((d1 + 1) * c == d1 * c + c) by (nonlinear_arith);
}

/// Below the millionths place, a number keeps its leading digits and rounds
/// up exactly when the first digit dropped is five or more.
proof fn lemma_scaled_round(d: Seq<char>, s: int)
    requires
        all_digits(d),
        0 <= s < d.len(),
    ensures
        scaled(d, s) == digits_value(d.take(s)) + if d[s] as int >= '5' as int {
            1int
        } else {
            0
        },
{
    let len = d.len() as int;
    let n = digits_value(d);
    let b = pow10((len - s) as nat);
    let c = pow10((len - s - 1) as nat);
    assert(b == 10 * c);
    lemma_pow10_positive((len - s - 1) as nat);
    lemma_digits_value_split(d, s);
    let k = digits_value(d.take(s));
    let tail = d.subrange(s, len);
    lemma_all_digits_sub(d, s, len);
    lemma_leading_digit(tail);
    assert(tail[0] == d[s]);
    let r = digits_value(tail);
    let d1 = d[s] as int - '0' as int;
    assert(is_digit(d[s]));
    assert(n == k * b + r);
    if d1 >= 5 {
        assert(2 * b * (k + 1) <= 2 * n + b < 2 * b * (k + 1) + 2 * b) by (nonlinear_arith)
            requires
                n == k * b + r,
                d1 * c <= r < (d1 + 1) * c,
                5 <= d1 <= 9,
                b == 10 * c,
                c > 0,
        ;
        lemma_div_unique(2 * n + b, 2 * b, k + 1);
    } else {
        assert(2 * b * k <= 2 * n + b < 2 * b * k + 2 * b) by (nonlinear_arith)
            requires
                n == k * b + r,
                d1 * c <= r < (d1 + 1) * c,
                0 <= d1 <= 4,
                b == 10 * c,
                c > 0,
        ;
        lemma_div_unique(2 * n + b, 2 * b, k);
    }
}

/// A point more than a place left of every digit leaves no millionths.
proof fn lemma_scaled_zero(d: Seq<char>, s: int)
    requires
        all_digits(d),
        s < 0,
    ensures
        scaled(d, s) == 0,
{
    let len = d.len() as int;
    let n = digits_value(d);
    let b = pow10((len - s) as nat);
    lemma_digits_value_bound(d);
    lemma_pow10_monotone((len + 1) as nat, (len - s) as nat);
    assert(pow10((len + 1) as nat) == 10 * pow10(len as nat));
    lemma_div_unique(2 * n + b, 2 * b, 0);
}

/// Zeros write zero wherever the point stands.
proof fn lemma_scaled_of_zero(d: Seq<char>, s: int)
    requires
        digits_value(d) == 0,
    ensures
        scaled(d, s) == 0,
{
    let len = d.len() as int;
    if s < len {
        let b = pow10((len - s) as nat);
        lemma_pow10_positive((len - s) as nat);
        lemma_div_unique(b, 2 * b, 0);
    }
}

/// Non-zero digits moved nineteen places past the millionths saturate.
proof fn lemma_scaled_large(d: Seq<char>, s: int)
    requires
        digits_value(d) >= 1,
        s >= d.len() + 19,
    ensures
        scaled(d, s) > RAW_LIMIT,
{
    let len = d.len() as int;
    let p = pow10((s - len) as nat);
    lemma_pow10_monotone(19, (s - len) as nat);
    crate::utils::lemma_pow10_table();
    assert(digits_value(d) * p >= p) by (nonlinear_arith)
        requires
            digits_value(d) >= 1,
            p >= 0,
    ;
}

/// The millionths are at least the number written by any leading digits
/// that stand at or above the millionths place.
proof fn lemma_scaled_ge_prefix(d: Seq<char>, s: int, i: int)
    requires
        all_digits(d),
        0 <= i <= s,
        i <= d.len(),
    ensures
        scaled(d, s) >= digits_value(d.take(i)),
{
    let len = d.len() as int;
    lemma_digits_value_prefix(d, i);
    if s >= len {
        let p = pow10((s - len) as nat);
        lemma_pow10_positive((s - len) as nat);
        lemma_digits_value_bound(d);
        assert(digits_value(d) * p >= digits_value(d)) by (nonlinear_arith)
            requires
                digits_value(d) >= 0,
                p >= 1,
        ;
    } else {
        lemma_scaled_round(d, s);
        lemma_all_digits_sub(d, 0, s);
        assert(d.take(s) =~= d.subrange(0, s));
        lemma_digits_value_prefix(d.take(s), i);
        assert(d.take(s).take(i) =~= d.take(i));
    }
}

/// An exponent beyond `EXPONENT_CAP` gives what the cap gives.
proof fn lemma_exponent_cap(d: Seq<char>, w: int, e: int, capped: int)
    requires
        all_digits(d),
        0 <= w <= d.len() <= 0x1_0000_0000_0000_0000,
        (e >= EXPONENT_CAP && capped == EXPONENT_CAP) || (e <= -EXPONENT_CAP && capped
            == -EXPONENT_CAP),
    ensures
        saturate(scaled(d, w + e + 6)) == saturate(scaled(d, w + capped + 6)),
{
    if e >= EXPONENT_CAP {
        lemma_digits_value_bound(d);
        if digits_value(d) == 0 {
            lemma_scaled_of_zero(d, w + e + 6);
            lemma_scaled_of_zero(d, w + capped + 6);
        } else {
            lemma_scaled_large(d, w + e + 6);
            lemma_scaled_large(d, w + capped + 6);
        }
    } else {
        lemma_scaled_zero(d, w + e + 6);
        lemma_scaled_zero(d, w + capped + 6);
    }
}

/// Index of the first `a` or `b` in `s[from..end]`, or `end`.
fn first_of_exec(s: &str, from: usize, end: usize, a: char, b: char) -> (p: usize)
    requires
        from <= end <= s@.len(),
    ensures
        from <= p <= end,
        first_of(s@.subrange(from as int, end as int), a, b) == p - from,
{
    let ghost body = s@.subrange(from as int, end as int);
    let mut p = from;
    while p < end && s.get_char(p) != a && s.get_char(p) != b
        invariant
            from <= p <= end <= s@.len(),
            body == s@.subrange(from as int, end as int),
            forall|k: int| 0 <= k < p - from ==> body[k] != a && body[k] != b,
        decreases end - p,
    {
        p = p + 1;
    }
    proof {
        lemma_first_of(body, a, b, p - from);
    }
    p
}

/// The number written by the digits `s[from..end]`, capped at
/// `EXPONENT_CAP`.
fn run_exec(s: &str, from: usize, end: usize) -> (r: Option<i128>)
    requires
        from <= end <= s@.len(),
    ensures
        r is None <==> run_value(s@.subrange(from as int, end as int)) is None,
        r matches Some(v) ==> {
            let x = run_value(s@.subrange(from as int, end as int)).unwrap();
            &&& v == if x > EXPONENT_CAP {
                EXPONENT_CAP as int
            } else {
                x
            }
            &&& 0 <= x
        },
{
    let ghost body = s@.subrange(from as int, end as int);
    if from == end {
        return None;
    }
    let mut acc: i128 = 0;
    let mut i = from;
    while i < end
        invariant
            from <= i <= end <= s@.len(),
            body == s@.subrange(from as int, end as int),
            all_digits(body.take(i - from)),
            acc == if digits_value(body.take(i - from)) > EXPONENT_CAP {
                EXPONENT_CAP + 1
            } else {
                digits_value(body.take(i - from))
            },
        decreases end - i,
    {
        let c = s.get_char(i);
        proof {
            assert(body[i - from] == c);
        }
        if !('0' <= c && c <= '9') {
            proof {
                assert(!all_digits(body));
            }
            return None;
        }
        proof {
            assert(body.take(i - from + 1).drop_last() =~= body.take(i - from));
            assert(body.take(i - from + 1).last() == c);
            lemma_digits_value_bound(body.take(i - from));
        }
        if acc <= EXPONENT_CAP {
            acc = acc * 10 + (c as u32 - '0' as u32) as i128;
            if acc > EXPONENT_CAP {
                acc = EXPONENT_CAP + 1;
            }
        }
        i = i + 1;
    }
    proof {
        assert(body.take(i - from) =~= body);
        lemma_digits_value_bound(body);
    }
    if acc > EXPONENT_CAP {
        Some(EXPONENT_CAP)
    } else {
        Some(acc)
    }
}

/// The exponent written in `s[from..end]`, clamped to `EXPONENT_CAP` either
/// way.
fn exponent_exec(s: &str, from: usize, end: usize) -> (r: Option<i128>)
    requires
        from <= end <= s@.len(),
    ensures
        r is None <==> exponent_value(s@.subrange(from as int, end as int)) is None,
        r matches Some(v) ==> {
            let x = exponent_value(s@.subrange(from as int, end as int)).unwrap();
            v == if x > EXPONENT_CAP {
                EXPONENT_CAP as int
            } else if x < -EXPONENT_CAP {
                -EXPONENT_CAP
            } else {
                x
            }
        },
{
    let ghost body = s@.subrange(from as int, end as int);
    if from < end && (s.get_char(from) == '-' || s.get_char(from) == '+') {
        let negative = s.get_char(from) == '-';
        proof {
            assert(body.drop_first() =~= s@.subrange(from + 1, end as int));
        }
        match run_exec(s, from + 1, end) {
            Some(v) => if negative {
                Some(-v)
            } else {
                Some(v)
            },
            None => None,
        }
    } else {
        run_exec(s, from, end)
    }
}

/// The digits of the mantissa `s[from..end]` without its point, and how many
/// stand before the point.
fn mantissa_exec(s: &str, from: usize, end: usize) -> (r: Option<(Vec<char>, usize)>)
    requires
        from <= end <= s@.len(),
    ensures
        r matches Some((v, w)) ==> mantissa_digits(s@.subrange(from as int, end as int)) == Some(
            (v@, w as int),
        ) && w <= v@.len() <= end - from,
        r is None ==> mantissa_digits(s@.subrange(from as int, end as int)) is None,
{
    let ghost body = s@.subrange(from as int, end as int);
    let p = first_of_exec(s, from, end, '.', '.');
    let ghost whole = body.take(p - from);
    let ghost frac = if p < end {
        body.subrange(p - from + 1, body.len() as int)
    } else {
        Seq::<char>::empty()
    };
    let mut digits: Vec<char> = Vec::new();
    let mut i = from;
    while i < p
        invariant
            from <= i <= p <= end <= s@.len(),
            body == s@.subrange(from as int, end as int),
            first_of(body, '.', '.') == p - from,
            whole == body.take(p - from),
            digits@ == whole.take(i - from),
            all_digits(digits@),
        decreases p - i,
    {
        let c = s.get_char(i);
        proof {
            assert(body[i - from] == s@[i as int]);
            assert(whole[i - from] == c);
        }
        if !('0' <= c && c <= '9') {
            proof {
                assert(!all_digits(whole));
            }
            return None;
        }
        digits.push(c);
        proof {
            assert(digits@ =~= whole.take(i - from + 1));
        }
        i = i + 1;
    }
    proof {
        assert(whole.take(p - from) =~= whole);
    }
    let w = digits.len();
    if p < end {
        let mut j = p + 1;
        while j < end
            invariant
                from <= p < j <= end <= s@.len(),
                body == s@.subrange(from as int, end as int),
                first_of(body, '.', '.') == p - from,
                whole == body.take(p - from),
                frac == body.subrange(p - from + 1, body.len() as int),
                digits@ == whole + frac.take(j - p - 1),
                all_digits(digits@),
                w == whole.len(),
            decreases end - j,
        {
            let c = s.get_char(j);
            proof {
                assert(body[j - from] == s@[j as int]);
                assert(frac[j - p - 1] == c);
            }
            if !('0' <= c && c <= '9') {
                proof {
                    assert(!all_digits(frac));
                }
                return None;
            }
            digits.push(c);
            proof {
                assert(digits@ =~= whole + frac.take(j - p));
            }
            j = j + 1;
        }
        proof {
            assert(frac.take(j - p - 1) =~= frac);
        }
    } else {
        assert(digits@ =~= whole + frac);
    }
    proof {
        assert forall|k: int| 0 <= k < whole.len() implies is_digit(#[trigger] whole[k]) by {
            assert(whole[k] == digits@[k]);
        }
        assert forall|k: int| 0 <= k < frac.len() implies is_digit(#[trigger] frac[k]) by {
            assert(frac[k] == digits@[whole.len() + k]);
        }
    }
    if digits.len() == 0 {
        return None;
    }
    Some((digits, w))
}

/// The millionths written by the digits `d` with `w` of them before the point
/// and exponent `e`, saturated at `RAW_LIMIT`.
fn scaled_exec(d: &Vec<char>, w: usize, e: i128) -> (r: i64)
    requires
        all_digits(d@),
        w <= d@.len(),
        -EXPONENT_CAP <= e <= EXPONENT_CAP,
    ensures
        r == saturate(scaled(d@, w + e + 6)),
        0 <= r,
{
    let len = d.len();
    let s = w as i128 + e + 6;
    if s < 0 {
        proof {
            lemma_scaled_zero(d@, s as int);
        }
        return 0;
    }
    if s >= len as i128 + 19 {
        let mut i: usize = 0;
        while i < len
            invariant
                i <= len == d@.len(),
                all_digits(d@),
                digits_value(d@.take(i as int)) == 0,
                s >= len + 19,
                s == w + e + 6,
            decreases len - i,
        {
            proof {
                assert(d@.take(i + 1).drop_last() =~= d@.take(i as int));
                assert(d@.take(i + 1).last() == d@[i as int]);
                assert(is_digit(d@[i as int]));
            }
            if d[i] != '0' {
                proof {
                    assert(digits_value(d@.take(i + 1)) >= 1);
                    lemma_digits_value_prefix(d@, i + 1);
                    lemma_scaled_large(d@, s as int);
                }
                return RAW_LIMIT;
            }
            i = i + 1;
        }
        proof {
            assert(d@.take(len as int) =~= d@);
            lemma_scaled_of_zero(d@, s as int);
        }
        return 0;
    }
    let t: usize = if s < len as i128 {
        s as usize
    } else {
        len
    };
    let mut acc: u64 = 0;
    let mut i: usize = 0;
    while i < t
        invariant
            i <= t <= len == d@.len(),
            all_digits(d@),
            acc == digits_value(d@.take(i as int)),
            acc <= RAW_LIMIT,
            s == w + e + 6,
            t as int == if s < len {
                s as int
            } else {
                len as int
            },
        decreases t - i,
    {
        let c = d[i];
        proof {
            assert(d@.take(i + 1).drop_last() =~= d@.take(i as int));
            assert(d@.take(i + 1).last() == c);
            assert(is_digit(d@[i as int]));
        }
        acc = acc * 10 + (c as u32 - '0' as u32) as u64;
        i = i + 1;
        if acc > RAW_LIMIT as u64 {
            proof {
                lemma_scaled_ge_prefix(d@, s as int, i as int);
            }
            return RAW_LIMIT;
        }
    }
    if t < len {
        proof {
            lemma_scaled_round(d@, t as int);
        }
        let r = if d[t] >= '5' {
            acc + 1
        } else {
            acc
        };
        if r > RAW_LIMIT as u64 {
            RAW_LIMIT
        } else {
            r as i64
        }
    } else {
        proof {
            assert(d@.take(len as int) =~= d@);
            crate::utils::lemma_pow10_table();
            lemma_pow10_monotone((s - len) as nat, 18);
        }
        let p = crate::utils::pow10_exec((s - len as i128) as u32) as u128;
        proof {
            assert(acc * p <= 1_000_000_000_000_000_000 * 1_000_000_000_000_000_000) by (
            nonlinear_arith)
                requires
                    acc <= 1_000_000_000_000_000_000,
                    p <= 1_000_000_000_000_000_000,
            ;
        }
        let r = acc as u128 * p;
        if r > RAW_LIMIT as u128 {
            RAW_LIMIT
        } else {
            r as i64
        }
    }
}

/// The raw value of the unsigned number in `s[start..end]`.
fn unsigned_value_exec(s: &str, start: usize, end: usize) -> (r: Option<i64>)
    requires
        start <= end <= s@.len(),
    ensures
        r matches Some(v) ==> unsigned_value(s@.subrange(start as int, end as int)) == Some(
            v as int,
        ),
        r is None ==> unsigned_value(s@.subrange(start as int, end as int)) is None,
        r matches Some(v) ==> 0 <= v,
{
    let ghost body = s@.subrange(start as int, end as int);
    let x = first_of_exec(s, start, end, 'e', 'E');
    proof {
        assert(body.take(x - start) =~= s@.subrange(start as int, x as int));
        assert(x < end ==> body.subrange(x - start + 1, body.len() as int) =~= s@.subrange(
            x + 1,
            end as int,
        ));
    }
    let e: i128 = if x < end {
        match exponent_exec(s, x + 1, end) {
            Some(v) => v,
            None => {
                return None;
            },
        }
    } else {
        0
    };
    match mantissa_exec(s, start, x) {
        Some((digits, w)) => {
            let r = scaled_exec(&digits, w, e);
            proof {
                if x < end {
                    let ev = exponent_value(s@.subrange(x + 1, end as int)).unwrap();
                    if ev > EXPONENT_CAP || ev < -EXPONENT_CAP {
                        lemma_exponent_cap(digits@, w as int, ev, e as int);
                    }
                }
            }
            Some(r)
        },
        None => None,
    }
}

/// Bounds of the text that remains once white space is trimmed from both
/// ends.
fn trimmed_bounds(s: &str) -> (r: (usize, usize))
    ensures
        r.0 <= r.1 <= s@.len(),
        trim(s@) == s@.subrange(r.0 as int, r.1 as int),
{
    let n = s.unicode_len();
    let mut a: usize = 0;
    assert(s@.subrange(0, n as int) =~= s@);
    while a < n && is_space_exec(s.get_char(a))
        invariant
            a <= n == s@.len(),
            trim_start(s@) == trim_start(s@.subrange(a as int, n as int)),
        decreases n - a,
    {
        proof {
            assert(s@.subrange(a as int, n as int).drop_first() =~= s@.subrange(a + 1, n as int));
        }
        a = a + 1;
    }
    proof {
        if a == n {
            assert(s@.subrange(a as int, n as int) =~= Seq::<char>::empty());
        }
    }
    let mut b: usize = n;
    while b > a && is_space_exec(s.get_char(b - 1))
        invariant
            a <= b <= n == s@.len(),
            trim_start(s@) == s@.subrange(a as int, n as int),
            trim(s@) == trim_end(s@.subrange(a as int, b as int)),
        decreases b - a,
    {
        proof {
            assert(s@.subrange(a as int, b as int).drop_last() =~= s@.subrange(a as int, b - 1));
        }
        b = b - 1;
    }
    (a, b)
}

impl StringUtils for str {
    open spec fn text(&self) -> Seq<char> {
        self@
    }

    fn parse_input(&self) -> (r: Option<Fixed>) {
        let (a, b) = trimmed_bounds(self);
        let ghost t = self@.subrange(a as int, b as int);
        if a < b && self.get_char(a) == '-' {
            proof {
                assert(t.drop_first() =~= self@.subrange(a + 1, b as int));
            }
            match unsigned_value_exec(self, a + 1, b) {
                Some(v) => Some(Fixed { raw: -v }),
                None => None,
            }
        } else if a < b && self.get_char(a) == '+' {
            proof {
                assert(t.drop_first() =~= self@.subrange(a + 1, b as int));
            }
            match unsigned_value_exec(self, a + 1, b) {
                Some(v) => Some(Fixed { raw: v }),
                None => None,
            }
        } else {
            match unsigned_value_exec(self, a, b) {
                Some(v) => Some(Fixed { raw: v }),
                None => None,
            }
        }
    }
}

} // verus!
