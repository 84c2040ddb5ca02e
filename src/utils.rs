//! Decimal rounding, digit extraction, digit-wise comparison, natural
//! formatting and the synchronisation of an editable field with a model
//! value.
use vstd::prelude::*;

use crate::fixed::{Fixed, RAW_LIMIT, SCALE};
use crate::hex::{digit_text, hex_digits};
use crate::string_utils::{decimal_value, trim, StringUtils};

verus! {

/// `10^k`.
pub open spec fn pow10(k: nat) -> int
    decreases k,
{
    if k == 0 {
        1
    } else {
        10 * pow10((k - 1) as nat)
    }
}

/// Magnitude of a raw value.
pub open spec fn abs(n: int) -> int {
    if n < 0 {
        -n
    } else {
        n
    }
}

/// `n / u` rounded to the nearest integer, halves away from zero.
pub open spec fn round_div(n: int, u: int) -> int {
    if n >= 0 {
        (2 * n + u) / (2 * u)
    } else {
        -((-2 * n + u) / (2 * u))
    }
}

/// A raw value rounded at `10^digits` whole units: negative `digits` keep
/// that many decimals, positive ones round to tens, hundreds and so on.
pub open spec fn rounded(raw: int, digits: int) -> int {
    let k = digits + 6;
    if k <= 0 {
        raw
    } else {
        round_div(raw, pow10(k as nat)) * pow10(k as nat)
    }
}

/// The decimal digit of `|raw| / SCALE` at position `n`: `0` is the units
/// digit, `-1` the first decimal, `1` the tens. Positions that the decimal
/// rendering does not reach give `0`.
pub open spec fn digit_at(raw: int, n: int) -> int {
    let k = n + 6;
    if k < 0 {
        0
    } else {
        (abs(raw) / pow10(k as nat)) % 10
    }
}

/// The number of decimals of a raw value at or above `p` that its shortest
/// rendering needs: the least `q` in `[p, 6]` with `10^(6 - q)` dividing it.
pub open spec fn places_from(raw: int, p: nat) -> nat
    decreases 6 - p,
{
    if p >= 6 || raw % pow10((6 - p) as nat) == 0 {
        p
    } else {
        places_from(raw, p + 1)
    }
}

/// Number of significant decimals (trailing zeros excluded).
pub open spec fn places(raw: int) -> nat {
    places_from(abs(raw), 0)
}

/// The value floored at `10^digits` whole units, as an integer count of them
/// (or of raw units, where `digits` is finer than a raw unit).
pub open spec fn floored(raw: int, digits: int) -> int {
    let k = digits + 6;
    if k <= 0 {
        raw
    } else {
        raw / pow10(k as nat)
    }
}

/// Whether two values agree when floored at `10^digits`.
pub open spec fn same_at_digits(a: int, b: int, digits: int) -> bool {
    floored(a, digits) == floored(b, digits)
}

pub proof fn lemma_pow10_positive(k: nat)
    ensures
        pow10(k) >= 1,
    decreases k,
{
    if k > 0 {
        lemma_pow10_positive((k - 1) as nat);
    }
}

pub proof fn lemma_pow10_add(a: nat, b: nat)
    ensures
        pow10(a) * pow10(b) == pow10(a + b),
    decreases a,
{
    if a > 0 {
        lemma_pow10_add((a - 1) as nat, b);
        assert(pow10(a) * pow10(b) == 10 * (pow10((a - 1) as nat) * pow10(b))) by (nonlinear_arith)
            requires
                pow10(a) == 10 * pow10((a - 1) as nat),
        ;
        assert((a - 1) as nat + b + 1 == a + b);
    }
}

pub proof fn lemma_pow10_monotone(a: nat, b: nat)
    requires
        a <= b,
    ensures
        pow10(a) <= pow10(b),
    decreases b,
{
    if a < b {
        lemma_pow10_monotone(a, (b - 1) as nat);
        lemma_pow10_positive((b - 1) as nat);
    }
}

/// The powers of ten that bound 64-bit arithmetic.
pub proof fn lemma_pow10_table()
    ensures
        pow10(6) == SCALE,
        pow10(18) == 1_000_000_000_000_000_000,
        pow10(19) == 10_000_000_000_000_000_000,
{
    reveal_with_fuel(pow10, 20);
}

/// `n / u` rounded towards negative infinity.
fn floor_div(n: i64, u: u64) -> (r: i64)
    requires
        0 < u <= pow10(18),
    ensures
        r == n as int / u as int,
{
    proof {
        lemma_pow10_table();
    }
    let wide = n as i128;
    let ui = u as i128;
    if wide >= 0 {
        proof {
            assert(wide < ui * (wide + 1)) by (nonlinear_arith)
                requires
                    wide >= 0,
                    ui >= 1,
            ;
            crate::arith::lemma_div_range(wide as int, ui as int, wide + 1);
        }
        (wide / ui) as i64
    } else {
        let q = (-wide + ui - 1) / ui;
        proof {
            crate::arith::lemma_div_bounds((-wide + ui - 1) as int, ui as int);
            assert(ui * (-q) == -(ui * q)) by (nonlinear_arith);
            crate::arith::lemma_div_unique(n as int, u as int, -(q as int));
            assert(-wide + ui - 1 < ui * (-wide + 1)) by (nonlinear_arith)
                requires
                    wide < 0,
                    ui >= 1,
            ;
            crate::arith::lemma_div_range((-wide + ui - 1) as int, ui as int, -wide + 1);
        }
        (-q) as i64
    }
}

/// `10^k`, for exponents whose power fits in 64 bits.
pub(crate) fn pow10_exec(k: u32) -> (r: u64)
    requires
        k <= 19,
    ensures
        r == pow10(k as nat),
{
    let mut r: u64 = 1;
    let mut i: u32 = 0;
    while i < k
        invariant
            i <= k <= 19,
            r == pow10(i as nat),
        decreases k - i,
    {
        proof {
            lemma_pow10_monotone((i + 1) as nat, 19);
            lemma_pow10_table();
        }
        r = r * 10;
        i = i + 1;
    }
    r
}

/// Magnitude of a raw value, in 64 unsigned bits.
fn abs_exec(n: i64) -> (r: u64)
    ensures
        r == abs(n as int),
{
    if n < 0 {
        ((-(n + 1)) as u64) + 1
    } else {
        n as u64
    }
}

/// Numeric helpers on decimal numbers.
pub trait FloatUtils: Sized {
    /// The number, in raw units of one millionth.
    spec fn raw_value(&self) -> int;

    /// Rounds to a power of ten: `digits` places left of the decimal point
    /// where it is positive, right of it where negative. Halves round away
    /// from zero.
    fn round_digits(self, digits: i32) -> (r: Self)
        requires
            -RAW_LIMIT <= self.raw_value() <= RAW_LIMIT,
        ensures
            r.raw_value() == rounded(self.raw_value(), digits as int),
    ;

    /// The decimal digit at position `digit`: `0` is the units digit, `-1`
    /// the first decimal. Positions beyond the number give `0`.
    fn nth_digit(self, digit: isize) -> (r: u8)
        ensures
            r == digit_at(self.raw_value(), digit as int),
    ;

    /// Number of decimals in the shortest rendering, trailing zeros excluded.
    fn decimal_places(self) -> (r: usize)
        ensures
            r == places(self.raw_value()),
    ;

    /// Whether both numbers agree when floored at `10^digits` (truncation, not
    /// rounding).
    fn float_compare_digits(self, other: Self, digits: i32) -> (r: bool)
        ensures
            r == same_at_digits(self.raw_value(), other.raw_value(), digits as int),
    ;
}

impl FloatUtils for Fixed {
    open spec fn raw_value(&self) -> int {
        self.raw as int
    }

    fn round_digits(self, digits: i32) -> (r: Fixed) {
        let n = self.raw;
        if digits <= -6 {
            return self;
        }
        if digits >= 13 {
            proof {
                let k = (digits + 6) as nat;
                lemma_pow10_monotone(19, k);
                lemma_pow10_table();
                let u = pow10(k);
                if n >= 0 {
                    crate::arith::lemma_div_unique(2 * n + u, 2 * u, 0);
                } else {
                    crate::arith::lemma_div_unique(-2 * n + u, 2 * u, 0);
                }
                assert(round_div(n as int, u) == 0);
                assert(round_div(n as int, u) * u == 0);
                assert(rounded(n as int, digits as int) == 0);
            }
            return Fixed { raw: 0 };
        }
        let k = (digits + 6) as u32;
        let u = pow10_exec(k);
        proof {
            lemma_pow10_positive(k as nat);
            lemma_pow10_monotone(k as nat, 18);
            lemma_pow10_table();
        }
        let m = abs_exec(n);
        let q = (2 * m + u) / (2 * u);
        proof {
            crate::arith::lemma_div_bounds((2 * m + u) as int, (2 * u) as int);
            assert(q * u <= m + u) by (nonlinear_arith)
                requires
                    (2 * u) * q <= 2 * m + u,
                    u > 0,
            ;
            assert((-(q as int)) * u == -(q * u)) by (nonlinear_arith);
        }
        let v = (q * u) as i64;
        if n >= 0 {
            Fixed { raw: v }
        } else {
            Fixed { raw: -v }
        }
    }

    fn nth_digit(self, digit: isize) -> (r: u8) {
        if digit < -6 {
            return 0;
        }
        let m = abs_exec(self.raw);
        if digit > 12 {
            proof {
                let k = (digit + 6) as nat;
                lemma_pow10_monotone(19, k);
                lemma_pow10_table();
                crate::arith::lemma_div_unique(m as int, pow10(k), 0);
            }
            return 0;
        }
        let u = pow10_exec((digit + 6) as u32);
        proof {
            lemma_pow10_positive((digit + 6) as nat);
        }
        ((m / u) % 10) as u8
    }

    fn decimal_places(self) -> (r: usize) {
        let m = abs_exec(self.raw);
        let mut p: usize = 0;
        while p < 6
            invariant
                p <= 6,
                places_from(m as int, p as nat) == places(self.raw as int),
            decreases 6 - p,
        {
            let u = pow10_exec((6 - p) as u32);
            proof {
                lemma_pow10_positive((6 - p) as nat);
            }
            if m % u == 0 {
                return p;
            }
            p = p + 1;
        }
        p
    }

    fn float_compare_digits(self, other: Fixed, digits: i32) -> (r: bool) {
        if digits <= -6 {
            return self.raw == other.raw;
        }
        if digits >= 13 {
            proof {
                let k = (digits + 6) as nat;
                lemma_pow10_monotone(19, k);
                lemma_pow10_table();
                let u = pow10(k);
                let a = self.raw as int;
                let b = other.raw as int;
                if a >= 0 {
                    crate::arith::lemma_div_unique(a, u, 0);
                } else {
                    crate::arith::lemma_div_unique(a, u, -1);
                }
                if b >= 0 {
                    crate::arith::lemma_div_unique(b, u, 0);
                } else {
                    crate::arith::lemma_div_unique(b, u, -1);
                }
            }
            return (self.raw >= 0) == (other.raw >= 0);
        }
        let u = pow10_exec((digits + 6) as u32);
        proof {
            lemma_pow10_positive((digits + 6) as nat);
            lemma_pow10_monotone((digits + 6) as nat, 18);
        }
        floor_div(self.raw, u) == floor_div(other.raw, u)
    }
}

/// The character of a decimal digit.
pub open spec fn digit_char(d: int) -> char {
    hex_digits()[d]
}

/// Number of decimal digits of a natural number (one for zero).
pub open spec fn num_digits(n: nat) -> nat
    decreases n,
{
    if n < 10 {
        1
    } else {
        1 + num_digits(n / 10)
    }
}

/// Decimal digits of a natural number, most significant first, without
/// leading zeros.
pub open spec fn whole_text(n: nat) -> Seq<char> {
    let len = num_digits(n);
    Seq::new(len, |j: int| digit_char((n as int / pow10((len - 1 - j) as nat)) % 10))
}

/// The first `count` decimals of a fraction of `f` millionths, padded with
/// zeros past the sixth.
pub open spec fn frac_text(f: nat, count: nat) -> Seq<char> {
    Seq::new(
        count,
        |j: int|
            if j < 6 {
                digit_char((f as int / pow10((5 - j) as nat)) % 10)
            } else {
                '0'
            },
    )
}

/// A raw value written out with exactly `decimals` decimals, which truncates
/// any further ones: a `-` for a negative value, the whole part, and a point
/// and the decimals where there are any.
pub open spec fn render(raw: int, decimals: nat) -> Seq<char> {
    let m = abs(raw);
    let sign = if raw < 0 {
        seq!['-']
    } else {
        Seq::<char>::empty()
    };
    let whole = whole_text((m / SCALE as int) as nat);
    if decimals == 0 {
        sign + whole
    } else {
        sign + whole + seq!['.'] + frac_text((m % SCALE as int) as nat, decimals)
    }
}

/// `v` brought into `[lo, hi]`.
pub open spec fn clamp_nat(v: nat, lo: nat, hi: nat) -> nat {
    if v < lo {
        lo
    } else if v > hi {
        hi
    } else {
        v
    }
}

/// A value rounded to `max` decimals and written with as many decimals as it
/// needs, but no fewer than `min` and no more than `max`.
pub open spec fn natural_text(raw: int, min: nat, max: nat) -> Seq<char> {
    let r = rounded(raw, -max);
    render(r, clamp_nat(places(r), min, max))
}

proof fn lemma_num_digits_bound(n: nat, k: nat)
    requires
        k >= 1,
        n < pow10(k),
    ensures
        num_digits(n) <= k,
    decreases n,
{
    if n >= 10 {
        if k == 1 {
            reveal_with_fuel(pow10, 2);
        } else {
            let k1 = (k - 1) as nat;
            assert(n / 10 < pow10(k1)) by {
                crate::arith::lemma_div_bounds(n as int, 10);
            }
            lemma_num_digits_bound(n / 10, k1);
        }
    }
}

fn push_digit(out: &mut String, d: u64)
    requires
        d < 10,
    ensures
        final(out)@ == old(out)@.push(digit_char(d as int)),
{
    out.append(digit_text(d as u8));
    assert(final(out)@ =~= old(out)@.push(digit_char(d as int)));
}

/// Appends the decimal digits of `n`.
fn push_whole(out: &mut String, n: u64)
    requires
        n < pow10(19),
    ensures
        final(out)@ == old(out)@ + whole_text(n as nat),
{
    let ghost start = out@;
    let mut len: u32 = 1;
    let mut t = n;
    while t >= 10
        invariant
            1 <= len <= 20,
            len - 1 + num_digits(t as nat) == num_digits(n as nat),
            t < pow10((20 - len) as nat),
        decreases t,
    {
        proof {
            crate::arith::lemma_div_bounds(t as int, 10);
            reveal_with_fuel(pow10, 2);
            if len == 20 {
                assert(pow10(0) == 1);
            }
        }
        t = t / 10;
        len = len + 1;
    }
    proof {
        lemma_num_digits_bound(n as nat, 19);
    }
    let mut j: u32 = 0;
    while j < len
        invariant
            j <= len,
            len == num_digits(n as nat) <= 19,
            out@ == start + whole_text(n as nat).take(j as int),
        decreases len - j,
    {
        let u = pow10_exec(len - 1 - j);
        proof {
            lemma_pow10_positive((len - 1 - j) as nat);
        }
        push_digit(out, (n / u) % 10);
        assert(out@ =~= start + whole_text(n as nat).take(j + 1));
        j = j + 1;
    }
    assert(whole_text(n as nat).take(len as int) =~= whole_text(n as nat));
}

/// Appends the first `count` decimals of `f` millionths.
fn push_frac(out: &mut String, f: u64, count: usize)
    ensures
        final(out)@ == old(out)@ + frac_text(f as nat, count as nat),
{
    let ghost start = out@;
    let mut j: usize = 0;
    while j < count
        invariant
            j <= count,
            out@ == start + frac_text(f as nat, count as nat).take(j as int),
        decreases count - j,
    {
        if j < 6 {
            let u = pow10_exec((5 - j) as u32);
            proof {
                lemma_pow10_positive((5 - j) as nat);
            }
            push_digit(out, (f / u) % 10);
        } else {
            proof {
                reveal_strlit("0");
            }
            out.append("0");
        }
        assert(out@ =~= start + frac_text(f as nat, count as nat).take(j + 1));
        j = j + 1;
    }
    assert(frac_text(f as nat, count as nat).take(count as int) =~= frac_text(
        f as nat,
        count as nat,
    ));
}

/// Writes a number with exactly `decimals` decimals.
pub fn render_fixed(x: Fixed, decimals: usize) -> (r: String)
    ensures
        r@ == render(x.raw as int, decimals as nat),
{
    let m = abs_exec(x.raw);
    let mut out = String::new();
    if x.raw < 0 {
        proof {
            reveal_strlit("-");
        }
        out.append("-");
    }
    proof {
        lemma_pow10_table();
        crate::arith::lemma_div_range(m as int, SCALE as int, pow10(19));
    }
    push_whole(&mut out, m / (SCALE as u64));
    if decimals > 0 {
        proof {
            reveal_strlit(".");
        }
        out.append(".");
        push_frac(&mut out, m % (SCALE as u64), decimals);
    }
    out
}

/// Formats a number with as many decimals as it needs once rounded to
/// `max_decimals`, but at least `min_decimals`: `1.0` rather than `1.000`.
pub fn naturally_format_float(float: Fixed, min_decimals: usize, max_decimals: usize) -> (r: String)
    requires
        float.in_range(),
        min_decimals <= max_decimals,
    ensures
        r@ == natural_text(float.raw as int, min_decimals as nat, max_decimals as nat),
{
    let digits: i32 = if max_decimals > 6 {
        -7
    } else {
        -(max_decimals as i32)
    };
    let rounded_value = float.round_digits(digits);
    let p = rounded_value.decimal_places();
    let shown = if p < min_decimals {
        min_decimals
    } else if p > max_decimals {
        max_decimals
    } else {
        p
    };
    render_fixed(rounded_value, shown)
}

/// The number a field's text shows: what it reads as once trimmed, or zero
/// where it reads as no number.
pub open spec fn shown_value(text: Seq<char>) -> int {
    match decimal_value(trim(text)) {
        Some(v) => v,
        None => 0,
    }
}

/// Whether a field showing `text` must be rewritten to show `value`: always
/// when forced, otherwise only when the two disagree at `decimals` decimals.
pub open spec fn needs_overwrite(text: Seq<char>, value: int, decimals: int, force: bool) -> bool {
    force || !same_at_digits(value, shown_value(text), -decimals)
}

/// Decides whether a field showing `displayed` must be rewritten to show
/// `value`. Text that already shows the value at `decimals` decimals, such as
/// `1.50` for `1.5`, is left alone so that typing in progress is kept.
pub fn should_overwrite(displayed: &str, value: Fixed, decimals: usize, force_update: bool) -> (r:
    bool)
    ensures
        r == needs_overwrite(displayed@, value.raw as int, decimals as int, force_update),
{
    if force_update {
        return true;
    }
    let current = match displayed.parse_input() {
        Some(v) => v,
        None => Fixed { raw: 0 },
    };
    let digits: i32 = if decimals > 6 {
        -7
    } else {
        -(decimals as i32)
    };
    !value.float_compare_digits(current, digits)
}

/// Mirrors a model value into a field's text: rewrites it with
/// `format_fn(value)` when `should_overwrite` says so and leaves it as it is
/// otherwise. Returns whether it was rewritten.
pub fn sync_input_value_float<F: FnOnce(Fixed) -> String>(
    displayed: &mut String,
    value: Fixed,
    decimals: usize,
    force_update: bool,
    format_fn: F,
) -> (r: bool)
    requires
        call_requires(format_fn, (value,)),
    ensures
        r == needs_overwrite(old(displayed)@, value.raw as int, decimals as int, force_update),
        r ==> call_ensures(format_fn, (value,), *final(displayed)),
        !r ==> *final(displayed) == *old(displayed),
{
    let overwrite = should_overwrite(displayed.as_str(), value, decimals, force_update);
    if overwrite {
        *displayed = format_fn(value);
    }
    overwrite
}

} // verus!
