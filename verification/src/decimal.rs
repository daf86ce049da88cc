use rust_decimal::Decimal;
use vstd::arithmetic::div_mod::{lemma_fundamental_div_mod, lemma_fundamental_div_mod_converse};
use vstd::arithmetic::power::{lemma_pow_adds, lemma_pow_increases, lemma_pow_positive, pow};
use vstd::prelude::*;

verus! {

/// The largest mantissa magnitude a decimal can hold: 2^96 - 1.
pub const MAX_MANTISSA: i128 = 79228162514264337593543950335i128;

/// The largest number of digits after the decimal point.
pub const MAX_SCALE: u32 = 28u32;

/// `10^e`.
pub open spec fn pow10(e: nat) -> int {
    pow(10, e)
}

/// Whether `mantissa / 10^scale` can be held by a decimal.
pub open spec fn in_decimal_range(mantissa: int, scale: int) -> bool {
    &&& -MAX_MANTISSA <= mantissa <= MAX_MANTISSA
    &&& 0 <= scale <= MAX_SCALE
}

/// A fixed-precision decimal number `mantissa / 10^scale`, held as plain values.
///
/// Its range is that of `rust_decimal::Decimal`: a mantissa of at most 96 bits and at most
/// 28 digits after the decimal point. Several representations may denote one value
/// (`12.5` and `12.50`); comparisons go by value.
#[derive(Debug, Clone, Copy)]
pub struct DecimalValue {
    mantissa: i128,
    scale: u32,
}

impl DecimalValue {
    #[verifier::type_invariant]
    closed spec fn inv(self) -> bool {
        in_decimal_range(self.mantissa as int, self.scale as int)
    }

    /// The mantissa `m` of `m / 10^s`.
    pub closed spec fn mantissa_spec(self) -> int {
        self.mantissa as int
    }

    /// The scale `s` of `m / 10^s`.
    pub closed spec fn scale_spec(self) -> nat {
        self.scale as nat
    }

    /// Builds `mantissa / 10^scale`, or `None` where a decimal cannot hold it.
    pub fn from_parts(mantissa: i128, scale: u32) -> (r: Option<DecimalValue>)
        ensures
            r is Some <==> in_decimal_range(mantissa as int, scale as int),
            r matches Some(d) ==> d.mantissa_spec() == mantissa && d.scale_spec() == scale,
    {
        if scale <= MAX_SCALE && -MAX_MANTISSA <= mantissa && mantissa <= MAX_MANTISSA {
            Some(DecimalValue { mantissa, scale })
        } else {
            None
        }
    }

    /// Builds `num / 10^scale` from a 64-bit mantissa.
    pub fn new(num: i64, scale: u32) -> (r: DecimalValue)
        requires
            scale <= MAX_SCALE,
        ensures
            r.mantissa_spec() == num,
            r.scale_spec() == scale,
    {
        DecimalValue { mantissa: num as i128, scale }
    }

    /// The mantissa `m` of `m / 10^s`.
    pub fn mantissa(&self) -> (r: i128)
        ensures
            r == self.mantissa_spec(),
            -MAX_MANTISSA <= r <= MAX_MANTISSA,
    {
        proof {
            use_type_invariant(self);
        }
        self.mantissa
    }

    /// The scale `s` of `m / 10^s`.
    pub fn scale(&self) -> (r: u32)
        ensures
            r == self.scale_spec(),
            r <= MAX_SCALE,
    {
        proof {
            use_type_invariant(self);
        }
        self.scale
    }

    /// Whether `self` is smaller in value than `other`.
    pub fn less_than(&self, other: &DecimalValue) -> (r: bool)
        ensures
            r == value_lt(*self, *other),
    {
        proof {
            use_type_invariant(self);
            use_type_invariant(other);
        }
        decimal_lt(self.mantissa, self.scale, other.mantissa, other.scale)
    }

    /// `self - other`, computed as a decimal; `None` where the result overflows.
    pub fn checked_sub(&self, other: &DecimalValue) -> (r: Option<DecimalValue>)
        ensures
            match r {
                Some(d) => decimal_difference(
                    self.mantissa_spec(),
                    self.scale_spec() as int,
                    other.mantissa_spec(),
                    other.scale_spec() as int,
                ) == Some((d.mantissa_spec(), d.scale_spec() as int)),
                None => decimal_difference(
                    self.mantissa_spec(),
                    self.scale_spec() as int,
                    other.mantissa_spec(),
                    other.scale_spec() as int,
                ) is None,
            },
            difference_in_range(*self, *other) ==> r is Some,
            self.scale_spec() == other.scale_spec() && in_decimal_range(
                self.mantissa_spec() - other.mantissa_spec(),
                self.scale_spec() as int,
            ) ==> (r matches Some(d) && d.mantissa_spec() == self.mantissa_spec()
                - other.mantissa_spec() && d.scale_spec() == self.scale_spec()),
    {
        proof {
            use_type_invariant(self);
            use_type_invariant(other);
        }
        match decimal_checked_sub(self.mantissa, self.scale, other.mantissa, other.scale) {
            Some((m, s)) => Some(DecimalValue { mantissa: m, scale: s }),
            None => None,
        }
    }
}

/// `a.mantissa * 10^b.scale`: `a` brought to the scale `a.scale + b.scale`.
pub open spec fn cross(a: DecimalValue, b: DecimalValue) -> int {
    a.mantissa_spec() * pow10(b.scale_spec())
}

/// `a < b` by value.
pub open spec fn value_lt(a: DecimalValue, b: DecimalValue) -> bool {
    cross(a, b) < cross(b, a)
}

/// `a == b` by value.
pub open spec fn value_eq(a: DecimalValue, b: DecimalValue) -> bool {
    cross(a, b) == cross(b, a)
}

/// The exact value of `a - b` lies within the range of a decimal, that is
/// `|a - b| <= MAX_MANTISSA`.
pub open spec fn difference_in_range(a: DecimalValue, b: DecimalValue) -> bool {
    let scaled = pow10(a.scale_spec()) * pow10(b.scale_spec());
    let diff = cross(a, b) - cross(b, a);
    -MAX_MANTISSA * scaled <= diff <= MAX_MANTISSA * scaled
}

/// The result of `rust_decimal`'s checked subtraction `a - b`, with each decimal given as its
/// mantissa and scale; `None` on overflow.
pub uninterp spec fn decimal_difference(a_mantissa: int, a_scale: int, b_mantissa: int, b_scale: int) -> Option<(int, int)>;

/// Calls `<Decimal as PartialOrd>::lt` on `a_mantissa / 10^a_scale` and `b_mantissa / 10^b_scale`.
/// The contract claims that decimals are ordered by the exact values they denote.
#[verifier::external_body]
fn decimal_lt(a_mantissa: i128, a_scale: u32, b_mantissa: i128, b_scale: u32) -> (r: bool)
    requires
        in_decimal_range(a_mantissa as int, a_scale as int),
        in_decimal_range(b_mantissa as int, b_scale as int),
    ensures
        r == (a_mantissa * pow10(b_scale as nat) < b_mantissa * pow10(a_scale as nat)),
{
    Decimal::from_i128_with_scale(a_mantissa, a_scale) < Decimal::from_i128_with_scale(b_mantissa, b_scale)
}

/// Calls `<Decimal as PartialEq>::eq` on `a_mantissa / 10^a_scale` and `b_mantissa / 10^b_scale`.
/// The contract claims that two decimals are equal when the exact values they denote are.
#[verifier::external_body]
fn decimal_eq(a_mantissa: i128, a_scale: u32, b_mantissa: i128, b_scale: u32) -> (r: bool)
    requires
        in_decimal_range(a_mantissa as int, a_scale as int),
        in_decimal_range(b_mantissa as int, b_scale as int),
    ensures
        r == (a_mantissa * pow10(b_scale as nat) == b_mantissa * pow10(a_scale as nat)),
{
    Decimal::from_i128_with_scale(a_mantissa, a_scale) == Decimal::from_i128_with_scale(b_mantissa, b_scale)
}

/// Calls `Decimal::checked_sub` on `a_mantissa / 10^a_scale` and `b_mantissa / 10^b_scale` and
/// returns the mantissa and scale of the result.
/// The contract names the result `decimal_difference` and claims: a result lies in the range of
/// a decimal; a difference whose exact value lies in that range does not overflow; and for
/// operands of one scale, a difference of mantissas within 96 bits is exact at that scale.
/// It leaves unsaid how a difference is rounded where its exact value needs more digits.
#[verifier::external_body]
fn decimal_checked_sub(a_mantissa: i128, a_scale: u32, b_mantissa: i128, b_scale: u32) -> (r: Option<(i128, u32)>)
    requires
        in_decimal_range(a_mantissa as int, a_scale as int),
        in_decimal_range(b_mantissa as int, b_scale as int),
    ensures
        r matches Some((m, s)) ==> in_decimal_range(m as int, s as int),
        decimal_difference(a_mantissa as int, a_scale as int, b_mantissa as int, b_scale as int) == (
        match r {
            Some((m, s)) => Some((m as int, s as int)),
            None => None,
        }),
        ({
            let scaled = pow10(a_scale as nat) * pow10(b_scale as nat);
            let diff = a_mantissa * pow10(b_scale as nat) - b_mantissa * pow10(a_scale as nat);
            -MAX_MANTISSA * scaled <= diff <= MAX_MANTISSA * scaled
        }) ==> r is Some,
        a_scale == b_scale && in_decimal_range(a_mantissa - b_mantissa, a_scale as int) ==> r
            == Some(((a_mantissa - b_mantissa) as i128, a_scale)),
{
    let a = Decimal::from_i128_with_scale(a_mantissa, a_scale);
    let b = Decimal::from_i128_with_scale(b_mantissa, b_scale);
    match a.checked_sub(b) {
        Some(d) => Some((d.mantissa(), d.scale())),
        None => None,
    }
}

impl PartialEq for DecimalValue {
    fn eq(&self, other: &DecimalValue) -> (r: bool) {
        proof {
            use_type_invariant(self);
            use_type_invariant(other);
        }
        decimal_eq(self.mantissa, self.scale, other.mantissa, other.scale)
    }
}

impl vstd::std_specs::cmp::PartialEqSpecImpl for DecimalValue {
    open spec fn obeys_eq_spec() -> bool {
        true
    }

    open spec fn eq_spec(&self, other: &DecimalValue) -> bool {
        value_eq(*self, *other)
    }
}

impl Eq for DecimalValue {

}

/// Cross-multiplied comparisons chain: from `x/p < y/q` and `y/q < z/r` follows `x/p < z/r`
/// (each fraction written as `mantissa / power`).
proof fn lemma_cross_lt_trans(x: int, y: int, z: int, p: int, q: int, r: int)
    requires
        p > 0,
        q > 0,
        r > 0,
        x * q < y * p,
        y * r < z * q,
    ensures
        x * r < z * p,
{
    assert(x * q * r < y * p * r) by (nonlinear_arith)
        requires
            x * q < y * p,
            r > 0,
    ;
    assert(y * r * p < z * q * p) by (nonlinear_arith)
        requires
            y * r < z * q,
            p > 0,
    ;
    assert(x * r * q < z * p * q) by (nonlinear_arith)
        requires
            x * q * r < y * p * r,
            y * r * p < z * q * p,
    ;
    assert(x * r < z * p) by (nonlinear_arith)
        requires
            x * r * q < z * p * q,
            q > 0,
    ;
}

/// Cross-multiplied equalities chain.
proof fn lemma_cross_eq_trans(x: int, y: int, z: int, p: int, q: int, r: int)
    requires
        p > 0,
        q > 0,
        r > 0,
        x * q == y * p,
        y * r == z * q,
    ensures
        x * r == z * p,
{
    assert(x * r * q == z * p * q) by (nonlinear_arith)
        requires
            x * q == y * p,
            y * r == z * q,
    ;
    assert(x * r == z * p) by (nonlinear_arith)
        requires
            x * r * q == z * p * q,
            q > 0,
    ;
}

/// An equality followed by a strict inequality, cross-multiplied.
proof fn lemma_cross_eq_lt(x: int, y: int, z: int, p: int, q: int, r: int)
    requires
        p > 0,
        q > 0,
        r > 0,
        x * q == y * p,
        y * r < z * q,
    ensures
        x * r < z * p,
{
    assert(x * r * q < z * p * q) by (nonlinear_arith)
        requires
            x * q == y * p,
            y * r < z * q,
            p > 0,
            r > 0,
    ;
    assert(x * r < z * p) by (nonlinear_arith)
        requires
            x * r * q < z * p * q,
            q > 0,
    ;
}

/// A strict inequality followed by an equality, cross-multiplied.
proof fn lemma_cross_lt_eq(x: int, y: int, z: int, p: int, q: int, r: int)
    requires
        p > 0,
        q > 0,
        r > 0,
        x * q < y * p,
        y * r == z * q,
    ensures
        x * r < z * p,
{
    assert(x * r * q < z * p * q) by (nonlinear_arith)
        requires
            x * q < y * p,
            y * r == z * q,
            p > 0,
            r > 0,
    ;
    assert(x * r < z * p) by (nonlinear_arith)
        requires
            x * r * q < z * p * q,
            q > 0,
    ;
}

/// Ordering by value is transitive.
pub proof fn lemma_value_lt_trans(a: DecimalValue, b: DecimalValue, c: DecimalValue)
    requires
        value_lt(a, b),
        value_lt(b, c),
    ensures
        value_lt(a, c),
{
    lemma_pow_positive(10, a.scale_spec());
    lemma_pow_positive(10, b.scale_spec());
    lemma_pow_positive(10, c.scale_spec());
    lemma_cross_lt_trans(
        a.mantissa_spec(),
        b.mantissa_spec(),
        c.mantissa_spec(),
        pow10(a.scale_spec()),
        pow10(b.scale_spec()),
        pow10(c.scale_spec()),
    );
}

/// Equality by value is transitive.
pub proof fn lemma_value_eq_trans(a: DecimalValue, b: DecimalValue, c: DecimalValue)
    requires
        value_eq(a, b),
        value_eq(b, c),
    ensures
        value_eq(a, c),
{
    lemma_pow_positive(10, a.scale_spec());
    lemma_pow_positive(10, b.scale_spec());
    lemma_pow_positive(10, c.scale_spec());
    lemma_cross_eq_trans(
        a.mantissa_spec(),
        b.mantissa_spec(),
        c.mantissa_spec(),
        pow10(a.scale_spec()),
        pow10(b.scale_spec()),
        pow10(c.scale_spec()),
    );
}

/// A value equal to `b` is below everything above `b`.
pub proof fn lemma_value_eq_lt(a: DecimalValue, b: DecimalValue, c: DecimalValue)
    requires
        value_eq(a, b),
        value_lt(b, c),
    ensures
        value_lt(a, c),
{
    lemma_pow_positive(10, a.scale_spec());
    lemma_pow_positive(10, b.scale_spec());
    lemma_pow_positive(10, c.scale_spec());
    lemma_cross_eq_lt(
        a.mantissa_spec(),
        b.mantissa_spec(),
        c.mantissa_spec(),
        pow10(a.scale_spec()),
        pow10(b.scale_spec()),
        pow10(c.scale_spec()),
    );
}

/// A value below `b` is below everything equal to `b`.
pub proof fn lemma_value_lt_eq(a: DecimalValue, b: DecimalValue, c: DecimalValue)
    requires
        value_lt(a, b),
        value_eq(b, c),
    ensures
        value_lt(a, c),
{
    lemma_pow_positive(10, a.scale_spec());
    lemma_pow_positive(10, b.scale_spec());
    lemma_pow_positive(10, c.scale_spec());
    lemma_cross_lt_eq(
        a.mantissa_spec(),
        b.mantissa_spec(),
        c.mantissa_spec(),
        pow10(a.scale_spec()),
        pow10(b.scale_spec()),
        pow10(c.scale_spec()),
    );
}

/// The integer part of a decimal's value, rounded down.
pub open spec fn key_floor(d: DecimalValue) -> int {
    d.mantissa_spec() / pow10(d.scale_spec())
}

/// The fractional part of a decimal's value, `0 <= f < 1`, in units of `10^-MAX_SCALE`.
pub open spec fn key_frac(d: DecimalValue) -> int {
    (d.mantissa_spec() % pow10(d.scale_spec())) * pow10((MAX_SCALE - d.scale_spec()) as nat)
}

/// A decimal's ordering key: its value written as an integer part and a fraction at the
/// finest scale. Keys in lexicographic order are decimals in order of value.
pub open spec fn ordering_key(d: DecimalValue) -> (int, int) {
    (key_floor(d), key_frac(d))
}

/// Lexicographic order on pairs of integers.
pub open spec fn key_lt(a: (int, int), b: (int, int)) -> bool {
    a.0 < b.0 || (a.0 == b.0 && a.1 < b.1)
}

/// `10^e` for `e <= MAX_SCALE`.
fn pow10_u128(e: u32) -> (r: u128)
    requires
        e <= MAX_SCALE,
    ensures
        r == pow10(e as nat),
{
    let mut r: u128 = 1;
    let mut i: u32 = 0;
    proof {
        reveal_with_fuel(pow, 1);
    }
    while i < e
        invariant
            i <= e <= MAX_SCALE,
            r == pow10(i as nat),
        decreases e - i,
    {
        proof {
            lemma_pow_increases(10, i as nat, 27);
            reveal_with_fuel(pow, 28);
            assert(pow10(27) == 1000000000000000000000000000int);
            reveal_with_fuel(pow, 1);
            assert(pow10((i + 1) as nat) == 10 * pow10(i as nat));
        }
        r = r * 10;
        i += 1;
    }
    r
}

/// `x = f * t + r` with `0 <= r < t` orders as the pair `(f, r)`.
proof fn lemma_lex(fa: int, xa: int, fb: int, xb: int, t: int)
    requires
        t > 0,
        0 <= xa < t,
        0 <= xb < t,
    ensures
        (fa * t + xa < fb * t + xb) <==> key_lt((fa, xa), (fb, xb)),
        (fa * t + xa == fb * t + xb) <==> (fa == fb && xa == xb),
{
    if fa < fb {
        assert(fa * t + t <= fb * t) by (nonlinear_arith)
            requires
                fa < fb,
                t > 0,
        ;
    } else if fb < fa {
        assert(fb * t + t <= fa * t) by (nonlinear_arith)
            requires
                fb < fa,
                t > 0,
        ;
    }
}

/// Multiplying by a positive number keeps order and equality.
proof fn lemma_scale(x: int, y: int, c: int)
    requires
        c > 0,
    ensures
        (x * c < y * c) <==> (x < y),
        (x * c == y * c) <==> (x == y),
{
    if x < y {
        assert(x * c < y * c) by (nonlinear_arith)
            requires
                x < y,
                c > 0,
        ;
    } else if y < x {
        assert(y * c < x * c) by (nonlinear_arith)
            requires
                y < x,
                c > 0,
        ;
    }
}

/// A decimal brought to the finest scale is its key's integer part times `10^MAX_SCALE`
/// plus its key's fraction, which lies in `[0, 10^MAX_SCALE)`.
proof fn lemma_key_parts(d: DecimalValue)
    requires
        d.scale_spec() <= MAX_SCALE,
    ensures
        d.mantissa_spec() * pow10((MAX_SCALE - d.scale_spec()) as nat) == key_floor(d) * pow10(
            MAX_SCALE as nat,
        ) + key_frac(d),
        0 <= key_frac(d) < pow10(MAX_SCALE as nat),
{
    let s = d.scale_spec();
    let m = d.mantissa_spec();
    let p = pow10(s);
    let q = pow10((MAX_SCALE - s) as nat);
    let t = pow10(MAX_SCALE as nat);
    lemma_pow_positive(10, s);
    lemma_pow_positive(10, (MAX_SCALE - s) as nat);
    lemma_pow_adds(10, s, (MAX_SCALE - s) as nat);
    assert(p * q == t);
    lemma_fundamental_div_mod(m, p);
    let f = m / p;
    let r = m % p;
    assert(0 <= r < p);
    assert(m * q == f * t + r * q) by (nonlinear_arith)
        requires
            m == p * f + r,
            p * q == t,
    ;
    assert(0 <= r * q < t) by (nonlinear_arith)
        requires
            0 <= r < p,
            q > 0,
            p * q == t,
    ;
}

/// Decimals are ordered by value exactly as their keys are ordered, and equal in value
/// exactly when their keys are equal.
pub proof fn lemma_ordering_key(a: DecimalValue, b: DecimalValue)
    requires
        a.scale_spec() <= MAX_SCALE,
        b.scale_spec() <= MAX_SCALE,
    ensures
        value_lt(a, b) <==> key_lt(ordering_key(a), ordering_key(b)),
        value_eq(a, b) <==> ordering_key(a) == ordering_key(b),
{
    let qa = pow10((MAX_SCALE - a.scale_spec()) as nat);
    let qb = pow10((MAX_SCALE - b.scale_spec()) as nat);
    let pa = pow10(a.scale_spec());
    let pb = pow10(b.scale_spec());
    let t = pow10(MAX_SCALE as nat);
    lemma_pow_positive(10, (MAX_SCALE - a.scale_spec()) as nat);
    lemma_pow_positive(10, (MAX_SCALE - b.scale_spec()) as nat);
    lemma_pow_adds(10, a.scale_spec(), (MAX_SCALE - a.scale_spec()) as nat);
    lemma_pow_adds(10, b.scale_spec(), (MAX_SCALE - b.scale_spec()) as nat);
    lemma_pow_positive(10, MAX_SCALE as nat);
    lemma_key_parts(a);
    lemma_key_parts(b);
    let ma = a.mantissa_spec();
    let mb = b.mantissa_spec();
    let big_a = ma * qa;
    let big_b = mb * qb;
    // cross(a, b) * (qa * qb) == big_a * t, and likewise for b.
    assert(cross(a, b) * (qa * qb) == big_a * t) by (nonlinear_arith)
        requires
            cross(a, b) == ma * pb,
            pb * qb == t,
            big_a == ma * qa,
    ;
    assert(cross(b, a) * (qa * qb) == big_b * t) by (nonlinear_arith)
        requires
            cross(b, a) == mb * pa,
            pa * qa == t,
            big_b == mb * qb,
    ;
    assert(qa * qb > 0) by (nonlinear_arith)
        requires
            qa > 0,
            qb > 0,
    ;
    lemma_scale(cross(a, b), cross(b, a), qa * qb);
    lemma_scale(big_a, big_b, t);
    lemma_lex(key_floor(a), key_frac(a), key_floor(b), key_frac(b), t);
}

impl DecimalValue {
    /// The decimal's ordering key (see `ordering_key`), as machine integers.
    pub fn key(&self) -> (r: (i128, u128))
        ensures
            r.0 == key_floor(*self),
            r.1 == key_frac(*self),
            self.scale_spec() <= MAX_SCALE,
    {
        proof {
            use_type_invariant(self);
        }
        let m = self.mantissa;
        let s = self.scale;
        let p = pow10_u128(s);
        let q = pow10_u128(MAX_SCALE - s);
        let a: u128 = if m >= 0 {
            m as u128
        } else {
            (-m) as u128
        };
        proof {
            lemma_pow_positive(10, s as nat);
            lemma_pow_positive(10, (MAX_SCALE - s) as nat);
        }
        let whole = a / p;
        let rest = a % p;
        proof {
            lemma_pow_adds(10, s as nat, (MAX_SCALE - s) as nat);
            reveal_with_fuel(pow, 30);
            assert(pow(10, 28) == 10000000000000000000000000000int);
            assert(MAX_SCALE as nat == 28);
            lemma_fundamental_div_mod(a as int, p as int);
            assert(whole <= a);
            assert(rest * q < p * q) by (nonlinear_arith)
                requires
                    rest < p,
                    q > 0,
            ;
        }
        if m >= 0 {
            proof {
                lemma_fundamental_div_mod_converse(m as int, p as int, whole as int, rest as int);
            }
            (whole as i128, rest * q)
        } else if rest == 0 {
            proof {
                assert(m == (-(whole as int)) * p + 0) by (nonlinear_arith)
                    requires
                        a == p * whole + rest,
                        rest == 0,
                        m == -a,
                ;
                lemma_fundamental_div_mod_converse(m as int, p as int, -(whole as int), 0);
            }
            (-(whole as i128), 0)
        } else {
            proof {
                assert(m == (-(whole as int) - 1) * p + (p - rest)) by (nonlinear_arith)
                    requires
                        a == p * whole + rest,
                        m == -a,
                ;
                lemma_fundamental_div_mod_converse(
                    m as int,
                    p as int,
                    -(whole as int) - 1,
                    (p - rest) as int,
                );
                assert((p - rest) * q < p * q) by (nonlinear_arith)
                    requires
                        0 < rest < p,
                        q > 0,
                ;
            }
            (-(whole as i128) - 1, (p - rest) * q)
        }
    }
}

} // verus!
