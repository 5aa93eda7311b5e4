//! Fixed-precision decimal numbers: a sign, a 96-bit magnitude and a scale,
//! standing for `magnitude / 10^scale`. The arithmetic is `rust_decimal`'s.

use vstd::prelude::*;
use crate::text::{digit_char, numeral};

verus! {

/// The largest magnitude a decimal can hold: `2^96 - 1`.
pub const MAX_MAGNITUDE: u128 = 0xFFFF_FFFF_FFFF_FFFF_FFFF_FFFF;

/// The largest scale a decimal can hold.
pub const MAX_SCALE: u32 = 28;

/// What a decimal holds: it stands for `±magnitude / 10^scale`.
pub struct DecimalView {
    pub negative: bool,
    pub magnitude: nat,
    pub scale: nat,
}

impl DecimalView {
    /// The magnitude fits in 96 bits and the scale is at most 28.
    pub open spec fn in_range(self) -> bool {
        self.magnitude <= MAX_MAGNITUDE && self.scale <= MAX_SCALE
    }
}

/// `10^n`.
pub open spec fn pow10(n: nat) -> nat
    decreases n,
{
    if n == 0 {
        1
    } else {
        10 * pow10((n - 1) as nat)
    }
}

/// `d` rounded to at most `places` fractional digits, a tie going to the even
/// neighbour. A decimal that already has no more than `places` fractional
/// digits is unchanged; otherwise the result has scale `places`, and a
/// non-zero decimal that rounds to zero loses its sign.
pub open spec fn rounded(d: DecimalView, places: nat) -> DecimalView {
    if d.scale <= places {
        d
    } else if d.magnitude == 0 {
        DecimalView { negative: d.negative, magnitude: 0, scale: places }
    } else {
        let unit = pow10((d.scale - places) as nat);
        let kept = d.magnitude / unit;
        let rest = d.magnitude % unit;
        let up = 2 * rest > unit || (2 * rest == unit && kept % 2 == 1);
        let magnitude = if up { kept + 1 } else { kept };
        DecimalView { negative: d.negative && magnitude != 0, magnitude, scale: places }
    }
}

/// The last `count` digits of `n`, with zeros in front where `n` has fewer.
pub open spec fn last_digits(n: nat, count: nat) -> Seq<char>
    decreases count,
{
    if count == 0 {
        Seq::empty()
    } else {
        last_digits(n / 10, (count - 1) as nat).push(digit_char(n % 10))
    }
}

/// The decimal with this sign, magnitude and scale, written out: `-` for a
/// negative sign, of zero too; the whole part without leading zeros, `0` where
/// there is none; and, where the scale is not zero, a point and as many
/// digits as the scale says.
pub open spec fn decimal_text(negative: bool, magnitude: nat, scale: nat) -> Seq<char> {
    let unit = pow10(scale);
    let sign = if negative {
        seq!['-']
    } else {
        Seq::empty()
    };
    let fraction = if scale == 0 {
        Seq::empty()
    } else {
        seq!['.'] + last_digits(magnitude % unit, scale)
    };
    sign + numeral(magnitude / unit) + fraction
}

/// The sign, magnitude and scale of the product that `rust_decimal` computes
/// for two decimals where it cannot hold the product digit for digit, or
/// `None` where it reports an overflow.
pub uninterp spec fn decimal_product(
    negative: bool,
    magnitude: nat,
    scale: nat,
    by_negative: bool,
    by_magnitude: nat,
    by_scale: nat,
) -> Option<(bool, nat, nat)>;

/// The sign, magnitude and scale of the sum that `rust_decimal` computes for
/// two decimals, or `None` where it reports an overflow.
pub uninterp spec fn decimal_sum(
    negative: bool,
    magnitude: nat,
    scale: nat,
    plus_negative: bool,
    plus_magnitude: nat,
    plus_scale: nat,
) -> Option<(bool, nat, nat)>;

/// The sign, magnitude and scale of the quotient that `rust_decimal` computes
/// for two decimals, or `None` where it reports an overflow or a division by
/// zero.
pub uninterp spec fn decimal_quotient(
    negative: bool,
    magnitude: nat,
    scale: nat,
    by_negative: bool,
    by_magnitude: nat,
    by_scale: nat,
) -> Option<(bool, nat, nat)>;

/// The view of what an arithmetic operation hands back.
pub open spec fn view_of(parts: Option<(bool, nat, nat)>) -> Option<DecimalView> {
    match parts {
        Some((negative, magnitude, scale)) => Some(DecimalView { negative, magnitude, scale }),
        None => None,
    }
}

/// The product of two decimals where it can be held digit for digit: zero
/// where one of them is zero; else the product of the magnitudes with the
/// sum of the scales, where the one fits in 96 bits and the other is at most
/// 28.
pub open spec fn exact_product(a: DecimalView, b: DecimalView) -> Option<DecimalView> {
    if a.magnitude == 0 || b.magnitude == 0 {
        Some(DecimalView { negative: false, magnitude: 0, scale: 0 })
    } else if a.magnitude * b.magnitude <= MAX_MAGNITUDE && a.scale + b.scale <= MAX_SCALE {
        Some(
            DecimalView {
                negative: a.negative != b.negative,
                magnitude: a.magnitude * b.magnitude,
                scale: a.scale + b.scale,
            },
        )
    } else {
        None
    }
}

/// The product of two decimals: digit for digit where it can be held so,
/// and else as `rust_decimal` rounds it.
pub open spec fn product(a: DecimalView, b: DecimalView) -> Option<DecimalView> {
    match exact_product(a, b) {
        Some(p) => Some(p),
        None => view_of(
            decimal_product(a.negative, a.magnitude, a.scale, b.negative, b.magnitude, b.scale),
        ),
    }
}

/// The sum of two decimals, as `rust_decimal` computes it.
pub open spec fn sum(a: DecimalView, b: DecimalView) -> Option<DecimalView> {
    view_of(decimal_sum(a.negative, a.magnitude, a.scale, b.negative, b.magnitude, b.scale))
}

/// The quotient of two decimals, as `rust_decimal` computes it.
pub open spec fn quotient(a: DecimalView, b: DecimalView) -> Option<DecimalView> {
    view_of(decimal_quotient(a.negative, a.magnitude, a.scale, b.negative, b.magnitude, b.scale))
}

/// The text of a decimal.
pub open spec fn text(d: DecimalView) -> Seq<char> {
    decimal_text(d.negative, d.magnitude, d.scale)
}

/// One hundred, with scale 0.
pub open spec fn hundred() -> DecimalView {
    DecimalView { negative: false, magnitude: 100, scale: 0 }
}

/// Calls `rust_decimal::Decimal::round_dp`. It is taken to give `rounded` of
/// what goes in: a decimal of at most `places` fractional digits as it is,
/// any other cut to `places` digits with a tie going to the even neighbour; a
/// zero keeps its sign, and what becomes zero loses it.
#[verifier::external_body]
fn round_parts(negative: bool, magnitude: u128, scale: u32, places: u32) -> (r: (bool, u128, u32))
    requires
        magnitude <= MAX_MAGNITUDE,
        scale <= MAX_SCALE,
    ensures
        (DecimalView { negative: r.0, magnitude: r.1 as nat, scale: r.2 as nat }) == rounded(
            DecimalView { negative, magnitude: magnitude as nat, scale: scale as nat },
            places as nat,
        ),
{
    let mut d = rust_decimal::Decimal::from_i128_with_scale(magnitude as i128, scale);
    d.set_sign_negative(negative);
    let r = d.round_dp(places);
    (r.is_sign_negative(), r.mantissa().unsigned_abs(), r.scale())
}

/// Calls `to_string` on a `rust_decimal::Decimal`, which prints it through
/// its `Display` impl. It is taken to write the decimal out as `decimal_text`
/// says: the sign, the whole part, and behind a point every digit of the
/// scale.
#[verifier::external_body]
fn text_of_parts(negative: bool, magnitude: u128, scale: u32) -> (s: String)
    requires
        magnitude <= MAX_MAGNITUDE,
        scale <= MAX_SCALE,
    ensures
        s@ == decimal_text(negative, magnitude as nat, scale as nat),
{
    let mut d = rust_decimal::Decimal::from_i128_with_scale(magnitude as i128, scale);
    d.set_sign_negative(negative);
    d.to_string()
}

/// What the outside arithmetic handed back, as the view it stands for.
pub open spec fn parts_view(r: Option<(bool, u128, u32)>) -> Option<(bool, nat, nat)> {
    match r {
        Some((negative, magnitude, scale)) => Some((negative, magnitude as nat, scale as nat)),
        None => None,
    }
}

/// Every decimal that the outside arithmetic hands back is in range.
pub open spec fn parts_in_range(r: Option<(bool, u128, u32)>) -> bool {
    match r {
        Some((_, magnitude, scale)) => magnitude <= MAX_MAGNITUDE && scale <= MAX_SCALE,
        None => true,
    }
}

/// Calls `rust_decimal::Decimal::checked_mul`, which gives `None` on
/// overflow. It is taken to give zero with scale 0 where one of the two is
/// zero, and the product of the magnitudes with the sum of the scales where
/// these can be held. Of any other product nothing is claimed but that it is
/// the same whenever the two decimals are the same, and that it is a
/// decimal: its magnitude fits in 96 bits and its scale is at most 28.
#[verifier::external_body]
fn multiply_parts(
    negative: bool,
    magnitude: u128,
    scale: u32,
    by_negative: bool,
    by_magnitude: u128,
    by_scale: u32,
) -> (r: Option<(bool, u128, u32)>)
    requires
        magnitude <= MAX_MAGNITUDE,
        scale <= MAX_SCALE,
        by_magnitude <= MAX_MAGNITUDE,
        by_scale <= MAX_SCALE,
    ensures
        match exact_product(
            DecimalView { negative, magnitude: magnitude as nat, scale: scale as nat },
            DecimalView {
                negative: by_negative,
                magnitude: by_magnitude as nat,
                scale: by_scale as nat,
            },
        ) {
            Some(p) => view_of(parts_view(r)) == Some(p),
            None => parts_view(r) == decimal_product(
                negative,
                magnitude as nat,
                scale as nat,
                by_negative,
                by_magnitude as nat,
                by_scale as nat,
            ),
        },
        parts_in_range(r),
{
    let mut a = rust_decimal::Decimal::from_i128_with_scale(magnitude as i128, scale);
    a.set_sign_negative(negative);
    let mut b = rust_decimal::Decimal::from_i128_with_scale(by_magnitude as i128, by_scale);
    b.set_sign_negative(by_negative);
    match a.checked_mul(b) {
        Some(r) => Some((r.is_sign_negative(), r.mantissa().unsigned_abs(), r.scale())),
        None => None,
    }
}

/// Calls `rust_decimal::Decimal::checked_add`, which gives `None` on
/// overflow. Nothing is claimed of the sum but that it is the same whenever
/// the two decimals are the same, and that it is a decimal: its magnitude
/// fits in 96 bits and its scale is at most 28.
#[verifier::external_body]
fn add_parts(
    negative: bool,
    magnitude: u128,
    scale: u32,
    plus_negative: bool,
    plus_magnitude: u128,
    plus_scale: u32,
) -> (r: Option<(bool, u128, u32)>)
    requires
        magnitude <= MAX_MAGNITUDE,
        scale <= MAX_SCALE,
        plus_magnitude <= MAX_MAGNITUDE,
        plus_scale <= MAX_SCALE,
    ensures
        parts_view(r) == decimal_sum(
            negative,
            magnitude as nat,
            scale as nat,
            plus_negative,
            plus_magnitude as nat,
            plus_scale as nat,
        ),
        parts_in_range(r),
{
    let mut a = rust_decimal::Decimal::from_i128_with_scale(magnitude as i128, scale);
    a.set_sign_negative(negative);
    let mut b = rust_decimal::Decimal::from_i128_with_scale(plus_magnitude as i128, plus_scale);
    b.set_sign_negative(plus_negative);
    match a.checked_add(b) {
        Some(r) => Some((r.is_sign_negative(), r.mantissa().unsigned_abs(), r.scale())),
        None => None,
    }
}

/// Calls `rust_decimal::Decimal::checked_div`, which gives `None` on
/// overflow and for a zero divisor. Nothing is claimed of the quotient but
/// that it is the same whenever the two decimals are the same, and that it
/// is a decimal: its magnitude fits in 96 bits and its scale is at most 28.
#[verifier::external_body]
fn divide_parts(
    negative: bool,
    magnitude: u128,
    scale: u32,
    by_negative: bool,
    by_magnitude: u128,
    by_scale: u32,
) -> (r: Option<(bool, u128, u32)>)
    requires
        magnitude <= MAX_MAGNITUDE,
        scale <= MAX_SCALE,
        by_magnitude <= MAX_MAGNITUDE,
        by_scale <= MAX_SCALE,
    ensures
        parts_view(r) == decimal_quotient(
            negative,
            magnitude as nat,
            scale as nat,
            by_negative,
            by_magnitude as nat,
            by_scale as nat,
        ),
        parts_in_range(r),
{
    let mut a = rust_decimal::Decimal::from_i128_with_scale(magnitude as i128, scale);
    a.set_sign_negative(negative);
    let mut b = rust_decimal::Decimal::from_i128_with_scale(by_magnitude as i128, by_scale);
    b.set_sign_negative(by_negative);
    match a.checked_div(b) {
        Some(r) => Some((r.is_sign_negative(), r.mantissa().unsigned_abs(), r.scale())),
        None => None,
    }
}

/// A decimal number `±magnitude / 10^scale` with a magnitude below `2^96` and a
/// scale of at most 28.
#[derive(Clone, Copy, Debug)]
pub struct Decimal {
    negative: bool,
    magnitude: u128,
    scale: u32,
}

impl View for Decimal {
    type V = DecimalView;

    closed spec fn view(&self) -> DecimalView {
        DecimalView {
            negative: self.negative,
            magnitude: self.magnitude as nat,
            scale: self.scale as nat,
        }
    }
}

impl Decimal {
    #[verifier::type_invariant]
    spec fn in_range(self) -> bool {
        self.magnitude <= MAX_MAGNITUDE && self.scale <= MAX_SCALE
    }

    /// The decimal `num / 10^scale`.
    pub fn new(num: i64, scale: u32) -> (d: Decimal)
        requires
            scale <= MAX_SCALE,
        ensures
            d@ == (DecimalView {
                negative: num < 0,
                magnitude: (if num < 0 { -num } else { num as int }) as nat,
                scale: scale as nat,
            }),
    {
        let magnitude: u128 = if num < 0 {
            (-(num as i128)) as u128
        } else {
            num as u128
        };
        Decimal { negative: num < 0, magnitude, scale }
    }

    /// The decimal with this sign, magnitude and scale, if they are in range.
    pub fn from_parts(negative: bool, magnitude: u128, scale: u32) -> (d: Option<Decimal>)
        ensures
            d is Some <==> magnitude <= MAX_MAGNITUDE && scale <= MAX_SCALE,
            d matches Some(x) ==> x@ == (DecimalView {
                negative,
                magnitude: magnitude as nat,
                scale: scale as nat,
            }),
    {
        if magnitude <= MAX_MAGNITUDE && scale <= MAX_SCALE {
            Some(Decimal { negative, magnitude, scale })
        } else {
            None
        }
    }

    /// Whether the sign is negative. Zero has a sign too.
    pub fn is_sign_negative(&self) -> (negative: bool)
        ensures
            negative == self@.negative,
    {
        self.negative
    }

    /// The digits of the decimal as a number, without the sign.
    pub fn magnitude(&self) -> (magnitude: u128)
        ensures
            magnitude == self@.magnitude,
            magnitude <= MAX_MAGNITUDE,
    {
        proof {
            use_type_invariant(self);
        }
        self.magnitude
    }

    /// How many of the digits stand behind the decimal point.
    pub fn scale(&self) -> (scale: u32)
        ensures
            scale == self@.scale,
            scale <= MAX_SCALE,
    {
        proof {
            use_type_invariant(self);
        }
        self.scale
    }

    /// Whether the decimal is zero, of either sign and any scale.
    pub fn is_zero(&self) -> (zero: bool)
        ensures
            zero == (self@.magnitude == 0),
    {
        self.magnitude == 0
    }

    /// This decimal rounded half to even to at most `places` fractional digits.
    pub fn round_dp(&self, places: u32) -> (r: Decimal)
        ensures
            r@ == rounded(self@, places as nat),
    {
        proof {
            use_type_invariant(self);
            lemma_rounded_in_range(self@, places as nat);
        }
        let (negative, magnitude, scale) = round_parts(self.negative, self.magnitude, self.scale, places);
        Decimal { negative, magnitude, scale }
    }

    /// The product of this decimal and `by`, or `None` on overflow.
    pub fn checked_mul(&self, by: &Decimal) -> (r: Option<Decimal>)
        ensures
            r is Some <==> product(self@, by@) is Some,
            r matches Some(p) ==> Some(p@) == product(self@, by@),
    {
        proof {
            use_type_invariant(self);
            use_type_invariant(by);
        }
        match multiply_parts(self.negative, self.magnitude, self.scale, by.negative, by.magnitude, by.scale) {
            Some((negative, magnitude, scale)) => Some(Decimal { negative, magnitude, scale }),
            None => None,
        }
    }

    /// The sum of this decimal and `plus`, or `None` on overflow.
    pub fn checked_add(&self, plus: &Decimal) -> (r: Option<Decimal>)
        ensures
            r is Some <==> sum(self@, plus@) is Some,
            r matches Some(p) ==> Some(p@) == sum(self@, plus@),
    {
        proof {
            use_type_invariant(self);
            use_type_invariant(plus);
        }
        match add_parts(self.negative, self.magnitude, self.scale, plus.negative, plus.magnitude, plus.scale) {
            Some((negative, magnitude, scale)) => Some(Decimal { negative, magnitude, scale }),
            None => None,
        }
    }

    /// The quotient of this decimal by `by`, or `None` on overflow or where
    /// `by` is zero.
    pub fn checked_div(&self, by: &Decimal) -> (r: Option<Decimal>)
        ensures
            r is Some <==> quotient(self@, by@) is Some,
            r matches Some(p) ==> Some(p@) == quotient(self@, by@),
    {
        proof {
            use_type_invariant(self);
            use_type_invariant(by);
        }
        match divide_parts(self.negative, self.magnitude, self.scale, by.negative, by.magnitude, by.scale) {
            Some((negative, magnitude, scale)) => Some(Decimal { negative, magnitude, scale }),
            None => None,
        }
    }

    /// The decimal as text.
    pub fn to_string(&self) -> (s: String)
        ensures
            s@ == text(self@),
    {
        proof {
            use_type_invariant(self);
        }
        text_of_parts(self.negative, self.magnitude, self.scale)
    }
}

/// Rounding never leaves the range: the magnitude does not grow beyond the
/// one it started from and the scale does not grow.
pub proof fn lemma_rounded_in_range(d: DecimalView, places: nat)
    requires
        d.in_range(),
    ensures
        rounded(d, places).in_range(),
{
    if d.scale > places && d.magnitude != 0 {
        let unit = pow10((d.scale - places) as nat);
        lemma_pow10_at_least_ten((d.scale - places) as nat);
        let kept = d.magnitude / unit;
        assert(kept + 1 <= d.magnitude) by (nonlinear_arith)
            requires
                kept == d.magnitude / unit,
                unit >= 10,
                d.magnitude >= 1,
        ;
    }
}

/// A power of ten above the first is ten at least.
proof fn lemma_pow10_at_least_ten(n: nat)
    requires
        n >= 1,
    ensures
        pow10(n) >= 10,
    decreases n,
{
    if n > 1 {
        lemma_pow10_at_least_ten((n - 1) as nat);
    } else {
        assert(pow10(1) == 10 * pow10(0));
    }
}

} // verus!
