//! Points of a curve over the extension of degree seven.
use vstd::prelude::*;
use crate::field::{Field, PrimeField32};

verus! {

/// The order of the BabyBear field less one.
pub const BABY_BEAR_LAST: u64 = 2013265920;

/// The field is BabyBear: the order less one is the opposite of one.
pub open spec fn is_baby_bear_field<F: Field>() -> bool {
    F::from_int(BABY_BEAR_LAST as int) == F::one_elem().opposite()
}

/// Whether the field is BabyBear.
pub fn is_baby_bear<F: Field>() -> (r: bool)
    ensures
        r == is_baby_bear_field::<F>(),
{
    F::from_u64(BABY_BEAR_LAST).is_equal(&F::one().neg())
}

/// A polynomial of degree below seven in a root of `z^7 - m z - 5`, from its constant. The factor
/// `m` is two over BabyBear and three over KoalaBear.
#[derive(Clone, Copy, Debug, PartialEq, Eq, Hash)]
pub struct SepticExtension<F>(pub [F; 7]);

/// A point by its two coordinates.
#[derive(Clone, Copy, Debug, PartialEq, Eq, Hash)]
pub struct SepticCurve<F> {
    pub x: SepticExtension<F>,
    pub y: SepticExtension<F>,
}

impl<F> View for SepticExtension<F> {
    type V = Seq<F>;

    open spec fn view(&self) -> Seq<F> {
        self.0@
    }
}

/// A point by its two coordinates, mathematically.
#[verifier::ext_equal]
pub struct Point<F> {
    pub x: Seq<F>,
    pub y: Seq<F>,
}

impl<F> View for SepticCurve<F> {
    type V = Point<F>;

    open spec fn view(&self) -> Point<F> {
        Point { x: self.x@, y: self.y@ }
    }
}

/// The factor of `z` in `z^7`.
pub open spec fn linear_factor<F: Field>() -> F {
    if is_baby_bear_field::<F>() {
        F::from_int(2)
    } else {
        F::from_int(3)
    }
}

/// The sum of the first `upto` products that make up the coefficient of `z^k` of a product before
/// it is reduced.
pub open spec fn convolution<F: Field>(s: Seq<F>, t: Seq<F>, k: int, upto: nat) -> F
    decreases upto,
{
    if upto == 0 {
        F::zero_elem()
    } else {
        let i = upto - 1;
        let below = convolution(s, t, k, (upto - 1) as nat);
        if 0 <= k - i < 7 {
            below.plus(s[i].times(t[k - i]))
        } else {
            below
        }
    }
}

/// The product of two elements of the extension.
pub open spec fn septic_product<F: Field>(s: Seq<F>, t: Seq<F>) -> Seq<F> {
    Seq::new(
        7,
        |k: int|
            {
                let low = convolution(s, t, k, 7).plus(
                    F::from_int(5).times(convolution(s, t, k + 7, 7)),
                );
                if k == 0 {
                    low
                } else {
                    low.plus(linear_factor::<F>().times(convolution(s, t, k + 6, 7)))
                }
            },
    )
}

pub open spec fn septic_one<F: Field>() -> Seq<F> {
    Seq::new(
        7,
        |k: int|
            if k == 0 {
                F::one_elem()
            } else {
                F::zero_elem()
            },
    )
}

pub open spec fn septic_difference<F: Field>(s: Seq<F>, t: Seq<F>) -> Seq<F> {
    Seq::new(7, |k: int| s[k].minus(t[k]))
}

pub open spec fn septic_opposite<F: Field>(s: Seq<F>) -> Seq<F> {
    Seq::new(7, |k: int| s[k].opposite())
}

/// `s` to the power of `n`, by squaring.
pub open spec fn septic_power<F: Field>(s: Seq<F>, n: nat) -> Seq<F>
    decreases n,
{
    if n == 0 {
        septic_one()
    } else {
        let half = septic_power(s, n / 2);
        let square = septic_product(half, half);
        if n % 2 == 1 {
            septic_product(square, s)
        } else {
            square
        }
    }
}

/// `s` to the power of the leading `digits` digits, in base `p`, of `p^7 - 2`.
pub open spec fn inverse_power<F: PrimeField32>(s: Seq<F>, digits: nat) -> Seq<F>
    decreases digits,
{
    if digits == 0 {
        septic_one()
    } else {
        let digit = if digits == 7 {
            F::characteristic() - 2
        } else {
            F::characteristic() - 1
        };
        septic_product(
            septic_power(
                inverse_power(s, (digits - 1) as nat),
                F::characteristic() as nat,
            ),
            septic_power(s, digit as nat),
        )
    }
}

/// The element that multiplies with `s` to one, where `s^(p^7 - 2)` does.
pub open spec fn septic_inverse<F: PrimeField32>(s: Seq<F>) -> Option<Seq<F>> {
    let candidate = inverse_power(s, 7);
    if septic_product(s, candidate) == septic_one::<F>() {
        Some(candidate)
    } else {
        None
    }
}

/// The third point of the chord through two points, mirrored.
pub open spec fn chord_sum<F: PrimeField32>(p: Point<F>, q: Point<F>) -> Option<Point<F>> {
    match septic_inverse(septic_difference(q.x, p.x)) {
        Some(inverse) => {
            let slope = septic_product(septic_difference(q.y, p.y), inverse);
            let x = septic_difference(
                septic_difference(septic_product(slope, slope), p.x),
                q.x,
            );
            let y = septic_difference(septic_product(slope, septic_difference(p.x, x)), p.y);
            Some(Point { x, y })
        },
        None => None,
    }
}

/// The point mirrored.
pub open spec fn mirrored<F: Field>(p: Point<F>) -> Point<F> {
    Point { x: p.x, y: septic_opposite(p.y) }
}

impl<F: PrimeField32> SepticExtension<F> {
    /// The element with the given coefficients.
    pub fn from_elements(v: &Vec<F>) -> (r: Self)
        requires
            v@.len() == 7,
        ensures
            r@ == v@,
    {
        let r = SepticExtension([v[0], v[1], v[2], v[3], v[4], v[5], v[6]]);
        assert(r@ =~= v@);
        r
    }

    pub fn one() -> (r: Self)
        ensures
            r@ == septic_one::<F>(),
    {
        let z = F::zero();
        let r = SepticExtension([F::one(), z, z, z, z, z, z]);
        assert(r@ =~= septic_one::<F>());
        r
    }

    fn convolve(&self, other: &Self, k: usize) -> (r: F)
        requires
            k < 14,
        ensures
            r == convolution(self@, other@, k as int, 7),
    {
        let mut sum = F::zero();
        let mut i: usize = 0;
        while i < 7
            invariant
                i <= 7,
                k < 14,
                sum == convolution(self@, other@, k as int, i as nat),
            decreases 7 - i,
        {
            if i <= k && k - i < 7 {
                sum = sum.add(self.0[i].mul(other.0[k - i]));
            }
            i += 1;
        }
        sum
    }

    pub fn product(&self, other: &Self) -> (r: Self)
        ensures
            r@ == septic_product(self@, other@),
    {
        let five = F::from_u64(5);
        let factor = if is_baby_bear::<F>() {
            F::from_u64(2)
        } else {
            F::from_u64(3)
        };
        let mut v: Vec<F> = Vec::new();
        let mut k: usize = 0;
        while k < 7
            invariant
                k <= 7,
                five == F::from_int(5),
                factor == linear_factor::<F>(),
                v@.len() == k,
                forall|j: int|
                    0 <= j < k ==> #[trigger] v@[j] == septic_product(self@, other@)[j],
            decreases 7 - k,
        {
            let low = self.convolve(other, k).add(five.mul(self.convolve(other, k + 7)));
            if k == 0 {
                v.push(low);
            } else {
                v.push(low.add(factor.mul(self.convolve(other, k + 6))));
            }
            k += 1;
        }
        assert(v@ =~= septic_product(self@, other@));
        Self::from_elements(&v)
    }

    pub fn difference(&self, other: &Self) -> (r: Self)
        ensures
            r@ == septic_difference(self@, other@),
    {
        let r = SepticExtension(
            [
                self.0[0].sub(other.0[0]),
                self.0[1].sub(other.0[1]),
                self.0[2].sub(other.0[2]),
                self.0[3].sub(other.0[3]),
                self.0[4].sub(other.0[4]),
                self.0[5].sub(other.0[5]),
                self.0[6].sub(other.0[6]),
            ],
        );
        assert(r@ =~= septic_difference(self@, other@));
        r
    }

    pub fn opposite(&self) -> (r: Self)
        ensures
            r@ == septic_opposite(self@),
    {
        let r = SepticExtension(
            [
                self.0[0].neg(),
                self.0[1].neg(),
                self.0[2].neg(),
                self.0[3].neg(),
                self.0[4].neg(),
                self.0[5].neg(),
                self.0[6].neg(),
            ],
        );
        assert(r@ =~= septic_opposite(self@));
        r
    }

    /// Whether two elements have the same coefficients.
    pub fn is_same(&self, other: &Self) -> (r: bool)
        ensures
            r == (self@ == other@),
    {
        let mut k: usize = 0;
        while k < 7
            invariant
                k <= 7,
                forall|j: int| 0 <= j < k ==> #[trigger] self@[j] == other@[j],
            decreases 7 - k,
        {
            if !self.0[k].is_equal(&other.0[k]) {
                assert(self@[k as int] != other@[k as int]);
                return false;
            }
            k += 1;
        }
        assert(self@ =~= other@);
        true
    }

    fn power(&self, n: u32) -> (r: Self)
        ensures
            r@ == septic_power(self@, n as nat),
        decreases n,
    {
        if n == 0 {
            Self::one()
        } else {
            let half = self.power(n / 2);
            let square = half.product(&half);
            if n % 2 == 1 {
                square.product(self)
            } else {
                square
            }
        }
    }

    /// The inverse, where there is one.
    pub fn try_inverse(&self) -> (r: Option<Self>)
        ensures
            r is Some <==> septic_inverse(self@) is Some,
            r matches Some(inverse) ==> septic_inverse(self@) == Some(inverse@)
                && septic_product(self@, inverse@) == septic_one::<F>(),
    {
        proof {
            F::law_residues(F::zero_elem(), F::zero_elem());
        }
        let p: u32 = F::order();
        let mut candidate = Self::one();
        let mut digits: usize = 0;
        while digits < 7
            invariant
                digits <= 7,
                p as int == F::characteristic(),
                p > 2,
                candidate@ == inverse_power(self@, digits as nat),
            decreases 7 - digits,
        {
            let digit: u32 = if digits == 6 {
                p - 2
            } else {
                p - 1
            };
            candidate = candidate.power(p).product(&self.power(digit));
            digits += 1;
        }
        if self.product(&candidate).is_same(&Self::one()) {
            Some(candidate)
        } else {
            None
        }
    }
}

impl<F: PrimeField32> SepticCurve<F> {
    /// The sum of two points whose x-coordinates have an invertible difference.
    pub fn add_incomplete(&self, other: &Self) -> (r: Option<Self>)
        ensures
            r is Some <==> chord_sum(self@, other@) is Some,
            r matches Some(sum) ==> chord_sum(self@, other@) == Some(sum@),
    {
        match other.x.difference(&self.x).try_inverse() {
            Some(inverse) => {
                let slope = other.y.difference(&self.y).product(&inverse);
                let x = slope.product(&slope).difference(&self.x).difference(&other.x);
                let y = slope.product(&self.x.difference(&x)).difference(&self.y);
                Some(SepticCurve { x, y })
            },
            None => None,
        }
    }

    /// The point mirrored.
    pub fn neg(&self) -> (r: Self)
        ensures
            r@ == mirrored(self@),
    {
        SepticCurve { x: self.x, y: self.y.opposite() }
    }

    /// The difference of two points whose x-coordinates have an invertible difference.
    pub fn sub_incomplete(&self, other: &Self) -> (r: Option<Self>)
        ensures
            r is Some <==> chord_sum(self@, mirrored(other@)) is Some,
            r matches Some(sum) ==> chord_sum(self@, mirrored(other@)) == Some(sum@),
    {
        self.add_incomplete(&other.neg())
    }
}

/// Where a chord sum exists, the difference of the x-coordinates has the inverse that its slope was
/// divided by.
pub proof fn law_chord_slope<F: PrimeField32>(p: Point<F>, q: Point<F>)
    requires
        chord_sum(p, q) is Some,
    ensures
        septic_inverse(septic_difference(q.x, p.x)) is Some,
        septic_product(
            septic_difference(q.x, p.x),
            septic_inverse(septic_difference(q.x, p.x))->0,
        ) == septic_one::<F>(),
{
}

} // verus!
