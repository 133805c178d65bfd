//! Digests on the curve, with a starting point that keeps the additions off their exceptions.
use vstd::prelude::*;
use crate::field::{ExtensionField, Field, PrimeField32};
use crate::stark::septic_curve;
use crate::stark::septic_curve::{Point, SepticCurve, SepticExtension};
use crate::stark::septic_curve_params::{
    BabyBearCurveParams, KoalaBearCurveParams, SepticCurveParams,
};

verus! {

/// A global cumulative sum: a point of the curve. As these sums start from a fixed point, adding
/// them up takes it off again.
#[derive(Clone, Copy, Debug, PartialEq, Eq, Hash)]
pub struct SepticDigest<F>(pub SepticCurve<F>);

impl<F> View for SepticDigest<F> {
    type V = Point<F>;

    open spec fn view(&self) -> Point<F> {
        self.0@
    }
}

/// The images of seven integers.
pub open spec fn elements_of<F: Field>(s: Seq<u32>) -> Seq<F> {
    Seq::new(7, |i: int| F::from_int(s[i] as int))
}

/// The point at which a cumulative sum starts.
pub open spec fn zero_point<F: Field, P: SepticCurveParams>() -> Point<F> {
    Point {
        x: elements_of(P::curve_cumulative_sum_start_x_seq()),
        y: elements_of(P::curve_cumulative_sum_start_y_seq()),
    }
}

/// The point at which a sum of digests starts.
pub open spec fn starting_point<F: Field, P: SepticCurveParams>() -> Point<F> {
    Point {
        x: elements_of(P::digest_sum_start_x_seq()),
        y: elements_of(P::digest_sum_start_y_seq()),
    }
}

/// The point at which a cumulative sum starts, for the curve over the field.
pub open spec fn zero_point_of_field<F: Field>() -> Point<F> {
    if septic_curve::is_baby_bear_field::<F>() {
        zero_point::<F, BabyBearCurveParams>()
    } else {
        zero_point::<F, KoalaBearCurveParams>()
    }
}

/// The point at which a sum of digests starts, for the curve over the field.
pub open spec fn starting_point_of_field<F: Field>() -> Point<F> {
    if septic_curve::is_baby_bear_field::<F>() {
        starting_point::<F, BabyBearCurveParams>()
    } else {
        starting_point::<F, KoalaBearCurveParams>()
    }
}

fn embed_all<F: Field>(s: &[u32; 7]) -> (r: SepticExtension<F>)
    ensures
        r@ == elements_of::<F>(s@),
{
    let r = SepticExtension(
        [
            F::from_u64(s[0] as u64),
            F::from_u64(s[1] as u64),
            F::from_u64(s[2] as u64),
            F::from_u64(s[3] as u64),
            F::from_u64(s[4] as u64),
            F::from_u64(s[5] as u64),
            F::from_u64(s[6] as u64),
        ],
    );
    assert(r@ =~= elements_of::<F>(s@));
    r
}

/// The images of the coordinates of a point.
pub open spec fn embedded<F: Field, EF: ExtensionField<F>>(p: Point<F>) -> Point<EF> {
    Point {
        x: Seq::new(7, |i: int| EF::embed(p.x[i])),
        y: Seq::new(7, |i: int| EF::embed(p.y[i])),
    }
}

fn extend_all<F: Field, EF: ExtensionField<F>>(s: &SepticExtension<F>) -> (r: SepticExtension<EF>)
    ensures
        r@ == Seq::new(7, |i: int| EF::embed(s@[i])),
{
    let r = SepticExtension(
        [
            EF::from_base(s.0[0]),
            EF::from_base(s.0[1]),
            EF::from_base(s.0[2]),
            EF::from_base(s.0[3]),
            EF::from_base(s.0[4]),
            EF::from_base(s.0[5]),
            EF::from_base(s.0[6]),
        ],
    );
    assert(r@ =~= Seq::new(7, |i: int| EF::embed(s@[i])));
    r
}

/// The digest with its coordinates in the extension field.
pub fn digest_to_extend<F: Field, EF: ExtensionField<F>>(digest: SepticDigest<F>) -> (r:
    SepticDigest<EF>)
    ensures
        r@ == embedded::<F, EF>(digest@),
{
    SepticDigest(
        SepticCurve { x: extend_all::<F, EF>(&digest.0.x), y: extend_all::<F, EF>(&digest.0.y) },
    )
}

impl<F: Field> SepticDigest<F> {
    /// The digest whose coordinates are the first seven and the next seven of the values.
    pub fn from_slice(values: &[F]) -> (r: Self)
        requires
            values@.len() >= 14,
        ensures
            r@.x == values@.subrange(0, 7),
            r@.y == values@.subrange(7, 14),
    {
        let r = SepticDigest(
            SepticCurve {
                x: SepticExtension(
                    [values[0], values[1], values[2], values[3], values[4], values[5], values[6]],
                ),
                y: SepticExtension(
                    [
                        values[7],
                        values[8],
                        values[9],
                        values[10],
                        values[11],
                        values[12],
                        values[13],
                    ],
                ),
            },
        );
        assert(r@.x =~= values@.subrange(0, 7));
        assert(r@.y =~= values@.subrange(7, 14));
        r
    }

    /// The point at which a cumulative sum starts, on the KoalaBear curve.
    pub fn zero() -> (r: Self)
        ensures
            r@ == zero_point::<F, KoalaBearCurveParams>(),
    {
        Self::zero_generic::<KoalaBearCurveParams>()
    }

    /// The point at which a cumulative sum starts.
    pub fn zero_generic<P: SepticCurveParams>() -> (r: Self)
        ensures
            r@ == zero_point::<F, P>(),
    {
        SepticDigest(
            SepticCurve {
                x: embed_all(&P::curve_cumulative_sum_start_x()),
                y: embed_all(&P::curve_cumulative_sum_start_y()),
            },
        )
    }

    /// The point at which a sum of digests starts, on the KoalaBear curve.
    pub fn starting_digest() -> (r: Self)
        ensures
            r@ == starting_point::<F, KoalaBearCurveParams>(),
    {
        Self::starting_digest_generic::<KoalaBearCurveParams>()
    }

    /// The point at which a sum of digests starts.
    pub fn starting_digest_generic<P: SepticCurveParams>() -> (r: Self)
        ensures
            r@ == starting_point::<F, P>(),
    {
        SepticDigest(
            SepticCurve {
                x: embed_all(&P::digest_sum_start_x()),
                y: embed_all(&P::digest_sum_start_y()),
            },
        )
    }

    /// The point at which a cumulative sum starts, for the curve over the field.
    pub fn zero_for_field() -> (r: Self)
        ensures
            r@ == zero_point_of_field::<F>(),
    {
        if septic_curve::is_baby_bear::<F>() {
            Self::zero_generic::<BabyBearCurveParams>()
        } else {
            Self::zero_generic::<KoalaBearCurveParams>()
        }
    }

    /// The point at which a sum of digests starts, for the curve over the field.
    pub fn starting_digest_for_field() -> (r: Self)
        ensures
            r@ == starting_point_of_field::<F>(),
    {
        if septic_curve::is_baby_bear::<F>() {
            Self::starting_digest_generic::<BabyBearCurveParams>()
        } else {
            Self::starting_digest_generic::<KoalaBearCurveParams>()
        }
    }
}

/// The starting point plus the first `n` digests, each less the point that it started from.
pub open spec fn partial_sum<F: PrimeField32>(digests: Seq<Point<F>>, n: nat) -> Option<Point<F>>
    decreases n,
{
    if n == 0 {
        Some(starting_point_of_field::<F>())
    } else {
        match partial_sum(digests, (n - 1) as nat) {
            Some(acc) => match septic_curve::chord_sum(acc, digests[n - 1]) {
                Some(sum) => septic_curve::chord_sum(
                    sum,
                    septic_curve::mirrored(zero_point_of_field::<F>()),
                ),
                None => None,
            },
            None => None,
        }
    }
}

/// The sum of digests: the starting point is taken off again, and the point that a sum starts from
/// put on.
pub open spec fn digest_sum<F: PrimeField32>(digests: Seq<Point<F>>) -> Option<Point<F>> {
    match partial_sum(digests, digests.len()) {
        Some(acc) => match septic_curve::chord_sum(acc, zero_point_of_field::<F>()) {
            Some(sum) => septic_curve::chord_sum(
                sum,
                septic_curve::mirrored(starting_point_of_field::<F>()),
            ),
            None => None,
        },
        None => None,
    }
}

/// The points of digests.
pub open spec fn points<F>(digests: Seq<SepticDigest<F>>) -> Seq<Point<F>> {
    Seq::new(digests.len(), |i: int| digests[i]@)
}

impl<F: PrimeField32> SepticDigest<F> {
    /// Whether the digest is the point at which a cumulative sum starts.
    pub fn is_zero(&self) -> (r: bool)
        ensures
            r == (self@ == zero_point_of_field::<F>()),
    {
        let zero = Self::zero_for_field();
        self.0.x.is_same(&zero.0.x) && self.0.y.is_same(&zero.0.y)
    }

    /// The sum of digests; `None` where one of the additions has no slope.
    pub fn sum(digests: &Vec<Self>) -> (r: Option<Self>)
        ensures
            r is Some <==> digest_sum(points(digests@)) is Some,
            r matches Some(sum) ==> digest_sum(points(digests@)) == Some(sum@),
    {
        let zero = Self::zero_for_field().0;
        let start = Self::starting_digest_for_field().0;
        let ghost all = points(digests@);
        let mut acc: Option<SepticCurve<F>> = Some(start);
        let n: usize = digests.len();
        let mut i: usize = 0;
        while i < n
            invariant
                i <= n,
                n == digests@.len(),
                all == points(digests@),
                zero@ == zero_point_of_field::<F>(),
                acc is Some <==> partial_sum(all, i as nat) is Some,
                acc matches Some(p) ==> partial_sum(all, i as nat) == Some(p@),
            decreases n - i,
        {
            acc = match acc {
                Some(p) => match p.add_incomplete(&digests[i].0) {
                    Some(sum) => sum.sub_incomplete(&zero),
                    None => None,
                },
                None => None,
            };
            i += 1;
        }
        match acc {
            Some(p) => match p.add_incomplete(&zero) {
                Some(sum) => match sum.sub_incomplete(&start) {
                    Some(total) => Some(SepticDigest(total)),
                    None => None,
                },
                None => None,
            },
            None => None,
        }
    }
}

} // verus!
