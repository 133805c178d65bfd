//! Finite fields: the algebraic interface that the rest of the library is written against, and
//! the two 31-bit prime fields and their degree-four extensions that implement it.
use vstd::prelude::*;

pub mod modular;
pub mod algebra;
pub mod baby_bear;
pub mod extension;
pub mod koala_bear;

verus! {

/// A field of odd characteristic.
///
/// The executable operations compute the specification operations exactly on every value of the
/// type. The field laws are stated of the canonical elements, those with [`Field::valid`].
pub trait Field: Sized + Copy {
    /// The value is the canonical representative of a field element.
    spec fn valid(self) -> bool;

    spec fn zero_elem() -> Self;

    spec fn one_elem() -> Self;

    spec fn plus(self, rhs: Self) -> Self;

    spec fn minus(self, rhs: Self) -> Self;

    spec fn times(self, rhs: Self) -> Self;

    spec fn opposite(self) -> Self;

    /// The image of an integer.
    spec fn from_int(n: int) -> Self;

    /// The characteristic of the field.
    spec fn characteristic() -> int;

    proof fn law_constants()
        ensures
            Self::zero_elem().valid(),
            Self::one_elem().valid(),
            Self::zero_elem() != Self::one_elem(),
            Self::characteristic() > 2,
            Self::from_int(0) == Self::zero_elem(),
            Self::from_int(1) == Self::one_elem(),
    ;

    proof fn law_closed(a: Self, b: Self)
        ensures
            a.plus(b).valid(),
            a.minus(b).valid(),
            a.times(b).valid(),
            a.opposite().valid(),
    ;

    proof fn law_plus(a: Self, b: Self, c: Self)
        requires
            a.valid(),
            b.valid(),
            c.valid(),
        ensures
            a.plus(b) == b.plus(a),
            a.plus(b).plus(c) == a.plus(b.plus(c)),
            a.plus(Self::zero_elem()) == a,
            a.plus(a.opposite()) == Self::zero_elem(),
            a.minus(b) == a.plus(b.opposite()),
    ;

    proof fn law_times(a: Self, b: Self, c: Self)
        requires
            a.valid(),
            b.valid(),
            c.valid(),
        ensures
            a.times(b) == b.times(a),
            a.times(b).times(c) == a.times(b.times(c)),
            a.times(Self::one_elem()) == a,
            a.times(b.plus(c)) == a.times(b).plus(a.times(c)),
    ;

    proof fn law_from_int(m: int, n: int)
        ensures
            Self::from_int(m).valid(),
            Self::from_int(m + n) == Self::from_int(m).plus(Self::from_int(n)),
            Self::from_int(m * n) == Self::from_int(m).times(Self::from_int(n)),
    ;

    /// An integer between zero and the characteristic has an inverse.
    proof fn law_small_int_unit(n: int)
        requires
            0 < n < Self::characteristic(),
        ensures
            exists|y: Self| #[trigger] y.valid() && Self::from_int(n).times(y) == Self::one_elem(),
    ;

    fn zero() -> (r: Self)
        ensures
            r == Self::zero_elem(),
    ;

    fn one() -> (r: Self)
        ensures
            r == Self::one_elem(),
    ;

    fn add(self, rhs: Self) -> (r: Self)
        ensures
            r == self.plus(rhs),
    ;

    fn sub(self, rhs: Self) -> (r: Self)
        ensures
            r == self.minus(rhs),
    ;

    fn mul(self, rhs: Self) -> (r: Self)
        ensures
            r == self.times(rhs),
    ;

    fn neg(self) -> (r: Self)
        ensures
            r == self.opposite(),
    ;

    fn is_equal(&self, other: &Self) -> (r: bool)
        ensures
            r == (*self == *other),
    ;

    /// The image of an unsigned integer.
    fn from_u64(n: u64) -> (r: Self)
        ensures
            r == Self::from_int(n as int),
    ;

    /// The multiplicative inverse; `None` for zero alone.
    fn try_inverse(&self) -> (r: Option<Self>)
        requires
            self.valid(),
        ensures
            r is None <==> *self == Self::zero_elem(),
            r matches Some(y) ==> y.valid() && self.times(y) == Self::one_elem(),
    ;
}

/// A field of prime order below `2^31`.
pub trait PrimeField32: Field {
    /// The residue that stands for the element.
    spec fn to_int(self) -> int;

    proof fn law_residues(a: Self, b: Self)
        ensures
            0 <= a.to_int() < 0x1_0000_0000,
            2 < Self::characteristic() < 0x8000_0000,
            a.valid() <==> a.to_int() < Self::characteristic(),
            a.to_int() == b.to_int() ==> a == b,
            a.plus(b).to_int() == (a.to_int() + b.to_int()) % Self::characteristic(),
            a.minus(b).to_int() == (a.to_int() - b.to_int()) % Self::characteristic(),
            a.times(b).to_int() == (a.to_int() * b.to_int()) % Self::characteristic(),
            a.opposite().to_int() == (-a.to_int()) % Self::characteristic(),
            Self::zero_elem().to_int() == 0,
            Self::one_elem().to_int() == 1,
    ;

    proof fn law_from_int_residue(n: int)
        ensures
            Self::from_int(n).to_int() == n % Self::characteristic(),
    ;

    /// The residue that stands for the element.
    fn as_canonical_u32(&self) -> (r: u32)
        ensures
            r as int == self.to_int(),
    ;

    /// The element that a residue stands for.
    fn from_canonical_u32(n: u32) -> (r: Self)
        requires
            n < Self::characteristic(),
        ensures
            r == Self::from_int(n as int),
            r.to_int() == n,
            r.valid(),
    ;

    /// The order of the field.
    fn order() -> (r: u32)
        ensures
            r as int == Self::characteristic(),
    ;
}

/// A field with elements whose order is a power of two.
pub trait TwoAdicField: Field {
    /// The number of factors of two of the order of the multiplicative group.
    spec fn two_adicity() -> nat;

    /// An element of order `2^bits`.
    spec fn generator_elem(bits: nat) -> Self;

    /// Each generator is a square root of the one before; the first two are one and its opposite.
    proof fn law_generator(bits: nat)
        requires
            bits <= Self::two_adicity(),
        ensures
            Self::generator_elem(bits).valid(),
            bits == 0 ==> Self::generator_elem(bits) == Self::one_elem(),
            bits == 1 ==> Self::generator_elem(bits) == Self::one_elem().opposite(),
            bits > 0 ==> Self::generator_elem(bits).times(Self::generator_elem(bits))
                == Self::generator_elem((bits - 1) as nat),
    ;

    /// An element of order `2^bits`.
    fn two_adic_generator(bits: usize) -> (r: Self)
        requires
            bits <= Self::two_adicity(),
        ensures
            r == Self::generator_elem(bits as nat),
    ;

    fn two_adicity_usize() -> (r: usize)
        ensures
            r as nat == Self::two_adicity(),
    ;
}

/// A prime field over which `X^4 - w` is irreducible.
pub trait BinomiallyExtendable: PrimeField32 + TwoAdicField {
    /// The constant of the binomial.
    spec fn w_int() -> int;

    /// The number of factors of two of the order of the extension's multiplicative group.
    spec fn ext_two_adicity() -> nat;

    /// An element of the extension of order `2^bits`.
    spec fn ext_generator_coeffs(bits: nat) -> modular::Quartic;

    proof fn law_w()
        ensures
            0 <= Self::w_int() < Self::characteristic(),
            1 <= Self::two_adicity() <= Self::ext_two_adicity(),
    ;

    /// Each generator is a square root of the one before; those that lie in the prime field are
    /// its own.
    proof fn law_ext_generator(bits: nat)
        requires
            bits <= Self::ext_two_adicity(),
        ensures
            modular::quartic_mod(Self::ext_generator_coeffs(bits), Self::characteristic())
                == Self::ext_generator_coeffs(bits),
            bits <= Self::two_adicity() ==> Self::ext_generator_coeffs(bits) == (
            modular::Quartic { c0: Self::generator_elem(bits).to_int(), c1: 0, c2: 0, c3: 0 }),
            bits > 0 ==> modular::quartic_mod(
                modular::quartic_product(
                    Self::ext_generator_coeffs(bits),
                    Self::ext_generator_coeffs(bits),
                    Self::w_int(),
                ),
                Self::characteristic(),
            ) == Self::ext_generator_coeffs((bits - 1) as nat),
    ;

    fn w() -> (r: Self)
        ensures
            r == Self::from_int(Self::w_int()),
    ;

    /// The inverse modulo `X^4 - w`; `None` for zero alone.
    fn ext_try_inverse(c: (Self, Self, Self, Self)) -> (r: Option<(Self, Self, Self, Self)>)
        requires
            c.0.valid() && c.1.valid() && c.2.valid() && c.3.valid(),
        ensures
            r is None <==> c.0.to_int() == 0 && c.1.to_int() == 0 && c.2.to_int() == 0
                && c.3.to_int() == 0,
            r matches Some(d) ==> d.0.valid() && d.1.valid() && d.2.valid() && d.3.valid()
                && modular::quartic_mod(
                modular::quartic_product(
                    (modular::Quartic {
                        c0: c.0.to_int(),
                        c1: c.1.to_int(),
                        c2: c.2.to_int(),
                        c3: c.3.to_int(),
                    }),
                    (modular::Quartic {
                        c0: d.0.to_int(),
                        c1: d.1.to_int(),
                        c2: d.2.to_int(),
                        c3: d.3.to_int(),
                    }),
                    Self::w_int(),
                ),
                Self::characteristic(),
            ) == modular::quartic_one(),
    ;

    /// An element of the extension of order `2^bits`.
    fn ext_two_adic_generator(bits: usize) -> (r: (Self, Self, Self, Self))
        requires
            bits <= Self::ext_two_adicity(),
        ensures
            Self::ext_generator_coeffs(bits as nat) == (modular::Quartic {
                c0: r.0.to_int(),
                c1: r.1.to_int(),
                c2: r.2.to_int(),
                c3: r.3.to_int(),
            }),
    ;

    fn ext_two_adicity_usize() -> (r: usize)
        ensures
            r as nat == Self::ext_two_adicity(),
    ;
}

/// An extension of the field `F`, with a basis over it.
pub trait ExtensionField<F: Field>: Field {
    /// The image of an element of the base field.
    spec fn embed(b: F) -> Self;

    /// The coordinates of an element.
    spec fn base_coeffs(self) -> Seq<F>;

    /// The element with the given coordinates.
    spec fn from_coeffs(s: Seq<F>) -> Self;

    /// The dimension over the base field.
    spec fn degree() -> nat;

    proof fn law_coeffs(a: Self, s: Seq<F>)
        ensures
            Self::degree() > 0,
            a.base_coeffs().len() == Self::degree(),
            Self::from_coeffs(a.base_coeffs()) == a,
            s.len() == Self::degree() ==> Self::from_coeffs(s).base_coeffs() == s,
    ;

    /// Canonical coordinates make a canonical element.
    proof fn law_from_coeffs_valid(s: Seq<F>)
        requires
            s.len() == Self::degree(),
            all_valid(s),
        ensures
            Self::from_coeffs(s).valid(),
    ;

    /// Sums and products with base elements are taken coordinate by coordinate, and the embedding
    /// respects sums and products.
    proof fn law_embed(a: Self, b: Self, s: F, t: F)
        requires
            a.valid(),
            b.valid(),
            s.valid(),
            t.valid(),
        ensures
            Self::embed(s).valid(),
            all_valid(a.base_coeffs()),
            forall|c: int|
                #![trigger a.plus(b).base_coeffs()[c]]
                0 <= c < Self::degree() ==> a.plus(b).base_coeffs()[c] == a.base_coeffs()[c].plus(
                    b.base_coeffs()[c],
                ),
            forall|c: int|
                #![trigger a.minus(b).base_coeffs()[c]]
                0 <= c < Self::degree() ==> a.minus(b).base_coeffs()[c] == a.base_coeffs()[c].minus(
                    b.base_coeffs()[c],
                ),
            forall|c: int|
                #![trigger Self::embed(s).times(a).base_coeffs()[c]]
                0 <= c < Self::degree() ==> Self::embed(s).times(a).base_coeffs()[c] == s.times(
                    a.base_coeffs()[c],
                ),
            Self::embed(s.times(t)) == Self::embed(s).times(Self::embed(t)),
            Self::embed(s.plus(t)) == Self::embed(s).plus(Self::embed(t)),
            Self::embed(F::one_elem()) == Self::one_elem(),
            Self::embed(F::zero_elem()) == Self::zero_elem(),
    ;

    fn extension_degree() -> (r: usize)
        ensures
            r as nat == Self::degree(),
    ;

    fn from_base(b: F) -> (r: Self)
        ensures
            r == Self::embed(b),
    ;

    fn as_base_slice(&self) -> (r: Vec<F>)
        ensures
            r@ == self.base_coeffs(),
    ;

    fn from_base_slice(s: &[F]) -> (r: Self)
        requires
            s@.len() == Self::degree(),
        ensures
            r == Self::from_coeffs(s@),
    ;
}

/// An extension whose generators are those of the base field as far as they go.
pub trait TwoAdicExtension<F: TwoAdicField>: ExtensionField<F> + TwoAdicField {
    proof fn law_generators(bits: nat)
        ensures
            F::two_adicity() <= Self::two_adicity(),
            bits <= F::two_adicity() ==> Self::generator_elem(bits) == Self::embed(
                F::generator_elem(bits),
            ),
    ;
}

/// Some canonical element multiplies with `a` to one.
pub open spec fn is_unit<F: Field>(a: F) -> bool {
    exists|y: F| is_inverse(a, y)
}

pub open spec fn is_inverse<F: Field>(a: F, y: F) -> bool {
    y.valid() && a.times(y) == F::one_elem()
}

/// The inverse of a unit (unique by [`algebra::lemma_inverse_unique`]).
pub open spec fn inverse<F: Field>(a: F) -> F {
    choose|y: F| is_inverse(a, y)
}

/// The quotient of `a` by a nonzero `b`.
pub fn divide<F: Field>(a: F, b: F) -> (r: F)
    requires
        b.valid(),
        b != F::zero_elem(),
    ensures
        r == quotient(a, b),
        is_unit(b),
{
    match b.try_inverse() {
        Some(y) => {
            proof {
                algebra::lemma_inverse_unique(b, y);
            }
            a.mul(y)
        },
        None => a,
    }
}

/// `a` times the inverse of `b`.
pub open spec fn quotient<F: Field>(a: F, b: F) -> F {
    a.times(inverse(b))
}

/// Every element of the sequence is canonical.
pub open spec fn all_valid<F: Field>(s: Seq<F>) -> bool {
    forall|i: int| 0 <= i < s.len() ==> (#[trigger] s[i]).valid()
}

/// `base` multiplied with itself `n` times.
pub open spec fn power<F: Field>(base: F, n: nat) -> F
    decreases n,
{
    if n == 0 {
        F::one_elem()
    } else {
        power(base, (n - 1) as nat).times(base)
    }
}

} // verus!
