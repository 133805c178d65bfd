//! The extension of degree four of a prime field by a root of `X^4 - w`.
use vstd::prelude::*;
use crate::field::algebra;
use crate::field::modular;
use crate::field::{BinomiallyExtendable, ExtensionField, Field, TwoAdicExtension, TwoAdicField};

verus! {

/// The degree of the extension.
pub const D: usize = 4;

/// A polynomial of degree below four in a root of `X^4 - w`, with its coefficients from the
/// lowest.
#[derive(Clone, Copy, Debug, PartialEq, Eq, Hash)]
pub struct BinomialExtension<F> {
    pub c0: F,
    pub c1: F,
    pub c2: F,
    pub c3: F,
}

impl<F: BinomiallyExtendable> BinomialExtension<F> {
    /// The residues of the coefficients.
    pub open spec fn coeffs(self) -> modular::Quartic {
        modular::Quartic {
            c0: self.c0.to_int(),
            c1: self.c1.to_int(),
            c2: self.c2.to_int(),
            c3: self.c3.to_int(),
        }
    }

    /// The element with the given coefficients.
    pub open spec fn of(c: modular::Quartic) -> Self {
        BinomialExtension {
            c0: F::from_int(c.c0),
            c1: F::from_int(c.c1),
            c2: F::from_int(c.c2),
            c3: F::from_int(c.c3),
        }
    }

    proof fn lemma_of(c: modular::Quartic)
        ensures
            Self::of(c).coeffs() == modular::quartic_mod(c, F::characteristic()),
            Self::of(c).valid(),
    {
        F::law_from_int_residue(c.c0);
        F::law_from_int_residue(c.c1);
        F::law_from_int_residue(c.c2);
        F::law_from_int_residue(c.c3);
        F::law_from_int(c.c0, 0);
        F::law_from_int(c.c1, 0);
        F::law_from_int(c.c2, 0);
        F::law_from_int(c.c3, 0);
    }

    proof fn lemma_same(a: Self, b: Self)
        requires
            a.coeffs() == b.coeffs(),
        ensures
            a == b,
    {
        F::law_residues(a.c0, b.c0);
        F::law_residues(a.c1, b.c1);
        F::law_residues(a.c2, b.c2);
        F::law_residues(a.c3, b.c3);
    }

    proof fn lemma_valid_coeffs(a: Self)
        requires
            a.valid(),
        ensures
            modular::quartic_mod(a.coeffs(), F::characteristic()) == a.coeffs(),
            F::characteristic() > 2,
    {
        let p = F::characteristic();
        F::law_residues(a.c0, a.c0);
        F::law_residues(a.c1, a.c1);
        F::law_residues(a.c2, a.c2);
        F::law_residues(a.c3, a.c3);
        vstd::arithmetic::div_mod::lemma_small_mod(a.c0.to_int() as nat, p as nat);
        vstd::arithmetic::div_mod::lemma_small_mod(a.c1.to_int() as nat, p as nat);
        vstd::arithmetic::div_mod::lemma_small_mod(a.c2.to_int() as nat, p as nat);
        vstd::arithmetic::div_mod::lemma_small_mod(a.c3.to_int() as nat, p as nat);
    }
}

impl<F: BinomiallyExtendable> Field for BinomialExtension<F> {
    open spec fn valid(self) -> bool {
        self.c0.valid() && self.c1.valid() && self.c2.valid() && self.c3.valid()
    }

    open spec fn zero_elem() -> Self {
        BinomialExtension {
            c0: F::zero_elem(),
            c1: F::zero_elem(),
            c2: F::zero_elem(),
            c3: F::zero_elem(),
        }
    }

    open spec fn one_elem() -> Self {
        BinomialExtension {
            c0: F::one_elem(),
            c1: F::zero_elem(),
            c2: F::zero_elem(),
            c3: F::zero_elem(),
        }
    }

    open spec fn plus(self, rhs: Self) -> Self {
        BinomialExtension {
            c0: self.c0.plus(rhs.c0),
            c1: self.c1.plus(rhs.c1),
            c2: self.c2.plus(rhs.c2),
            c3: self.c3.plus(rhs.c3),
        }
    }

    open spec fn minus(self, rhs: Self) -> Self {
        BinomialExtension {
            c0: self.c0.minus(rhs.c0),
            c1: self.c1.minus(rhs.c1),
            c2: self.c2.minus(rhs.c2),
            c3: self.c3.minus(rhs.c3),
        }
    }

    open spec fn times(self, rhs: Self) -> Self {
        Self::of(modular::quartic_product(self.coeffs(), rhs.coeffs(), F::w_int()))
    }

    open spec fn opposite(self) -> Self {
        BinomialExtension {
            c0: self.c0.opposite(),
            c1: self.c1.opposite(),
            c2: self.c2.opposite(),
            c3: self.c3.opposite(),
        }
    }

    open spec fn from_int(n: int) -> Self {
        BinomialExtension {
            c0: F::from_int(n),
            c1: F::zero_elem(),
            c2: F::zero_elem(),
            c3: F::zero_elem(),
        }
    }

    open spec fn characteristic() -> int {
        F::characteristic()
    }

    proof fn law_constants() {
        F::law_constants();
    }

    proof fn law_closed(a: Self, b: Self) {
        F::law_closed(a.c0, b.c0);
        F::law_closed(a.c1, b.c1);
        F::law_closed(a.c2, b.c2);
        F::law_closed(a.c3, b.c3);
        Self::lemma_of(modular::quartic_product(a.coeffs(), b.coeffs(), F::w_int()));
    }

    proof fn law_plus(a: Self, b: Self, c: Self) {
        F::law_plus(a.c0, b.c0, c.c0);
        F::law_plus(a.c1, b.c1, c.c1);
        F::law_plus(a.c2, b.c2, c.c2);
        F::law_plus(a.c3, b.c3, c.c3);
    }

    proof fn law_times(a: Self, b: Self, c: Self) {
        let p = F::characteristic();
        let w = F::w_int();
        F::law_residues(a.c0, a.c0);
        // Commutativity.
        modular::lemma_quartic_commutative(a.coeffs(), b.coeffs(), w);
        // Associativity.
        Self::lemma_of(modular::quartic_product(a.coeffs(), b.coeffs(), w));
        Self::lemma_of(modular::quartic_product(b.coeffs(), c.coeffs(), w));
        Self::lemma_of(modular::quartic_product(a.times(b).coeffs(), c.coeffs(), w));
        Self::lemma_of(modular::quartic_product(a.coeffs(), b.times(c).coeffs(), w));
        modular::lemma_quartic_associative(a.coeffs(), b.coeffs(), c.coeffs(), w, p);
        Self::lemma_same(a.times(b).times(c), a.times(b.times(c)));
        // One.
        F::law_residues(F::one_elem(), F::zero_elem());
        Self::lemma_valid_coeffs(a);
        Self::lemma_of(modular::quartic_product(a.coeffs(), Self::one_elem().coeffs(), w));
        modular::lemma_quartic_one(a.coeffs(), w);
        Self::lemma_same(a.times(Self::one_elem()), a);
        // Distributivity.
        F::law_residues(b.c0, c.c0);
        F::law_residues(b.c1, c.c1);
        F::law_residues(b.c2, c.c2);
        F::law_residues(b.c3, c.c3);
        Self::lemma_of(modular::quartic_product(a.coeffs(), b.plus(c).coeffs(), w));
        Self::lemma_of(modular::quartic_product(a.coeffs(), c.coeffs(), w));
        let ab = a.times(b);
        let ac = a.times(c);
        F::law_residues(ab.c0, ac.c0);
        F::law_residues(ab.c1, ac.c1);
        F::law_residues(ab.c2, ac.c2);
        F::law_residues(ab.c3, ac.c3);
        modular::lemma_quartic_distributive(a.coeffs(), b.coeffs(), c.coeffs(), w, p);
        Self::lemma_same(a.times(b.plus(c)), ab.plus(ac));
    }

    proof fn law_from_int(m: int, n: int) {
        let p = F::characteristic();
        F::law_constants();
        F::law_residues(F::zero_elem(), F::zero_elem());
        F::law_from_int(m, n);
        F::law_from_int(n, 0);
        F::law_closed(F::zero_elem(), F::zero_elem());
        F::law_plus(F::zero_elem(), F::zero_elem(), F::zero_elem());
        let a = Self::from_int(m);
        let b = Self::from_int(n);
        F::law_residues(F::from_int(m), F::from_int(n));
        F::law_from_int_residue(m * n);
        Self::lemma_of(modular::quartic_product(a.coeffs(), b.coeffs(), F::w_int()));
        modular::lemma_quartic_constants(a.c0.to_int(), b.c0.to_int(), F::w_int());
        vstd::arithmetic::div_mod::lemma_small_mod(0nat, p as nat);
        F::law_from_int_residue(m);
        F::law_from_int_residue(n);
        modular::lemma_mod_ops(m, n, p);
        Self::lemma_same(Self::from_int(m * n), a.times(b));
    }

    proof fn law_small_int_unit(n: int) {
        let p = F::characteristic();
        F::law_small_int_unit(n);
        let z = choose|z: F| #[trigger] z.valid() && F::from_int(n).times(z) == F::one_elem();
        let y = BinomialExtension {
            c0: z,
            c1: F::zero_elem(),
            c2: F::zero_elem(),
            c3: F::zero_elem(),
        };
        let a = Self::from_int(n);
        F::law_constants();
        F::law_residues(F::one_elem(), F::zero_elem());
        F::law_residues(F::from_int(n), z);
        Self::lemma_of(modular::quartic_product(a.coeffs(), y.coeffs(), F::w_int()));
        modular::lemma_quartic_constants(a.c0.to_int(), z.to_int(), F::w_int());
        vstd::arithmetic::div_mod::lemma_small_mod(0nat, p as nat);
        Self::lemma_same(a.times(y), Self::one_elem());
        assert(y.valid() && Self::from_int(n).times(y) == Self::one_elem());
    }

    fn zero() -> (r: Self) {
        BinomialExtension { c0: F::zero(), c1: F::zero(), c2: F::zero(), c3: F::zero() }
    }

    fn one() -> (r: Self) {
        BinomialExtension { c0: F::one(), c1: F::zero(), c2: F::zero(), c3: F::zero() }
    }

    fn add(self, rhs: Self) -> (r: Self) {
        BinomialExtension {
            c0: self.c0.add(rhs.c0),
            c1: self.c1.add(rhs.c1),
            c2: self.c2.add(rhs.c2),
            c3: self.c3.add(rhs.c3),
        }
    }

    fn sub(self, rhs: Self) -> (r: Self) {
        BinomialExtension {
            c0: self.c0.sub(rhs.c0),
            c1: self.c1.sub(rhs.c1),
            c2: self.c2.sub(rhs.c2),
            c3: self.c3.sub(rhs.c3),
        }
    }

    fn mul(self, rhs: Self) -> (r: Self) {
        let w = F::w();
        let a = self;
        let b = rhs;
        let h0 = a.c1.mul(b.c3).add(a.c2.mul(b.c2)).add(a.c3.mul(b.c1));
        let h1 = a.c2.mul(b.c3).add(a.c3.mul(b.c2));
        let h2 = a.c3.mul(b.c3);
        let r = BinomialExtension {
            c0: a.c0.mul(b.c0).add(w.mul(h0)),
            c1: a.c0.mul(b.c1).add(a.c1.mul(b.c0)).add(w.mul(h1)),
            c2: a.c0.mul(b.c2).add(a.c1.mul(b.c1)).add(a.c2.mul(b.c0)).add(w.mul(h2)),
            c3: a.c0.mul(b.c3).add(a.c1.mul(b.c2)).add(a.c2.mul(b.c1)).add(a.c3.mul(b.c0)),
        };
        proof {
            Self::lemma_product(a, b, r);
        }
        r
    }

    fn neg(self) -> (r: Self) {
        BinomialExtension {
            c0: self.c0.neg(),
            c1: self.c1.neg(),
            c2: self.c2.neg(),
            c3: self.c3.neg(),
        }
    }

    fn is_equal(&self, other: &Self) -> (r: bool) {
        self.c0.is_equal(&other.c0) && self.c1.is_equal(&other.c1) && self.c2.is_equal(&other.c2)
            && self.c3.is_equal(&other.c3)
    }

    fn from_u64(n: u64) -> (r: Self) {
        BinomialExtension { c0: F::from_u64(n), c1: F::zero(), c2: F::zero(), c3: F::zero() }
    }

    fn try_inverse(&self) -> (r: Option<Self>) {
        proof {
            F::law_residues(F::one_elem(), F::zero_elem());
            F::law_residues(self.c0, F::zero_elem());
            F::law_residues(self.c1, F::zero_elem());
            F::law_residues(self.c2, F::zero_elem());
            F::law_residues(self.c3, F::zero_elem());
        }
        match F::ext_try_inverse((self.c0, self.c1, self.c2, self.c3)) {
            Some(d) => {
                let y = BinomialExtension { c0: d.0, c1: d.1, c2: d.2, c3: d.3 };
                proof {
                    Self::lemma_of(
                        modular::quartic_product(self.coeffs(), y.coeffs(), F::w_int()),
                    );
                    Self::lemma_same(self.times(y), Self::one_elem());
                }
                Some(y)
            },
            None => None,
        }
    }
}

impl<F: BinomiallyExtendable> BinomialExtension<F> {
    /// The product written out in the base field.
    pub proof fn lemma_product(a: Self, b: Self, r: Self)
        requires
            ({
                let w = F::from_int(F::w_int());
                let h0 = a.c1.times(b.c3).plus(a.c2.times(b.c2)).plus(a.c3.times(b.c1));
                let h1 = a.c2.times(b.c3).plus(a.c3.times(b.c2));
                let h2 = a.c3.times(b.c3);
                &&& r.c0 == a.c0.times(b.c0).plus(w.times(h0))
                &&& r.c1 == a.c0.times(b.c1).plus(a.c1.times(b.c0)).plus(w.times(h1))
                &&& r.c2 == a.c0.times(b.c2).plus(a.c1.times(b.c1)).plus(a.c2.times(b.c0)).plus(
                    w.times(h2),
                )
                &&& r.c3 == a.c0.times(b.c3).plus(a.c1.times(b.c2)).plus(a.c2.times(b.c1)).plus(
                    a.c3.times(b.c0),
                )
            }),
        ensures
            r == a.times(b),
    {
        let w = F::from_int(F::w_int());
        let p = F::characteristic();
        F::law_w();
        F::law_from_int_residue(F::w_int());
        F::law_residues(w, w);
        vstd::arithmetic::div_mod::lemma_small_mod(F::w_int() as nat, p as nat);
        let q = modular::quartic_product(a.coeffs(), b.coeffs(), F::w_int());
        Self::lemma_of(q);
        let h0 = a.c1.times(b.c3).plus(a.c2.times(b.c2)).plus(a.c3.times(b.c1));
        let h1 = a.c2.times(b.c3).plus(a.c3.times(b.c2));
        let h2 = a.c3.times(b.c3);
        Self::lemma_sum3(a.c1, b.c3, a.c2, b.c2, a.c3, b.c1);
        Self::lemma_sum2(a.c2, b.c3, a.c3, b.c2);
        F::law_residues(a.c3, b.c3);
        F::law_residues(a.c0, b.c0);
        Self::lemma_tail(a.c0.times(b.c0), w, h0, a.c0.to_int() * b.c0.to_int(),
            a.c1.to_int() * b.c3.to_int() + a.c2.to_int() * b.c2.to_int() + a.c3.to_int() * b.c1.to_int());
        Self::lemma_sum2(a.c0, b.c1, a.c1, b.c0);
        Self::lemma_tail(a.c0.times(b.c1).plus(a.c1.times(b.c0)), w, h1,
            a.c0.to_int() * b.c1.to_int() + a.c1.to_int() * b.c0.to_int(),
            a.c2.to_int() * b.c3.to_int() + a.c3.to_int() * b.c2.to_int());
        Self::lemma_sum3(a.c0, b.c2, a.c1, b.c1, a.c2, b.c0);
        Self::lemma_tail(a.c0.times(b.c2).plus(a.c1.times(b.c1)).plus(a.c2.times(b.c0)), w, h2,
            a.c0.to_int() * b.c2.to_int() + a.c1.to_int() * b.c1.to_int() + a.c2.to_int() * b.c0.to_int(),
            a.c3.to_int() * b.c3.to_int());
        Self::lemma_sum3(a.c0, b.c3, a.c1, b.c2, a.c2, b.c1);
        F::law_residues(a.c0.times(b.c3).plus(a.c1.times(b.c2)).plus(a.c2.times(b.c1)), a.c3.times(b.c0));
        F::law_residues(a.c3, b.c0);
        modular::lemma_mod_ops(
            a.c0.to_int() * b.c3.to_int() + a.c1.to_int() * b.c2.to_int() + a.c2.to_int() * b.c1.to_int(),
            a.c3.to_int() * b.c0.to_int(), p);
        Self::lemma_same(r, Self::of(q));
    }

    proof fn lemma_sum2(a: F, b: F, c: F, d: F)
        ensures
            a.times(b).plus(c.times(d)).to_int() == (a.to_int() * b.to_int() + c.to_int() * d.to_int()) % F::characteristic(),
    {
        F::law_residues(a, b);
        F::law_residues(c, d);
        F::law_residues(a.times(b), c.times(d));
        modular::lemma_mod_ops(a.to_int() * b.to_int(), c.to_int() * d.to_int(), F::characteristic());
    }

    proof fn lemma_sum3(a: F, b: F, c: F, d: F, e: F, f: F)
        ensures
            a.times(b).plus(c.times(d)).plus(e.times(f)).to_int()
                == (a.to_int() * b.to_int() + c.to_int() * d.to_int() + e.to_int() * f.to_int()) % F::characteristic(),
    {
        Self::lemma_sum2(a, b, c, d);
        F::law_residues(e, f);
        F::law_residues(a.times(b).plus(c.times(d)), e.times(f));
        modular::lemma_mod_ops(a.to_int() * b.to_int() + c.to_int() * d.to_int(), e.to_int() * f.to_int(), F::characteristic());
    }

    proof fn lemma_tail(s: F, w: F, h: F, si: int, hi: int)
        requires
            s.to_int() == si % F::characteristic(),
            h.to_int() == hi % F::characteristic(),
        ensures
            s.plus(w.times(h)).to_int() == (si + w.to_int() * hi) % F::characteristic(),
    {
        F::law_residues(w, h);
        F::law_residues(s, w.times(h));
        modular::lemma_mod_ops(w.to_int(), hi, F::characteristic());
        modular::lemma_mod_ops(si, w.to_int() * hi, F::characteristic());
    }
}

impl<F: BinomiallyExtendable> TwoAdicField for BinomialExtension<F> {
    open spec fn two_adicity() -> nat {
        F::ext_two_adicity()
    }

    open spec fn generator_elem(bits: nat) -> Self {
        Self::of(F::ext_generator_coeffs(bits))
    }

    proof fn law_generator(bits: nat) {
        let p = F::characteristic();
        let g = F::ext_generator_coeffs(bits);
        F::law_w();
        F::law_ext_generator(bits);
        Self::lemma_of(g);
        if bits <= 1 {
            F::law_ext_generator(bits);
            F::law_generator(bits);
            F::law_residues(F::one_elem(), F::zero_elem());
            F::law_constants();
            F::law_residues(F::zero_elem(), F::zero_elem());
            if bits == 1 {
                vstd::arithmetic::div_mod::lemma_small_mod(0nat, p as nat);
                Self::lemma_same(Self::of(g), Self::one_elem().opposite());
            } else {
                Self::lemma_same(Self::of(g), Self::one_elem());
            }
        }
        if bits > 0 {
            let b = (bits - 1) as nat;
            F::law_ext_generator(b);
            Self::lemma_of(F::ext_generator_coeffs(b));
            Self::lemma_of(
                modular::quartic_product(Self::of(g).coeffs(), Self::of(g).coeffs(), F::w_int()),
            );
            Self::lemma_same(Self::of(g).times(Self::of(g)), Self::of(F::ext_generator_coeffs(b)));
        }
    }

    fn two_adic_generator(bits: usize) -> (r: Self) {
        let g = F::ext_two_adic_generator(bits);
        let r = BinomialExtension { c0: g.0, c1: g.1, c2: g.2, c3: g.3 };
        proof {
            F::law_ext_generator(bits as nat);
            Self::lemma_of(r.coeffs());
            Self::lemma_same(r, Self::of(r.coeffs()));
        }
        r
    }

    fn two_adicity_usize() -> (r: usize) {
        F::ext_two_adicity_usize()
    }
}

impl<F: BinomiallyExtendable> ExtensionField<F> for BinomialExtension<F> {
    open spec fn embed(b: F) -> Self {
        BinomialExtension {
            c0: b,
            c1: F::zero_elem(),
            c2: F::zero_elem(),
            c3: F::zero_elem(),
        }
    }

    open spec fn base_coeffs(self) -> Seq<F> {
        seq![self.c0, self.c1, self.c2, self.c3]
    }

    open spec fn from_coeffs(s: Seq<F>) -> Self {
        BinomialExtension { c0: s[0], c1: s[1], c2: s[2], c3: s[3] }
    }

    open spec fn degree() -> nat {
        4
    }

    proof fn law_coeffs(a: Self, s: Seq<F>) {
        assert(s.len() == 4 ==> Self::from_coeffs(s).base_coeffs() =~= s);
    }

    proof fn law_from_coeffs_valid(s: Seq<F>) {
        assert(s[0].valid() && s[1].valid() && s[2].valid() && s[3].valid());
    }

    proof fn law_embed(a: Self, b: Self, s: F, t: F) {
        broadcast use algebra::group_valid;

        let p = F::characteristic();
        F::law_constants();
        F::law_residues(F::one_elem(), F::zero_elem());
        F::law_plus(F::zero_elem(), F::zero_elem(), F::zero_elem());
        let e = Self::embed(s);
        // The product with a base element.
        let q = modular::quartic_product(e.coeffs(), a.coeffs(), F::w_int());
        let r = BinomialExtension {
            c0: s.times(a.c0),
            c1: s.times(a.c1),
            c2: s.times(a.c2),
            c3: s.times(a.c3),
        };
        modular::lemma_quartic_scalar(s.to_int(), a.coeffs(), F::w_int());
        Self::lemma_of(q);
        F::law_residues(s, a.c0);
        F::law_residues(s, a.c1);
        F::law_residues(s, a.c2);
        F::law_residues(s, a.c3);
        F::law_residues(F::zero_elem(), F::zero_elem());
        Self::lemma_same(r, e.times(a));
        // The product of two base elements.
        let f = Self::embed(t);
        Self::lemma_of(modular::quartic_product(e.coeffs(), f.coeffs(), F::w_int()));
        modular::lemma_quartic_constants(s.to_int(), t.to_int(), F::w_int());
        F::law_residues(s, t);
        vstd::arithmetic::div_mod::lemma_small_mod(0nat, p as nat);
        Self::lemma_same(Self::embed(s.times(t)), e.times(f));
        assert(a.base_coeffs() =~= seq![a.c0, a.c1, a.c2, a.c3]);
    }

    fn extension_degree() -> (r: usize) {
        D
    }

    fn from_base(b: F) -> (r: Self) {
        BinomialExtension { c0: b, c1: F::zero(), c2: F::zero(), c3: F::zero() }
    }

    fn as_base_slice(&self) -> (r: Vec<F>) {
        let mut v: Vec<F> = Vec::new();
        v.push(self.c0);
        v.push(self.c1);
        v.push(self.c2);
        v.push(self.c3);
        assert(v@ =~= self.base_coeffs());
        v
    }

    fn from_base_slice(s: &[F]) -> (r: Self) {
        BinomialExtension { c0: s[0], c1: s[1], c2: s[2], c3: s[3] }
    }
}

impl<F: BinomiallyExtendable> TwoAdicExtension<F> for BinomialExtension<F> {
    proof fn law_generators(bits: nat) {
        F::law_w();
        if bits <= F::two_adicity() {
            let p = F::characteristic();
            F::law_ext_generator(bits);
            F::law_residues(F::zero_elem(), F::zero_elem());
            Self::lemma_of(F::ext_generator_coeffs(bits));
            Self::lemma_same(Self::generator_elem(bits), Self::embed(F::generator_elem(bits)));
        }
    }
}

} // verus!
