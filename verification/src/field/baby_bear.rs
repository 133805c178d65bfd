//! The BabyBear field, the integers modulo `2^31 - 2^27 + 1`.
use vstd::prelude::*;
use p3_field::extension::BinomialExtensionField;
use p3_field::AbstractExtensionField;
use p3_field::AbstractField;
use p3_field::Field as OuterField;
use p3_field::PrimeField32 as OuterPrimeField32;
use p3_field::TwoAdicField as OuterTwoAdicField;
use crate::field::modular;
use crate::field::{BinomiallyExtendable, Field, PrimeField32, TwoAdicField};

verus! {

/// The order of the field.
pub const BABY_BEAR_ORDER: u32 = 0x78000001;

/// An element of the BabyBear field.
#[derive(Clone, Copy, Debug, PartialEq, Eq, Hash)]
pub struct BabyBear {
    value: u32,
}

/// The inverse modulo the BabyBear prime, by `p3_baby_bear::BabyBear::try_inverse`: `None` for
/// zero alone, else the residue that multiplies with `n` to one.
#[verifier::external_body]
fn baby_bear_try_inverse(n: u32) -> (r: Option<u32>)
    requires
        n < BABY_BEAR_ORDER,
    ensures
        r is None <==> n == 0,
        r matches Some(m) ==> m < BABY_BEAR_ORDER && (n as int * m as int)
            % (BABY_BEAR_ORDER as int) == 1,
{
    let x = p3_baby_bear::BabyBear::from_canonical_u32(n);
    x.try_inverse().map(|y| y.as_canonical_u32())
}

#[verifier::rlimit(100)]
proof fn lemma_no_small_divisor(d: u16, q: u32)
    by (bit_vector)
    requires
        3 <= d <= 44869,
        d & 1 == 1,
        44869 <= q < 0x80000000,
    ensures
        (d as u32) * q != 0x78000001u32,
{
}

/// The order of the field is prime.
pub proof fn lemma_baby_bear_prime(d: int, q: int)
    requires
        1 < d < BABY_BEAR_ORDER,
        1 < q < BABY_BEAR_ORDER,
    ensures
        d * q != BABY_BEAR_ORDER,
{
    if d * q == BABY_BEAR_ORDER {
        let (s, t) = if d <= q {
            (d, q)
        } else {
            (q, d)
        };
        assert(s * t == BABY_BEAR_ORDER) by (nonlinear_arith)
            requires
                d * q == BABY_BEAR_ORDER,
                (s == d && t == q) || (s == q && t == d),
        ;
        assert(s <= 44869) by (nonlinear_arith)
            requires
                s * t == 0x78000001int,
                1 < s <= t,
        ;
        assert(t >= 44869) by (nonlinear_arith)
            requires
                s * t == 0x78000001int,
                1 < s <= t,
                s <= 44869,
        ;
        assert(s % 2 == 1) by (nonlinear_arith)
            requires
                s * t == 0x78000001int,
                s >= 0,
        {
            if s % 2 == 0 {
                assert(s == 2 * (s / 2));
                assert(s * t == 2 * ((s / 2) * t)) by (nonlinear_arith)
                    requires
                        s == 2 * (s / 2),
                ;
            }
        }
        let ds = s as u16;
        let qt = t as u32;
        assert(ds & 1 == 1) by (bit_vector)
            requires
                ds % 2 == 1,
        ;
        lemma_no_small_divisor(ds, qt);
    }
}

impl BabyBear {
    /// The residue that the element stands for.
    pub closed spec fn residue(self) -> int {
        self.value as int
    }

    /// The element that stands for an integer.
    pub closed spec fn of(n: int) -> Self {
        BabyBear { value: (n % (BABY_BEAR_ORDER as int)) as u32 }
    }

    pub broadcast proof fn lemma_residue_of(n: int)
        ensures
            #[trigger] BabyBear::of(n).residue() == n % (BABY_BEAR_ORDER as int),
    {
        modular::lemma_mod_ops(n, n, BABY_BEAR_ORDER as int);
    }
}

impl Field for BabyBear {
    open spec fn valid(self) -> bool {
        self.residue() < BABY_BEAR_ORDER
    }

    open spec fn zero_elem() -> Self {
        BabyBear::of(0)
    }

    open spec fn one_elem() -> Self {
        BabyBear::of(1)
    }

    open spec fn plus(self, rhs: Self) -> Self {
        BabyBear::of(self.residue() + rhs.residue())
    }

    open spec fn minus(self, rhs: Self) -> Self {
        BabyBear::of(self.residue() - rhs.residue())
    }

    open spec fn times(self, rhs: Self) -> Self {
        BabyBear::of(self.residue() * rhs.residue())
    }

    open spec fn opposite(self) -> Self {
        BabyBear::of(-self.residue())
    }

    open spec fn from_int(n: int) -> Self {
        BabyBear::of(n)
    }

    open spec fn characteristic() -> int {
        BABY_BEAR_ORDER as int
    }

    proof fn law_constants() {
    }

    proof fn law_closed(a: Self, b: Self) {
        broadcast use BabyBear::lemma_residue_of;
        modular::lemma_mod_ops(a.residue() + b.residue(), 0, BABY_BEAR_ORDER as int);
        modular::lemma_mod_ops(a.residue() - b.residue(), 0, BABY_BEAR_ORDER as int);
        modular::lemma_mod_ops(a.residue() * b.residue(), 0, BABY_BEAR_ORDER as int);
        modular::lemma_mod_ops(-a.residue(), 0, BABY_BEAR_ORDER as int);
    }

    proof fn law_plus(a: Self, b: Self, c: Self) {
        broadcast use BabyBear::lemma_residue_of;
        let p = BABY_BEAR_ORDER as int;
        modular::lemma_mod_ops(a.residue() + b.residue(), c.residue(), p);
        modular::lemma_mod_ops(a.residue(), b.residue() + c.residue(), p);
        modular::lemma_mod_ops(a.residue(), -a.residue(), p);
        modular::lemma_mod_ops(a.residue(), -b.residue(), p);
        vstd::arithmetic::div_mod::lemma_small_mod(a.residue() as nat, p as nat);
    }

    proof fn law_times(a: Self, b: Self, c: Self) {
        broadcast use BabyBear::lemma_residue_of;
        let p = BABY_BEAR_ORDER as int;
        modular::lemma_mod_ops(a.residue() * b.residue(), c.residue(), p);
        modular::lemma_mod_ops(a.residue(), b.residue() * c.residue(), p);
        modular::lemma_mod_ops(a.residue(), b.residue() + c.residue(), p);
        modular::lemma_mod_ops(a.residue() * b.residue(), a.residue() * c.residue(), p);
        vstd::arithmetic::div_mod::lemma_small_mod(a.residue() as nat, p as nat);
        assert(a.residue() * 1 == a.residue());
        vstd::arithmetic::mul::lemma_mul_is_commutative(a.residue(), b.residue());
        vstd::arithmetic::mul::lemma_mul_is_associative(a.residue(), b.residue(), c.residue());
        vstd::arithmetic::mul::lemma_mul_is_distributive_add(
            a.residue(),
            b.residue(),
            c.residue(),
        );
    }

    proof fn law_from_int(m: int, n: int) {
        broadcast use BabyBear::lemma_residue_of;
        modular::lemma_mod_ops(m, n, BABY_BEAR_ORDER as int);
    }

    proof fn law_small_int_unit(n: int) {
        broadcast use BabyBear::lemma_residue_of;
        assert forall|d: int, q: int|
            1 < d < BABY_BEAR_ORDER && 1 < q < BABY_BEAR_ORDER implies #[trigger] (d * q)
            != BABY_BEAR_ORDER as int by {
            lemma_baby_bear_prime(d, q);
        }
        let m = modular::lemma_prime_inverse(n, BABY_BEAR_ORDER as int);
        let y = BabyBear::of(m);
        vstd::arithmetic::div_mod::lemma_small_mod(n as nat, BABY_BEAR_ORDER as nat);
        vstd::arithmetic::div_mod::lemma_small_mod(m as nat, BABY_BEAR_ORDER as nat);
        assert(y.valid() && Self::from_int(n).times(y) == Self::one_elem());
    }

    fn zero() -> (r: Self) {
        BabyBear { value: 0 }
    }

    fn one() -> (r: Self) {
        BabyBear { value: 1 }
    }

    fn add(self, rhs: Self) -> (r: Self) {
        let sum: u64 = self.value as u64 + rhs.value as u64;
        BabyBear { value: (sum % BABY_BEAR_ORDER as u64) as u32 }
    }

    fn sub(self, rhs: Self) -> (r: Self) {
        let p: u64 = BABY_BEAR_ORDER as u64;
        let diff: u64 = self.value as u64 + 3 * p - rhs.value as u64;
        proof {
            vstd::arithmetic::div_mod::lemma_mod_multiples_vanish(
                3,
                self.value as int - rhs.value as int,
                p as int,
            );
        }
        BabyBear { value: (diff % p) as u32 }
    }

    fn mul(self, rhs: Self) -> (r: Self) {
        proof {
            vstd::arithmetic::mul::lemma_mul_upper_bound(
                self.value as int,
                u32::MAX as int,
                rhs.value as int,
                u32::MAX as int,
            );
        }
        let product: u64 = self.value as u64 * rhs.value as u64;
        BabyBear { value: (product % BABY_BEAR_ORDER as u64) as u32 }
    }

    fn neg(self) -> (r: Self) {
        let p: u64 = BABY_BEAR_ORDER as u64;
        let diff: u64 = 3 * p - self.value as u64;
        proof {
            vstd::arithmetic::div_mod::lemma_mod_multiples_vanish(
                3,
                -(self.value as int),
                p as int,
            );
        }
        BabyBear { value: (diff % p) as u32 }
    }

    fn is_equal(&self, other: &Self) -> (r: bool) {
        self.value == other.value
    }

    fn from_u64(n: u64) -> (r: Self) {
        BabyBear { value: (n % BABY_BEAR_ORDER as u64) as u32 }
    }

    fn try_inverse(&self) -> (r: Option<Self>) {
        broadcast use BabyBear::lemma_residue_of;
        match baby_bear_try_inverse(self.value) {
            Some(m) => Some(BabyBear { value: m }),
            None => None,
        }
    }
}

impl PrimeField32 for BabyBear {
    open spec fn to_int(self) -> int {
        self.residue()
    }

    proof fn law_residues(a: Self, b: Self) {
        broadcast use BabyBear::lemma_residue_of;
    }

    proof fn law_from_int_residue(n: int) {
        broadcast use BabyBear::lemma_residue_of;
    }

    fn as_canonical_u32(&self) -> (r: u32) {
        self.value
    }

    fn from_canonical_u32(n: u32) -> (r: Self) {
        BabyBear { value: n }
    }

    fn order() -> (r: u32) {
        BABY_BEAR_ORDER
    }
}

/// The generator of the subgroup of order `2^bits` of the multiplicative group, for `bits` up to
/// `27`: each is the square of the next.
pub open spec fn baby_bear_generator(bits: nat) -> int
    decreases 27 - bits,
{
    if bits >= 27 {
        0x1a427a41
    } else {
        (baby_bear_generator(bits + 1) * baby_bear_generator(bits + 1)) % (BABY_BEAR_ORDER as int)
    }
}

/// The generator of order two is the opposite of one.
#[verifier::spinoff_prover]
proof fn lemma_baby_bear_generator_one()
    ensures
        baby_bear_generator(1) == BABY_BEAR_ORDER - 1,
        baby_bear_generator(0) == 1,
{
    assert(baby_bear_generator(27) == 0x1a427a41);
    assert(baby_bear_generator(26) == 0x3a26eef8);
    assert(baby_bear_generator(25) == 0x4483d85a);
    assert(baby_bear_generator(24) == 0x3bd57996);
    assert(baby_bear_generator(23) == 0x4b859b3d);
    assert(baby_bear_generator(22) == 0x21fd55bc);
    assert(baby_bear_generator(21) == 0x18adc27d);
    assert(baby_bear_generator(20) == 0xba067a3);
    assert(baby_bear_generator(19) == 0x3e9430e8);
    assert(baby_bear_generator(18) == 0x5cf5713f);
    assert(baby_bear_generator(17) == 0x4cabd6a6);
    assert(baby_bear_generator(16) == 0x54c131f4);
    assert(baby_bear_generator(15) == 0x77cad399);
    assert(baby_bear_generator(14) == 0x62c3d2b1);
    assert(baby_bear_generator(13) == 0x11c33e2a);
    assert(baby_bear_generator(12) == 0x4c734715);
    assert(baby_bear_generator(11) == 0x4fe61226);
    assert(baby_bear_generator(10) == 0x145e952d);
    assert(baby_bear_generator(9) == 0x688442f9);
    assert(baby_bear_generator(8) == 0x67456167);
    assert(baby_bear_generator(7) == 0x17b56c64);
    assert(baby_bear_generator(6) == 0x669d6090);
    assert(baby_bear_generator(5) == 0x2d4cc4da);
    assert(baby_bear_generator(4) == 0xbb4c4e4);
    assert(baby_bear_generator(3) == 0x5ee99486);
    assert(baby_bear_generator(2) == 0x67055c21);
    assert(baby_bear_generator(1) == 0x78000000);
    assert(baby_bear_generator(0) == 1);
}

proof fn lemma_baby_bear_generator_bound(bits: nat)
    ensures
        0 <= baby_bear_generator(bits) < BABY_BEAR_ORDER,
{
    if bits < 27 {
        modular::lemma_mod_ops(
            baby_bear_generator(bits + 1) * baby_bear_generator(bits + 1),
            0,
            BABY_BEAR_ORDER as int,
        );
    }
}

/// `p3_baby_bear::BabyBear::two_adic_generator`, a table whose last entry is the generator of
/// order `2^27` and whose other entries are the squares of their successors.
#[verifier::external_body]
fn baby_bear_two_adic_generator(bits: usize) -> (r: u32)
    requires
        bits <= 27,
    ensures
        r as int == baby_bear_generator(bits as nat),
{
    p3_baby_bear::BabyBear::two_adic_generator(bits).as_canonical_u32()
}

/// The constant of the binomial `X^4 - 11`.
pub const BABY_BEAR_W: u32 = 11;

type BabyBearExt = BinomialExtensionField<p3_baby_bear::BabyBear, 4>;

/// The polynomial with the given coefficients.
pub open spec fn baby_bear_coeffs(c: (u32, u32, u32, u32)) -> modular::Quartic {
    modular::Quartic { c0: c.0 as int, c1: c.1 as int, c2: c.2 as int, c3: c.3 as int }
}

/// Each coefficient is a residue.
pub open spec fn baby_bear_reduced(c: (u32, u32, u32, u32)) -> bool {
    &&& c.0 < BABY_BEAR_ORDER
    &&& c.1 < BABY_BEAR_ORDER
    &&& c.2 < BABY_BEAR_ORDER
    &&& c.3 < BABY_BEAR_ORDER
}

/// The two polynomials multiply to one modulo `X^4 - 11`.
pub open spec fn baby_bear_inverses(c: (u32, u32, u32, u32), d: (u32, u32, u32, u32)) -> bool {
    modular::quartic_mod(
        modular::quartic_product(baby_bear_coeffs(c), baby_bear_coeffs(d), BABY_BEAR_W as int),
        BABY_BEAR_ORDER as int,
    ) == modular::quartic_one()
}

/// The inverse modulo `X^4 - 11`, by `try_inverse` of `p3_field`'s `BinomialExtensionField` over
/// `p3_baby_bear::BabyBear`: `None` for zero alone, else the polynomial that multiplies with
/// the argument to one.
#[verifier::external_body]
fn baby_bear_ext_try_inverse(c: (u32, u32, u32, u32)) -> (r: Option<(u32, u32, u32, u32)>)
    requires
        baby_bear_reduced(c),
    ensures
        r is None <==> c == (0u32, 0u32, 0u32, 0u32),
        r is Some ==> baby_bear_reduced(r->0) && baby_bear_inverses(c, r->0),
{
    let base = [c.0, c.1, c.2, c.3].map(p3_baby_bear::BabyBear::from_canonical_u32);
    let x = BabyBearExt::from_base_slice(&base);
    x.try_inverse().map(|y| {
        let s: &[p3_baby_bear::BabyBear] = y.as_base_slice();
        let d = [s[0], s[1], s[2], s[3]].map(|e| e.as_canonical_u32());
        (d[0], d[1], d[2], d[3])
    })
}

/// The generator of the subgroup of order `2^bits` of the extension's multiplicative group, for
/// `bits` up to `29`: that of the prime field as far as it goes, and square roots of it.
pub open spec fn baby_bear_ext_generator(bits: nat) -> modular::Quartic {
    if bits == 29 {
        modular::Quartic { c0: 0, c1: 0, c2: 0, c3: 124907976 }
    } else if bits == 28 {
        modular::Quartic { c0: 0, c1: 0, c2: 1996171314, c3: 0 }
    } else {
        modular::Quartic { c0: baby_bear_generator(bits), c1: 0, c2: 0, c3: 0 }
    }
}

/// `two_adic_generator` of `p3_field`'s `BinomialExtensionField` over `p3_baby_bear::BabyBear`,
/// the generator of the prime field where its order suffices, else one of two listed elements.
#[verifier::external_body]
fn baby_bear_ext_two_adic_generator(bits: usize) -> (r: (u32, u32, u32, u32))
    requires
        bits <= 29,
    ensures
        baby_bear_coeffs(r) == baby_bear_ext_generator(bits as nat),
{
    let y = BabyBearExt::two_adic_generator(bits);
    let s: &[p3_baby_bear::BabyBear] = y.as_base_slice();
    let d = [s[0], s[1], s[2], s[3]].map(|e| e.as_canonical_u32());
    (d[0], d[1], d[2], d[3])
}

impl TwoAdicField for BabyBear {
    open spec fn two_adicity() -> nat {
        27
    }

    open spec fn generator_elem(bits: nat) -> Self {
        BabyBear::of(baby_bear_generator(bits))
    }

    proof fn law_generator(bits: nat) {
        broadcast use BabyBear::lemma_residue_of;
        let p = BABY_BEAR_ORDER as int;
        lemma_baby_bear_generator_one();
        lemma_baby_bear_generator_bound(bits);
        vstd::arithmetic::div_mod::lemma_small_mod(baby_bear_generator(bits) as nat, p as nat);
        if bits == 1 {
            vstd::arithmetic::div_mod::lemma_mod_multiples_vanish(1, -1, p);
        }
        if bits > 0 {
            let b = (bits - 1) as nat;
            assert(b + 1 == bits);
            lemma_baby_bear_generator_bound(b);
            vstd::arithmetic::div_mod::lemma_small_mod(baby_bear_generator(b) as nat, p as nat);
        }
    }

    fn two_adic_generator(bits: usize) -> (r: Self) {
        broadcast use BabyBear::lemma_residue_of;
        let g: u32 = baby_bear_two_adic_generator(bits);
        proof {
            lemma_baby_bear_generator_bound(bits as nat);
            vstd::arithmetic::div_mod::lemma_small_mod(g as nat, BABY_BEAR_ORDER as nat);
        }
        BabyBear { value: g }
    }

    fn two_adicity_usize() -> (r: usize) {
        27
    }
}

impl BinomiallyExtendable for BabyBear {
    open spec fn w_int() -> int {
        BABY_BEAR_W as int
    }

    open spec fn ext_two_adicity() -> nat {
        29
    }

    open spec fn ext_generator_coeffs(bits: nat) -> modular::Quartic {
        baby_bear_ext_generator(bits)
    }

    proof fn law_w() {
    }

    proof fn law_ext_generator(bits: nat) {
        broadcast use BabyBear::lemma_residue_of;
        let p = BABY_BEAR_ORDER as int;
        lemma_baby_bear_generator_bound(bits);
        vstd::arithmetic::div_mod::lemma_small_mod(baby_bear_generator(bits) as nat, p as nat);
        assert(baby_bear_generator(27) == 0x1a427a41);
        if bits == 29 {
            let g = baby_bear_ext_generator(29);
            assert(modular::quartic_product(g, g, BABY_BEAR_W as int) == modular::Quartic {
                c0: 0,
                c1: 0,
                c2: 11int * (124907976int * 124907976int),
                c3: 0,
            });
        } else if bits == 28 {
            let g = baby_bear_ext_generator(28);
            assert(modular::quartic_product(g, g, BABY_BEAR_W as int) == modular::Quartic {
                c0: 11int * (1996171314int * 1996171314int),
                c1: 0,
                c2: 0,
                c3: 0,
            });
        } else if bits > 0 {
            let b = (bits - 1) as nat;
            assert(b + 1 == bits);
            modular::lemma_quartic_constants(
                baby_bear_generator(bits),
                baby_bear_generator(bits),
                BABY_BEAR_W as int,
            );
        }
    }

    fn w() -> (r: Self) {
        broadcast use BabyBear::lemma_residue_of;
        BabyBear { value: BABY_BEAR_W }
    }

    fn ext_try_inverse(c: (Self, Self, Self, Self)) -> (r: Option<(Self, Self, Self, Self)>) {
        match baby_bear_ext_try_inverse((c.0.value, c.1.value, c.2.value, c.3.value)) {
            Some(d) => Some(
                (
                    BabyBear { value: d.0 },
                    BabyBear { value: d.1 },
                    BabyBear { value: d.2 },
                    BabyBear { value: d.3 },
                ),
            ),
            None => None,
        }
    }

    fn ext_two_adic_generator(bits: usize) -> (r: (Self, Self, Self, Self)) {
        let g = baby_bear_ext_two_adic_generator(bits);
        (
            BabyBear { value: g.0 },
            BabyBear { value: g.1 },
            BabyBear { value: g.2 },
            BabyBear { value: g.3 },
        )
    }

    fn ext_two_adicity_usize() -> (r: usize) {
        29
    }
}

} // verus!
