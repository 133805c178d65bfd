//! The KoalaBear field, the integers modulo `2^31 - 2^24 + 1`.
use vstd::prelude::*;
use p3_field::extension::BinomialExtensionField;
use p3_field::AbstractExtensionField;
use p3_field::AbstractField;
use p3_field::Field as OuterField;
use p3_field::PrimeField32 as OuterPrimeField32;
use p3_field::TwoAdicField as OuterTwoAdicField;
use crate::field::modular;
use crate::field::{BinomiallyExtendable, Field, PrimeField32, TwoAdicField};

verus! {

/// The order of the field.
pub const KOALA_BEAR_ORDER: u32 = 0x7f000001;

/// An element of the KoalaBear field.
#[derive(Clone, Copy, Debug, PartialEq, Eq, Hash)]
pub struct KoalaBear {
    value: u32,
}

/// The inverse modulo the KoalaBear prime, by `p3_koala_bear::KoalaBear::try_inverse`: `None` for
/// zero alone, else the residue that multiplies with `n` to one.
#[verifier::external_body]
fn koala_bear_try_inverse(n: u32) -> (r: Option<u32>)
    requires
        n < KOALA_BEAR_ORDER,
    ensures
        r is None <==> n == 0,
        r matches Some(m) ==> m < KOALA_BEAR_ORDER && (n as int * m as int)
            % (KOALA_BEAR_ORDER as int) == 1,
{
    let x = p3_koala_bear::KoalaBear::from_canonical_u32(n);
    x.try_inverse().map(|y| y.as_canonical_u32())
}

#[verifier::rlimit(100)]
proof fn lemma_no_small_divisor(d: u16, q: u32)
    by (bit_vector)
    requires
        3 <= d <= 46160,
        d & 1 == 1,
        46160 <= q < 0x80000000,
    ensures
        (d as u32) * q != 0x7f000001u32,
{
}

/// The order of the field is prime.
pub proof fn lemma_koala_bear_prime(d: int, q: int)
    requires
        1 < d < KOALA_BEAR_ORDER,
        1 < q < KOALA_BEAR_ORDER,
    ensures
        d * q != KOALA_BEAR_ORDER,
{
    if d * q == KOALA_BEAR_ORDER {
        let (s, t) = if d <= q {
            (d, q)
        } else {
            (q, d)
        };
        assert(s * t == KOALA_BEAR_ORDER) by (nonlinear_arith)
            requires
                d * q == KOALA_BEAR_ORDER,
                (s == d && t == q) || (s == q && t == d),
        ;
        assert(s <= 46160) by (nonlinear_arith)
            requires
                s * t == 0x7f000001int,
                1 < s <= t,
        ;
        assert(t >= 46160) by (nonlinear_arith)
            requires
                s * t == 0x7f000001int,
                1 < s <= t,
                s <= 46160,
        ;
        assert(s % 2 == 1) by (nonlinear_arith)
            requires
                s * t == 0x7f000001int,
                s >= 0,
        {
            if s % 2 == 0 {
                assert(s == 2 * (s / 2));
                assert(s * t == 2 * ((s / 2) * t)) by (nonlinear_arith)
                    requires
                        s == 2 * (s / 2),
                ;
            }
        }
        let ds = s as u16;
        let qt = t as u32;
        assert(ds & 1 == 1) by (bit_vector)
            requires
                ds % 2 == 1,
        ;
        lemma_no_small_divisor(ds, qt);
    }
}

impl KoalaBear {
    /// The residue that the element stands for.
    pub closed spec fn residue(self) -> int {
        self.value as int
    }

    /// The element that stands for an integer.
    pub closed spec fn of(n: int) -> Self {
        KoalaBear { value: (n % (KOALA_BEAR_ORDER as int)) as u32 }
    }

    pub broadcast proof fn lemma_residue_of(n: int)
        ensures
            #[trigger] KoalaBear::of(n).residue() == n % (KOALA_BEAR_ORDER as int),
    {
        modular::lemma_mod_ops(n, n, KOALA_BEAR_ORDER as int);
    }
}

impl Field for KoalaBear {
    open spec fn valid(self) -> bool {
        self.residue() < KOALA_BEAR_ORDER
    }

    open spec fn zero_elem() -> Self {
        KoalaBear::of(0)
    }

    open spec fn one_elem() -> Self {
        KoalaBear::of(1)
    }

    open spec fn plus(self, rhs: Self) -> Self {
        KoalaBear::of(self.residue() + rhs.residue())
    }

    open spec fn minus(self, rhs: Self) -> Self {
        KoalaBear::of(self.residue() - rhs.residue())
    }

    open spec fn times(self, rhs: Self) -> Self {
        KoalaBear::of(self.residue() * rhs.residue())
    }

    open spec fn opposite(self) -> Self {
        KoalaBear::of(-self.residue())
    }

    open spec fn from_int(n: int) -> Self {
        KoalaBear::of(n)
    }

    open spec fn characteristic() -> int {
        KOALA_BEAR_ORDER as int
    }

    proof fn law_constants() {
    }

    proof fn law_closed(a: Self, b: Self) {
        broadcast use KoalaBear::lemma_residue_of;
        modular::lemma_mod_ops(a.residue() + b.residue(), 0, KOALA_BEAR_ORDER as int);
        modular::lemma_mod_ops(a.residue() - b.residue(), 0, KOALA_BEAR_ORDER as int);
        modular::lemma_mod_ops(a.residue() * b.residue(), 0, KOALA_BEAR_ORDER as int);
        modular::lemma_mod_ops(-a.residue(), 0, KOALA_BEAR_ORDER as int);
    }

    proof fn law_plus(a: Self, b: Self, c: Self) {
        broadcast use KoalaBear::lemma_residue_of;
        let p = KOALA_BEAR_ORDER as int;
        modular::lemma_mod_ops(a.residue() + b.residue(), c.residue(), p);
        modular::lemma_mod_ops(a.residue(), b.residue() + c.residue(), p);
        modular::lemma_mod_ops(a.residue(), -a.residue(), p);
        modular::lemma_mod_ops(a.residue(), -b.residue(), p);
        vstd::arithmetic::div_mod::lemma_small_mod(a.residue() as nat, p as nat);
    }

    proof fn law_times(a: Self, b: Self, c: Self) {
        broadcast use KoalaBear::lemma_residue_of;
        let p = KOALA_BEAR_ORDER as int;
        modular::lemma_mod_ops(a.residue() * b.residue(), c.residue(), p);
        modular::lemma_mod_ops(a.residue(), b.residue() * c.residue(), p);
        modular::lemma_mod_ops(a.residue(), b.residue() + c.residue(), p);
        modular::lemma_mod_ops(a.residue() * b.residue(), a.residue() * c.residue(), p);
        vstd::arithmetic::div_mod::lemma_small_mod(a.residue() as nat, p as nat);
        assert(a.residue() * 1 == a.residue());
        vstd::arithmetic::mul::lemma_mul_is_commutative(a.residue(), b.residue());
        vstd::arithmetic::mul::lemma_mul_is_associative(a.residue(), b.residue(), c.residue());
        vstd::arithmetic::mul::lemma_mul_is_distributive_add(
            a.residue(),
            b.residue(),
            c.residue(),
        );
    }

    proof fn law_from_int(m: int, n: int) {
        broadcast use KoalaBear::lemma_residue_of;
        modular::lemma_mod_ops(m, n, KOALA_BEAR_ORDER as int);
    }

    proof fn law_small_int_unit(n: int) {
        broadcast use KoalaBear::lemma_residue_of;
        assert forall|d: int, q: int|
            1 < d < KOALA_BEAR_ORDER && 1 < q < KOALA_BEAR_ORDER implies #[trigger] (d * q)
            != KOALA_BEAR_ORDER as int by {
            lemma_koala_bear_prime(d, q);
        }
        let m = modular::lemma_prime_inverse(n, KOALA_BEAR_ORDER as int);
        let y = KoalaBear::of(m);
        vstd::arithmetic::div_mod::lemma_small_mod(n as nat, KOALA_BEAR_ORDER as nat);
        vstd::arithmetic::div_mod::lemma_small_mod(m as nat, KOALA_BEAR_ORDER as nat);
        assert(y.valid() && Self::from_int(n).times(y) == Self::one_elem());
    }

    fn zero() -> (r: Self) {
        KoalaBear { value: 0 }
    }

    fn one() -> (r: Self) {
        KoalaBear { value: 1 }
    }

    fn add(self, rhs: Self) -> (r: Self) {
        let sum: u64 = self.value as u64 + rhs.value as u64;
        KoalaBear { value: (sum % KOALA_BEAR_ORDER as u64) as u32 }
    }

    fn sub(self, rhs: Self) -> (r: Self) {
        let p: u64 = KOALA_BEAR_ORDER as u64;
        let diff: u64 = self.value as u64 + 3 * p - rhs.value as u64;
        proof {
            vstd::arithmetic::div_mod::lemma_mod_multiples_vanish(
                3,
                self.value as int - rhs.value as int,
                p as int,
            );
        }
        KoalaBear { value: (diff % p) as u32 }
    }

    fn mul(self, rhs: Self) -> (r: Self) {
        proof {
            vstd::arithmetic::mul::lemma_mul_upper_bound(
                self.value as int,
                u32::MAX as int,
                rhs.value as int,
                u32::MAX as int,
            );
        }
        let product: u64 = self.value as u64 * rhs.value as u64;
        KoalaBear { value: (product % KOALA_BEAR_ORDER as u64) as u32 }
    }

    fn neg(self) -> (r: Self) {
        let p: u64 = KOALA_BEAR_ORDER as u64;
        let diff: u64 = 3 * p - self.value as u64;
        proof {
            vstd::arithmetic::div_mod::lemma_mod_multiples_vanish(
                3,
                -(self.value as int),
                p as int,
            );
        }
        KoalaBear { value: (diff % p) as u32 }
    }

    fn is_equal(&self, other: &Self) -> (r: bool) {
        self.value == other.value
    }

    fn from_u64(n: u64) -> (r: Self) {
        KoalaBear { value: (n % KOALA_BEAR_ORDER as u64) as u32 }
    }

    fn try_inverse(&self) -> (r: Option<Self>) {
        broadcast use KoalaBear::lemma_residue_of;
        match koala_bear_try_inverse(self.value) {
            Some(m) => Some(KoalaBear { value: m }),
            None => None,
        }
    }
}

impl PrimeField32 for KoalaBear {
    open spec fn to_int(self) -> int {
        self.residue()
    }

    proof fn law_residues(a: Self, b: Self) {
        broadcast use KoalaBear::lemma_residue_of;
    }

    proof fn law_from_int_residue(n: int) {
        broadcast use KoalaBear::lemma_residue_of;
    }

    fn as_canonical_u32(&self) -> (r: u32) {
        self.value
    }

    fn from_canonical_u32(n: u32) -> (r: Self) {
        KoalaBear { value: n }
    }

    fn order() -> (r: u32) {
        KOALA_BEAR_ORDER
    }
}

/// The generator of the subgroup of order `2^bits` of the multiplicative group, for `bits` up to
/// `24`: each is the square of the next.
pub open spec fn koala_bear_generator(bits: nat) -> int
    decreases 24 - bits,
{
    if bits >= 24 {
        0x6ac49f88
    } else {
        (koala_bear_generator(bits + 1) * koala_bear_generator(bits + 1)) % (KOALA_BEAR_ORDER as int)
    }
}

/// The generator of order two is the opposite of one.
#[verifier::spinoff_prover]
proof fn lemma_koala_bear_generator_one()
    ensures
        koala_bear_generator(1) == KOALA_BEAR_ORDER - 1,
        koala_bear_generator(0) == 1,
{
    assert(koala_bear_generator(24) == 0x6ac49f88);
    assert(koala_bear_generator(23) == 0x68e7dd49);
    assert(koala_bear_generator(22) == 0x205d63c3);
    assert(koala_bear_generator(21) == 0x484ef19b);
    assert(koala_bear_generator(20) == 0x514ddcad);
    assert(koala_bear_generator(19) == 0x143ef899);
    assert(koala_bear_generator(18) == 0x6c4a8a45);
    assert(koala_bear_generator(17) == 0x163bd499);
    assert(koala_bear_generator(16) == 0x6e2f4d7a);
    assert(koala_bear_generator(15) == 0x45a60e61);
    assert(koala_bear_generator(14) == 0x3e687d4d);
    assert(koala_bear_generator(13) == 0x303964b2);
    assert(koala_bear_generator(12) == 0x768fc6fa);
    assert(koala_bear_generator(11) == 0x7744959c);
    assert(koala_bear_generator(10) == 0x334d48c7);
    assert(koala_bear_generator(9) == 0x27ad539b);
    assert(koala_bear_generator(8) == 0x17668b8a);
    assert(koala_bear_generator(7) == 0x29b75a80);
    assert(koala_bear_generator(6) == 0x5c4a5b99);
    assert(koala_bear_generator(5) == 0xa28f031);
    assert(koala_bear_generator(4) == 0x8dbd69c);
    assert(koala_bear_generator(3) == 0x6832fe4a);
    assert(koala_bear_generator(2) == 0x7e010002);
    assert(koala_bear_generator(1) == 0x7f000000);
    assert(koala_bear_generator(0) == 1);
}

proof fn lemma_koala_bear_generator_bound(bits: nat)
    ensures
        0 <= koala_bear_generator(bits) < KOALA_BEAR_ORDER,
{
    if bits < 24 {
        modular::lemma_mod_ops(
            koala_bear_generator(bits + 1) * koala_bear_generator(bits + 1),
            0,
            KOALA_BEAR_ORDER as int,
        );
    }
}

/// `p3_koala_bear::KoalaBear::two_adic_generator`, a table whose last entry is the generator of
/// order `2^24` and whose other entries are the squares of their successors.
#[verifier::external_body]
fn koala_bear_two_adic_generator(bits: usize) -> (r: u32)
    requires
        bits <= 24,
    ensures
        r as int == koala_bear_generator(bits as nat),
{
    p3_koala_bear::KoalaBear::two_adic_generator(bits).as_canonical_u32()
}

/// The constant of the binomial `X^4 - 3`.
pub const KOALA_BEAR_W: u32 = 3;

type KoalaBearExt = BinomialExtensionField<p3_koala_bear::KoalaBear, 4>;

/// The polynomial with the given coefficients.
pub open spec fn koala_bear_coeffs(c: (u32, u32, u32, u32)) -> modular::Quartic {
    modular::Quartic { c0: c.0 as int, c1: c.1 as int, c2: c.2 as int, c3: c.3 as int }
}

/// Each coefficient is a residue.
pub open spec fn koala_bear_reduced(c: (u32, u32, u32, u32)) -> bool {
    &&& c.0 < KOALA_BEAR_ORDER
    &&& c.1 < KOALA_BEAR_ORDER
    &&& c.2 < KOALA_BEAR_ORDER
    &&& c.3 < KOALA_BEAR_ORDER
}

/// The two polynomials multiply to one modulo `X^4 - 3`.
pub open spec fn koala_bear_inverses(c: (u32, u32, u32, u32), d: (u32, u32, u32, u32)) -> bool {
    modular::quartic_mod(
        modular::quartic_product(koala_bear_coeffs(c), koala_bear_coeffs(d), KOALA_BEAR_W as int),
        KOALA_BEAR_ORDER as int,
    ) == modular::quartic_one()
}

/// The inverse modulo `X^4 - 3`, by `try_inverse` of `p3_field`'s `BinomialExtensionField` over
/// `p3_koala_bear::KoalaBear`: `None` for zero alone, else the polynomial that multiplies with
/// the argument to one.
#[verifier::external_body]
fn koala_bear_ext_try_inverse(c: (u32, u32, u32, u32)) -> (r: Option<(u32, u32, u32, u32)>)
    requires
        koala_bear_reduced(c),
    ensures
        r is None <==> c == (0u32, 0u32, 0u32, 0u32),
        r is Some ==> koala_bear_reduced(r->0) && koala_bear_inverses(c, r->0),
{
    let base = [c.0, c.1, c.2, c.3].map(p3_koala_bear::KoalaBear::from_canonical_u32);
    let x = KoalaBearExt::from_base_slice(&base);
    x.try_inverse().map(|y| {
        let s: &[p3_koala_bear::KoalaBear] = y.as_base_slice();
        let d = [s[0], s[1], s[2], s[3]].map(|e| e.as_canonical_u32());
        (d[0], d[1], d[2], d[3])
    })
}

/// The generator of the subgroup of order `2^bits` of the extension's multiplicative group, for
/// `bits` up to `26`: that of the prime field as far as it goes, and square roots of it.
pub open spec fn koala_bear_ext_generator(bits: nat) -> modular::Quartic {
    if bits == 26 {
        modular::Quartic { c0: 0, c1: 0, c2: 0, c3: 777715144 }
    } else if bits == 25 {
        modular::Quartic { c0: 0, c1: 0, c2: 1759267465, c3: 0 }
    } else {
        modular::Quartic { c0: koala_bear_generator(bits), c1: 0, c2: 0, c3: 0 }
    }
}

/// `two_adic_generator` of `p3_field`'s `BinomialExtensionField` over `p3_koala_bear::KoalaBear`,
/// the generator of the prime field where its order suffices, else one of two listed elements.
#[verifier::external_body]
fn koala_bear_ext_two_adic_generator(bits: usize) -> (r: (u32, u32, u32, u32))
    requires
        bits <= 26,
    ensures
        koala_bear_coeffs(r) == koala_bear_ext_generator(bits as nat),
{
    let y = KoalaBearExt::two_adic_generator(bits);
    let s: &[p3_koala_bear::KoalaBear] = y.as_base_slice();
    let d = [s[0], s[1], s[2], s[3]].map(|e| e.as_canonical_u32());
    (d[0], d[1], d[2], d[3])
}

impl TwoAdicField for KoalaBear {
    open spec fn two_adicity() -> nat {
        24
    }

    open spec fn generator_elem(bits: nat) -> Self {
        KoalaBear::of(koala_bear_generator(bits))
    }

    proof fn law_generator(bits: nat) {
        broadcast use KoalaBear::lemma_residue_of;
        let p = KOALA_BEAR_ORDER as int;
        lemma_koala_bear_generator_one();
        lemma_koala_bear_generator_bound(bits);
        vstd::arithmetic::div_mod::lemma_small_mod(koala_bear_generator(bits) as nat, p as nat);
        if bits == 1 {
            vstd::arithmetic::div_mod::lemma_mod_multiples_vanish(1, -1, p);
        }
        if bits > 0 {
            let b = (bits - 1) as nat;
            assert(b + 1 == bits);
            lemma_koala_bear_generator_bound(b);
            vstd::arithmetic::div_mod::lemma_small_mod(koala_bear_generator(b) as nat, p as nat);
        }
    }

    fn two_adic_generator(bits: usize) -> (r: Self) {
        broadcast use KoalaBear::lemma_residue_of;
        let g: u32 = koala_bear_two_adic_generator(bits);
        proof {
            lemma_koala_bear_generator_bound(bits as nat);
            vstd::arithmetic::div_mod::lemma_small_mod(g as nat, KOALA_BEAR_ORDER as nat);
        }
        KoalaBear { value: g }
    }

    fn two_adicity_usize() -> (r: usize) {
        24
    }
}

impl BinomiallyExtendable for KoalaBear {
    open spec fn w_int() -> int {
        KOALA_BEAR_W as int
    }

    open spec fn ext_two_adicity() -> nat {
        26
    }

    open spec fn ext_generator_coeffs(bits: nat) -> modular::Quartic {
        koala_bear_ext_generator(bits)
    }

    proof fn law_w() {
    }

    proof fn law_ext_generator(bits: nat) {
        broadcast use KoalaBear::lemma_residue_of;
        let p = KOALA_BEAR_ORDER as int;
        lemma_koala_bear_generator_bound(bits);
        vstd::arithmetic::div_mod::lemma_small_mod(koala_bear_generator(bits) as nat, p as nat);
        assert(koala_bear_generator(24) == 0x6ac49f88);
        if bits == 26 {
            let g = koala_bear_ext_generator(26);
            assert(modular::quartic_product(g, g, KOALA_BEAR_W as int) == modular::Quartic {
                c0: 0,
                c1: 0,
                c2: 3int * (777715144int * 777715144int),
                c3: 0,
            });
        } else if bits == 25 {
            let g = koala_bear_ext_generator(25);
            assert(modular::quartic_product(g, g, KOALA_BEAR_W as int) == modular::Quartic {
                c0: 3int * (1759267465int * 1759267465int),
                c1: 0,
                c2: 0,
                c3: 0,
            });
        } else if bits > 0 {
            let b = (bits - 1) as nat;
            assert(b + 1 == bits);
            modular::lemma_quartic_constants(
                koala_bear_generator(bits),
                koala_bear_generator(bits),
                KOALA_BEAR_W as int,
            );
        }
    }

    fn w() -> (r: Self) {
        broadcast use KoalaBear::lemma_residue_of;
        KoalaBear { value: KOALA_BEAR_W }
    }

    fn ext_try_inverse(c: (Self, Self, Self, Self)) -> (r: Option<(Self, Self, Self, Self)>) {
        match koala_bear_ext_try_inverse((c.0.value, c.1.value, c.2.value, c.3.value)) {
            Some(d) => Some(
                (
                    KoalaBear { value: d.0 },
                    KoalaBear { value: d.1 },
                    KoalaBear { value: d.2 },
                    KoalaBear { value: d.3 },
                ),
            ),
            None => None,
        }
    }

    fn ext_two_adic_generator(bits: usize) -> (r: (Self, Self, Self, Self)) {
        let g = koala_bear_ext_two_adic_generator(bits);
        (
            KoalaBear { value: g.0 },
            KoalaBear { value: g.1 },
            KoalaBear { value: g.2 },
            KoalaBear { value: g.3 },
        )
    }

    fn ext_two_adicity_usize() -> (r: usize) {
        26
    }
}

} // verus!
