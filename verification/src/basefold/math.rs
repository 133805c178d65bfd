//! Logarithms, dot products and systems of linear equations.
use vstd::prelude::*;
use vstd::arithmetic::power2::*;
use crate::bits;
use crate::field::{ExtensionField, Field};

verus! {

/// Common math helpers of `usize`.
pub trait Math: Sized {
    spec fn number(self) -> nat;

    /// `2^self`.
    fn pow2(self) -> (r: usize)
        requires
            self.number() < usize::BITS,
        ensures
            r == pow2(self.number()),
    ;

    /// The base-2 logarithm, rounded up.
    fn log_2(self) -> (r: usize)
        requires
            self.number() != 0,
        ensures
            r as nat == ceil_log2(self.number()),
    ;
}

/// The least `k` with `n <= 2^k`.
pub open spec fn ceil_log2(n: nat) -> nat {
    if bits::power_of_two(n) {
        bits::log2(n)
    } else {
        bits::log2(n) + 1
    }
}

/// Law: `2^k` reaches `n` exactly from `k = ceil_log2(n)` on.
pub proof fn law_ceil_log2(n: nat, k: nat)
    requires
        n > 0,
    ensures
        n <= pow2(k) <==> ceil_log2(n) <= k,
{
    let l = bits::log2(n);
    bits::lemma_log2_large(n);
    lemma_pow2_unfold(l + 1);
    if k < l {
        lemma_pow2_strictly_increases(k, l);
    } else if k > l {
        if k > l + 1 {
            lemma_pow2_strictly_increases(l + 1, k);
        }
    }
}

impl Math for usize {
    open spec fn number(self) -> nat {
        self as nat
    }

    fn pow2(self) -> (r: usize) {
        bits::two_to_the(self)
    }

    fn log_2(self) -> (r: usize) {
        let mut m: usize = self;
        let mut r: usize = 0;
        let mut exact: bool = true;
        proof {
            bits::lemma_log2_usize(self);
            lemma2_to64();
        }
        while m > 1
            invariant
                m >= 1,
                r + bits::log2(m as nat) == bits::log2(self as nat),
                bits::log2(self as nat) < usize::BITS,
                exact <==> self == m * pow2(r as nat),
                m * pow2(r as nat) <= self < (m + 1) * pow2(r as nat),
                self > 0,
            decreases m,
        {
            let ghost p = pow2(r as nat) as int;
            proof {
                lemma_pow2_unfold((r + 1) as nat);
                lemma_pow2_pos(r as nat);
                let h = m as int / 2;
                let s = self as int;
                if m % 2 == 1 {
                    assert(m == 2 * h + 1);
                    assert(s != h * (2 * p)) by (nonlinear_arith)
                        requires
                            (2 * h + 1) * p <= s,
                            p > 0,
                    ;
                } else {
                    assert(m == 2 * h);
                    assert(h * (2 * p) == (2 * h) * p) by (nonlinear_arith);
                }
                assert(h * (2 * p) <= s < (h + 1) * (2 * p)) by (nonlinear_arith)
                    requires
                        m * p <= s < (m + 1) * p,
                        2 * h <= m <= 2 * h + 1,
                        p > 0,
                ;
            }
            if m % 2 == 1 {
                exact = false;
            }
            m = m / 2;
            r = r + 1;
        }
        proof {
            assert(m == 1);
            assert(1 * pow2(r as nat) == pow2(r as nat));
            lemma2_to64();
        }
        if exact {
            r
        } else {
            r + 1
        }
    }
}

/// The sum of the products of the entries of two sequences of the same length.
pub open spec fn dot<F: Field>(a: Seq<F>, b: Seq<F>) -> F
    decreases a.len(),
{
    if a.len() == 0 {
        F::zero_elem()
    } else {
        dot(a.drop_last(), b.drop_last()).plus(a.last().times(b.last()))
    }
}

/// Computes the dot product of two slices.
pub fn compute_dotproduct<F: Field>(a: &[F], b: &[F]) -> (r: F)
    requires
        a@.len() == b@.len(),
    ensures
        r == dot(a@, b@),
{
    let mut acc = F::zero();
    let mut i: usize = 0;
    while i < a.len()
        invariant
            i <= a@.len() == b@.len(),
            acc == dot(a@.subrange(0, i as int), b@.subrange(0, i as int)),
        decreases a@.len() - i,
    {
        proof {
            assert(a@.subrange(0, i + 1).drop_last() =~= a@.subrange(0, i as int));
            assert(b@.subrange(0, i + 1).drop_last() =~= b@.subrange(0, i as int));
        }
        acc = acc.add(a[i].mul(b[i]));
        i = i + 1;
    }
    assert(a@.subrange(0, i as int) =~= a@);
    assert(b@.subrange(0, i as int) =~= b@);
    acc
}

/// The extension elements that a base-field slice stands for beside `n` extension elements: its
/// entries themselves, or groups of coordinates where it is as many times longer.
pub open spec fn mixed<F: Field, EF: ExtensionField<F>>(b: Seq<F>, n: nat) -> Seq<EF> {
    if b.len() == n {
        Seq::new(n, |i: int| EF::embed(b[i]))
    } else {
        Seq::new(
            n,
            |i: int|
                EF::from_coeffs(
                    b.subrange(i * EF::degree() as int, i * EF::degree() as int + EF::degree()),
                ),
        )
    }
}

/// Computes the dot product of an extension-field slice with a base-field slice, which holds one
/// base element or the coordinates of one extension element for each entry of the first.
pub fn compute_dotproduct_mix<F: Field, EF: ExtensionField<F>>(a: &[EF], b: &[F]) -> (r: EF)
    requires
        b@.len() == a@.len() || b@.len() == a@.len() * EF::degree(),
    ensures
        r == dot(a@, mixed::<F, EF>(b@, a@.len())),
{
    let ghost m = mixed::<F, EF>(b@, a@.len());
    let d: usize = EF::extension_degree();
    let same: bool = a.len() == b.len();
    let mut acc = EF::zero();
    let mut i: usize = 0;
    while i < a.len()
        invariant
            i <= a@.len(),
            d as nat == EF::degree(),
            same == (a@.len() == b@.len()),
            same || b@.len() == a@.len() * d,
            b@.len() <= usize::MAX,
            m == mixed::<F, EF>(b@, a@.len()),
            acc == dot(a@.subrange(0, i as int), m.subrange(0, i as int)),
        decreases a@.len() - i,
    {
        let e = if same {
            EF::from_base(b[i])
        } else {
            proof {
                assert(i * d + d <= b@.len()) by (nonlinear_arith)
                    requires
                        b@.len() == a@.len() * d,
                        i + 1 <= a@.len(),
                ;
                assert(i * d >= 0) by (nonlinear_arith)
                    requires
                        i >= 0,
                        d >= 0,
                ;
            }
            EF::from_base_slice(vstd::slice::slice_subrange(b, i * d, i * d + d))
        };
        proof {
            assert(e == m[i as int]);
            assert(a@.subrange(0, i + 1).drop_last() =~= a@.subrange(0, i as int));
            assert(m.subrange(0, i + 1).drop_last() =~= m.subrange(0, i as int));
        }
        acc = acc.add(a[i].mul(e));
        i = i + 1;
    }
    assert(a@.subrange(0, i as int) =~= a@);
    assert(m.subrange(0, i as int) =~= m);
    acc
}

/// Checks if `num` is a power of 2 and greater than 1.
pub fn is_power_of_two(num: usize) -> (r: bool)
    ensures
        r == (num > 1 && bits::power_of_two(num as nat)),
{
    if num == 0 || num == 1 {
        return false;
    }
    let mut m: usize = num;
    let ghost mut k: nat = 0;
    proof {
        lemma2_to64();
    }
    while m > 1 && m % 2 == 0
        invariant
            m >= 1,
            num == m * pow2(k),
        decreases m,
    {
        proof {
            lemma_pow2_unfold(k + 1);
            let h = m as int / 2;
            assert((2 * h) * pow2(k) == h * (2 * pow2(k))) by (nonlinear_arith);
            k = k + 1;
        }
        m = m / 2;
    }
    proof {
        if m == 1 {
            bits::lemma_log2_pow2(k);
            assert(1 * pow2(k) == pow2(k));
        } else if bits::power_of_two(num as nat) {
            // An odd number above one does not divide a power of two.
            lemma_odd_times_pow2(m as nat, k, bits::log2(num as nat));
        }
    }
    m == 1
}

proof fn lemma_odd_times_pow2(m: nat, k: nat, l: nat)
    requires
        m % 2 == 1,
        m > 1,
    ensures
        m * pow2(k) != pow2(l),
    decreases k,
{
    lemma_pow2_pos(l);
    if m * pow2(k) != pow2(l) {
    } else if k == 0 {
        lemma2_to64();
        assert(m == pow2(l));
        if l > 0 {
            lemma_pow2_unfold(l);
        }
    } else {
        lemma_pow2_unfold(k);
        lemma_pow2_pos((k - 1) as nat);
        assert(m * (2 * pow2((k - 1) as nat)) == 2 * (m * pow2((k - 1) as nat))) by (nonlinear_arith);
        if l == 0 {
            lemma2_to64();
            assert(false);
        }
        lemma_pow2_unfold(l);
        lemma_odd_times_pow2(m, (k - 1) as nat, (l - 1) as nat);
    }
}

} // verus!
