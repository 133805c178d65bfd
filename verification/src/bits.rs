//! Powers of two and reversals of bits.
use vstd::prelude::*;
use vstd::arithmetic::power2::*;

verus! {

/// `2^k`.
pub fn two_to_the(k: usize) -> (r: usize)
    requires
        k < usize::BITS,
    ensures
        r == pow2(k as nat),
{
    proof {
        vstd::bits::lemma_usize_pow2_no_overflow(k as nat);
        vstd::bits::lemma_usize_shl_is_mul(1usize, k);
    }
    1usize << k
}

/// `x` without its lowest `k` bits.
pub fn shift_right(x: usize, k: usize) -> (r: usize)
    requires
        k < usize::BITS,
    ensures
        r as nat == x as nat / pow2(k as nat),
{
    proof {
        vstd::bits::lemma_usize_shr_is_div(x, k);
    }
    x >> k
}

/// The exponent of a power of two.
pub open spec fn log2(n: nat) -> nat
    decreases n,
{
    if n <= 1 {
        0
    } else {
        1 + log2(n / 2)
    }
}

/// `n` is a power of two.
pub open spec fn power_of_two(n: nat) -> bool {
    n > 0 && pow2(log2(n)) == n
}

pub proof fn lemma_log2_pow2(k: nat)
    ensures
        log2(pow2(k)) == k,
        power_of_two(pow2(k)),
    decreases k,
{
    lemma_pow2_pos(k);
    if k > 0 {
        lemma_log2_pow2((k - 1) as nat);
        lemma_pow2_unfold(k);
        lemma_pow2_pos((k - 1) as nat);
    } else {
        lemma2_to64();
    }
}

pub proof fn lemma_log2_bound(n: nat, k: nat)
    requires
        n < pow2(k),
    ensures
        log2(n) <= k,
        n > 0 ==> log2(n) < k,
        n > 0 ==> pow2(log2(n)) <= n < 2 * pow2(log2(n)),
    decreases n,
{
    lemma2_to64();
    if n > 1 {
        assert(k > 0);
        lemma_pow2_unfold(k);
        lemma_log2_bound(n / 2, (k - 1) as nat);
        lemma_pow2_unfold(log2(n));
        assert(log2(n) - 1 == log2(n / 2));
    } else if n == 1 {
        assert(k > 0);
    }
}

/// The logarithm of a power of two.
pub fn log2_strict(n: usize) -> (r: usize)
    requires
        power_of_two(n as nat),
    ensures
        r as nat == log2(n as nat),
        n == pow2(r as nat),
        r < usize::BITS,
{
    let mut m: usize = n;
    let mut r: usize = 0;
    proof {
        lemma_log2_usize(n);
    }
    while m > 1
        invariant
            r + log2(m as nat) == log2(n as nat),
            m >= 1,
            log2(n as nat) < usize::BITS,
        decreases m,
    {
        m = m / 2;
        r = r + 1;
    }
    r
}

pub proof fn lemma_pow2_bits()
    ensures
        pow2(usize::BITS as nat) == usize::MAX + 1,
{
    lemma2_to64();
    lemma2_to64_rest();
}

pub proof fn lemma_log2_usize(n: usize)
    ensures
        log2(n as nat) < usize::BITS,
{
    lemma_pow2_bits();
    if n > 0 {
        lemma_log2_bound(n as nat, usize::BITS as nat);
    }
}

/// The least power of two that is not below `n`.
pub open spec fn pow2_above(n: nat) -> nat {
    if n <= 1 {
        1
    } else {
        2 * pow2(log2((n - 1) as nat))
    }
}

pub proof fn lemma_pow2_above(n: nat)
    ensures
        power_of_two(pow2_above(n)),
        pow2_above(n) >= n,
        forall|k: nat| #[trigger] pow2(k) >= n ==> pow2(k) >= pow2_above(n),
        power_of_two(n) ==> pow2_above(n) == n,
{
    lemma2_to64();
    lemma2_to64_rest();
    if n <= 1 {
        lemma_log2_pow2(0);
        assert forall|k: nat| #[trigger] pow2(k) >= n implies pow2(k) >= pow2_above(n) by {
            lemma_pow2_pos(k);
        }
    } else {
        let m = (n - 1) as nat;
        let l = log2(m);
        lemma_log2_large(m);
        lemma_pow2_unfold(l + 1);
        lemma_log2_pow2(l + 1);
        assert forall|k: nat| #[trigger] pow2(k) >= n implies pow2(k) >= pow2_above(n) by {
            if k <= l {
                if k < l {
                    lemma_pow2_strictly_increases(k, l);
                }
            } else if k > l + 1 {
                lemma_pow2_strictly_increases(l + 1, k);
            }
        }
        if power_of_two(n) {
            assert(pow2(log2(n)) >= n);
        }
    }
}

pub proof fn lemma_log2_large(n: nat)
    requires
        n > 0,
    ensures
        pow2(log2(n)) <= n < 2 * pow2(log2(n)),
    decreases n,
{
    lemma2_to64();
    if n > 1 {
        lemma_log2_large(n / 2);
        lemma_pow2_unfold(log2(n));
        assert(log2(n) - 1 == log2(n / 2));
    }
}

/// The least power of two that is not below `n`.
pub fn next_pow2(n: usize) -> (r: usize)
    requires
        pow2_above(n as nat) <= usize::MAX,
    ensures
        r as nat == pow2_above(n as nat),
{
    let mut r: usize = 1;
    let ghost mut k: nat = 0;
    let ghost top = pow2_above(n as nat);
    proof {
        lemma_pow2_above(n as nat);
        lemma2_to64();
        lemma_pow2_pos(log2(top));
    }
    while r < n
        invariant
            r == pow2(k),
            r <= top,
            n <= top <= usize::MAX,
            power_of_two(top),
        decreases top - r,
    {
        proof {
            let l = log2(top);
            lemma_pow2_unfold(k + 1);
            lemma_pow2_pos(k);
            assert(k < l) by {
                if k > l {
                    lemma_pow2_strictly_increases(l, k);
                }
            }
            if k + 1 < l {
                lemma_pow2_strictly_increases(k + 1, l);
            }
        }
        r = r * 2;
        proof {
            k = k + 1;
        }
    }
    proof {
        assert(pow2(k) >= n);
        lemma_pow2_above(n as nat);
    }
    r
}

/// The lowest `n` bits of `x`, in the opposite order.
pub open spec fn reversed(x: nat, n: nat) -> nat
    decreases n,
{
    if n == 0 {
        0
    } else {
        (x % 2) * pow2((n - 1) as nat) + reversed(x / 2, (n - 1) as nat)
    }
}

pub proof fn lemma_reversed_bound(x: nat, n: nat)
    ensures
        reversed(x, n) < pow2(n),
    decreases n,
{
    lemma_pow2_pos(n);
    if n > 0 {
        lemma_reversed_bound(x / 2, (n - 1) as nat);
        lemma_pow2_unfold(n);
        let p = pow2((n - 1) as nat);
        assert((x % 2) * p <= p) by (nonlinear_arith)
            requires
                x % 2 <= 1,
        ;
    }
}

/// The lowest `n` bits of `x`, in the opposite order.
pub fn reverse_bits_len(x: usize, n: usize) -> (r: usize)
    requires
        n < usize::BITS,
    ensures
        r as nat == reversed(x as nat, n as nat),
{
    let mut y: usize = x;
    let mut r: usize = 0;
    let mut i: usize = 0;
    proof {
        lemma2_to64();
    }
    while i < n
        invariant
            i <= n < usize::BITS,
            r < pow2(i as nat),
            reversed(x as nat, n as nat) == r * pow2((n - i) as nat) + reversed(
                y as nat,
                (n - i) as nat,
            ),
        decreases n - i,
    {
        let ghost r0 = r as int;
        proof {
            lemma_pow2_unfold((i + 1) as nat);
            vstd::bits::lemma_usize_pow2_no_overflow((i + 1) as nat);
            let m = (n - i) as nat;
            lemma_pow2_unfold(m);
            let q = pow2((m - 1) as nat) as int;
            let b = (y as nat % 2) as int;
            assert(r0 * (2 * q) + b * q == (2 * r0 + b) * q) by (nonlinear_arith);
        }
        r = r * 2 + y % 2;
        y = y / 2;
        i = i + 1;
    }
    proof {
        lemma2_to64();
        assert(r * 1 == r);
    }
    r
}

} // verus!
