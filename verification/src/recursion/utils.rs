//! Row counts and padding.
use vstd::prelude::*;
use vstd::arithmetic::power2::*;
use crate::bits;

verus! {

/// Number of rounds to skip when the chip height is below the threshold.
pub const NUM_SKIP_ROUNDS: usize = 1;

/// Chip log-height threshold below which skip-rounding is applied.
pub const CHIP_LOG_HEIGHT_THRESHOLD: usize = 0;

/// The logarithm of a power of two.
pub fn log2_strict_usize(n: usize) -> (r: usize)
    requires
        bits::power_of_two(n as nat),
    ensures
        r as nat == bits::log2(n as nat),
        n == pow2(r as nat),
        r < usize::BITS,
{
    bits::log2_strict(n)
}

/// The height that [`next_power_of_two`] pads `n` rows to.
pub open spec fn padded_height(n: nat, fixed_power: Option<usize>) -> nat {
    let free = if bits::pow2_above(n) < 16 {
        16
    } else {
        bits::pow2_above(n)
    };
    match fixed_power {
        Some(power) => if n > pow2(power as nat) {
            free
        } else {
            pow2(power as nat)
        },
        None => free,
    }
}

/// The height to pad `n` rows to: `2^fixed_power` where the rows fit into it, else the least power
/// of two that they fit into, at least sixteen.
pub fn next_power_of_two(n: usize, fixed_power: Option<usize>) -> (r: usize)
    requires
        bits::pow2_above(n as nat) <= usize::MAX,
        fixed_power matches Some(power) ==> power < usize::BITS,
    ensures
        r as nat == padded_height(n as nat, fixed_power),
        r >= n,
        bits::power_of_two(r as nat),
{
    proof {
        bits::lemma_pow2_above(n as nat);
        bits::lemma_log2_pow2(4);
        lemma2_to64();
    }
    match fixed_power {
        Some(power) => {
            let padded_nb_rows: usize = bits::two_to_the(power);
            proof {
                bits::lemma_log2_pow2(power as nat);
            }
            if n > padded_nb_rows {
                let mut fallback: usize = bits::next_pow2(n);
                if fallback < 16 {
                    fallback = 16;
                }
                return fallback;
            }
            padded_nb_rows
        },
        None => {
            let mut padded_nb_rows: usize = bits::next_pow2(n);
            if padded_nb_rows < 16 {
                padded_nb_rows = 16;
            }
            padded_nb_rows
        },
    }
}

/// The height that skip-rounding raises a height below the threshold to.
pub open spec fn threshold_height(padded_nb_rows: nat) -> nat {
    let l = bits::log2(padded_nb_rows);
    if l < CHIP_LOG_HEIGHT_THRESHOLD {
        pow2(((l + NUM_SKIP_ROUNDS - 1) / NUM_SKIP_ROUNDS as int * NUM_SKIP_ROUNDS) as nat)
    } else {
        padded_nb_rows
    }
}

/// Raises a height below the threshold to the next multiple of the skipped rounds.
pub fn padded_rows_threshold(padded_nb_rows: usize) -> (r: usize)
    requires
        bits::power_of_two(padded_nb_rows as nat),
    ensures
        r as nat == threshold_height(padded_nb_rows as nat),
{
    let log2: usize = log2_strict_usize(padded_nb_rows);
    if log2 < CHIP_LOG_HEIGHT_THRESHOLD {
        let rounds: usize = (log2 + (NUM_SKIP_ROUNDS - 1)) / NUM_SKIP_ROUNDS;
        bits::two_to_the(rounds * NUM_SKIP_ROUNDS)
    } else {
        padded_nb_rows
    }
}

/// Appends copies of a dummy row up to the padded height.
pub fn pad_rows_fixed<R: Clone, RowFn: Fn() -> R>(
    rows: &mut Vec<R>,
    row_fn: RowFn,
    size_log2: Option<usize>,
)
    requires
        bits::pow2_above(old(rows)@.len()) <= usize::MAX,
        size_log2 matches Some(power) ==> power < usize::BITS,
        call_requires(row_fn, ()),
    ensures
        final(rows)@.len() == threshold_height(padded_height(old(rows)@.len(), size_log2)),
        final(rows)@.subrange(0, old(rows)@.len() as int) == old(rows)@,
        final(rows)@.len() > old(rows)@.len() ==> exists|dummy: R|
            {
                &&& #[trigger] call_ensures(row_fn, (), dummy)
                &&& forall|i: int|
                    old(rows)@.len() <= i < final(rows)@.len() ==> cloned::<R>(
                        dummy,
                        #[trigger] final(rows)@[i],
                    )
            },
{
    let nb_rows: usize = rows.len();
    let dummy_row = row_fn();
    let padded_nb_rows: usize = padded_rows_threshold(next_power_of_two(nb_rows, size_log2));
    rows.resize(padded_nb_rows, dummy_row);
    assert(rows@.subrange(0, nb_rows as int) =~= old(rows)@);
}

/// Appends default values up to a power of two of rows of `N` values, at least sixteen rows.
pub fn pad_to_power_of_two<const N: usize, T: Clone + Default>(values: &mut Vec<T>)
    requires
        N > 0,
        old(values)@.len() % N as nat == 0,
        padded_height(old(values)@.len() / N as nat, None) * N <= usize::MAX,
    ensures
        final(values)@.len() == padded_height(old(values)@.len() / N as nat, None) * N,
        final(values)@.subrange(0, old(values)@.len() as int) == old(values)@,
        final(values)@.len() > old(values)@.len() ==> exists|fill: T|
            {
                &&& #[trigger] call_ensures(T::default, (), fill)
                &&& forall|i: int|
                    old(values)@.len() <= i < final(values)@.len() ==> cloned::<T>(
                        fill,
                        #[trigger] final(values)@[i],
                    )
            },
{
    let n_real_rows: usize = values.len() / N;
    let fill = T::default();
    proof {
        bits::lemma_pow2_above(n_real_rows as nat);
        assert(n_real_rows * N == values.len()) by {
            vstd::arithmetic::div_mod::lemma_fundamental_div_mod(values.len() as int, N as int);
            vstd::arithmetic::mul::lemma_mul_is_commutative(N as int, n_real_rows as int);
        }
        let h = padded_height(n_real_rows as nat, None) as int;
        assert(h <= h * N) by (nonlinear_arith)
            requires
                N >= 1,
                h >= 0,
        ;
        assert(n_real_rows * N <= h * N) by (nonlinear_arith)
            requires
                n_real_rows <= h,
                N >= 1,
        ;
    }
    let height: usize = next_power_of_two(n_real_rows, None);
    values.resize(height * N, fill);
    assert(values@.subrange(0, old(values)@.len() as int) =~= old(values)@);
}

/// The chunks of `chunk_size` items that a sequence splits into; the last may be shorter.
pub open spec fn chunks<T>(s: Seq<T>, chunk_size: nat) -> Seq<Seq<T>>
    decreases s.len(),
{
    if s.len() == 0 || chunk_size == 0 {
        Seq::empty()
    } else if s.len() <= chunk_size {
        seq![s]
    } else {
        seq![s.subrange(0, chunk_size as int)] + chunks(
            s.subrange(chunk_size as int, s.len() as int),
            chunk_size,
        )
    }
}

/// Splits a vector into chunks of `chunk_size` items; the last may be shorter.
pub fn chunk_vec<T>(vec: Vec<T>, chunk_size: usize) -> (result: Vec<Vec<T>>)
    requires
        chunk_size > 0 || vec@.len() == 0,
    ensures
        result@.len() == chunks(vec@, chunk_size as nat).len(),
        forall|i: int|
            0 <= i < result@.len() ==> (#[trigger] result@[i])@ == chunks(
                vec@,
                chunk_size as nat,
            )[i],
{
    let mut result: Vec<Vec<T>> = Vec::new();
    let mut rest = vec;
    let ghost all = vec@;
    let ghost size = chunk_size as nat;
    while rest.len() > 0
        invariant
            size == chunk_size,
            chunk_size > 0 || rest@.len() == 0,
            chunks(all, size).len() == result@.len() + chunks(rest@, size).len(),
            forall|i: int|
                0 <= i < result@.len() ==> (#[trigger] result@[i])@ == chunks(all, size)[i],
            forall|i: int|
                0 <= i < chunks(rest@, size).len() ==> #[trigger] chunks(rest@, size)[i]
                    == chunks(all, size)[result@.len() + i],
        decreases rest@.len(),
    {
        let current_chunk_size: usize = if chunk_size < rest.len() {
            chunk_size
        } else {
            rest.len()
        };
        let ghost before = rest@;
        let ghost done = result@.len();
        let tail = rest.split_off(current_chunk_size);
        proof {
            let here = chunks(before, size);
            assert(here[0] == chunks(all, size)[done as int + 0]);
            if before.len() <= size {
                assert(before.subrange(0, before.len() as int) =~= before);
                assert(tail@.len() == 0);
            } else {
                assert forall|i: int| 0 <= i < chunks(tail@, size).len() implies #[trigger] chunks(
                    tail@,
                    size,
                )[i] == chunks(all, size)[done + 1 + i] by {
                    assert(here[i + 1] == chunks(tail@, size)[i]);
                    assert(here[i + 1] == chunks(all, size)[done + (i + 1)]);
                }
            }
        }
        result.push(rest);
        rest = tail;
    }
    result
}

/// The indices below `N`, in order.
pub fn indices_arr<const N: usize>() -> (r: [usize; N])
    ensures
        forall|i: int| 0 <= i < N ==> #[trigger] r@[i] == i,
{
    let mut indices_arr: [usize; N] = [0usize; N];
    let mut i: usize = 0;
    while i < N
        invariant
            i <= N,
            forall|j: int| 0 <= j < i ==> #[trigger] indices_arr@[j] == j,
        decreases N - i,
    {
        indices_arr[i] = i;
        i = i + 1;
    }
    indices_arr
}

} // verus!
