//! What a shard leaves open, and what a machine's proof adds up to.
use vstd::prelude::*;
use crate::field;
use crate::field::algebra;
use crate::field::{ExtensionField, Field, PrimeField32};
use crate::stark::machine;
use crate::stark::machine::{MachineVerificationError, OpenKinds};
use crate::stark::messages;
use crate::stark::proof_types::{PublicValues, SCShardProof};
use crate::stark::septic_curve;
use crate::stark::septic_curve::Point;
use crate::stark::septic_digest;

verus! {

/// The fraction of a message that is sent once.
pub open spec fn sent_once<EF: Field>(alpha: EF, beta: EF, kind: usize, values: Seq<EF>) -> EF {
    field::quotient(EF::one_elem(), messages::encoding(alpha, beta, kind as int, values))
}

/// The random combination of a message vanishes.
pub open spec fn vanishes<EF: Field>(alpha: EF, beta: EF, kind: usize, values: Seq<EF>) -> bool {
    messages::encoding(alpha, beta, kind as int, values) == EF::zero_elem()
}

/// The state of a shard: its number, its clock and its program counter.
pub open spec fn shard_state<F: Field, EF: ExtensionField<F>>(shard: F, clk: F, pc: F) -> Seq<EF> {
    seq![EF::embed(shard), EF::embed(clk), EF::embed(pc)]
}

/// A link of the chain of initialised addresses, or of finalised ones.
pub open spec fn address_link<F: Field, EF: ExtensionField<F>>(finalised: bool, addr: F) -> Seq<EF> {
    seq![
        if finalised {
            EF::one_elem()
        } else {
            EF::zero_elem()
        },
        EF::embed(addr),
    ]
}

/// A link of the chain of global sums: the coordinates of a point.
pub open spec fn digest_link<F: Field, EF: ExtensionField<F>>(p: Point<F>) -> Seq<EF> {
    (p.x.take(7) + p.y.take(7)).map_values(|c: F| EF::embed(c))
}

/// What a chain leaves: its last message sent and its first received, where it moves at all.
pub open spec fn left_by<EF: Field>(moves: bool, last: EF, first: EF) -> EF {
    if moves {
        last.minus(first)
    } else {
        EF::zero_elem()
    }
}

/// Law: the sum that a shard's open messages leave is made up of four parts: the state at its exit
/// less that at its start, where the clock moves; the last initialised address less the previous one
/// and the last finalised address less the previous one, where they differ; and the global sum less
/// the point that sums start from. It exists exactly where none of the combinations vanishes.
pub proof fn law_imbalance<F: PrimeField32, EF: ExtensionField<F>>(
    pv: PublicValues<F>,
    alpha: EF,
    beta: EF,
    digest: Point<F>,
    kinds: OpenKinds,
)
    requires
        alpha.valid(),
        digest.x.len() == 7,
        digest.y.len() == 7,
    ensures
        ({
            let zero = septic_digest::zero_point_of_field::<F>();
            let exit = shard_state::<F, EF>(pv.execution_shard, pv.exit_clk, pv.next_pc);
            let start = shard_state::<F, EF>(pv.execution_shard, pv.start_clk, pv.start_pc);
            let last_init = address_link::<F, EF>(false, pv.last_init_addr);
            let previous_init = address_link::<F, EF>(false, pv.previous_init_addr);
            let last_final = address_link::<F, EF>(true, pv.last_finalize_addr);
            let previous_final = address_link::<F, EF>(true, pv.previous_finalize_addr);
            let (s, a, d) = (kinds.state, kinds.memory_global_addr, kinds.global_digest_chain);
            let r = machine::expected_imbalance::<F, EF>(pv, alpha, beta, digest, kinds);
            &&& r is None <==> {
                ||| pv.start_clk != pv.exit_clk && (vanishes(alpha, beta, s, exit) || vanishes(
                    alpha,
                    beta,
                    s,
                    start,
                ))
                ||| pv.previous_init_addr != pv.last_init_addr && (vanishes(
                    alpha,
                    beta,
                    a,
                    last_init,
                ) || vanishes(alpha, beta, a, previous_init))
                ||| pv.previous_finalize_addr != pv.last_finalize_addr && (vanishes(
                    alpha,
                    beta,
                    a,
                    last_final,
                ) || vanishes(alpha, beta, a, previous_final))
                ||| digest != zero && (vanishes(alpha, beta, d, digest_link(digest)) || vanishes(
                    alpha,
                    beta,
                    d,
                    digest_link(zero),
                ))
            }
            &&& r matches Some(x) ==> x == left_by(
                pv.start_clk != pv.exit_clk,
                sent_once(alpha, beta, s, exit),
                sent_once(alpha, beta, s, start),
            ).plus(
                left_by(
                    pv.previous_init_addr != pv.last_init_addr,
                    sent_once(alpha, beta, a, last_init),
                    sent_once(alpha, beta, a, previous_init),
                ),
            ).plus(
                left_by(
                    pv.previous_finalize_addr != pv.last_finalize_addr,
                    sent_once(alpha, beta, a, last_final),
                    sent_once(alpha, beta, a, previous_final),
                ),
            ).plus(
                left_by(
                    digest != zero,
                    sent_once(alpha, beta, d, digest_link(digest)),
                    sent_once(alpha, beta, d, digest_link(zero)),
                ),
            )
        }),
{
    broadcast use algebra::group_valid;

    EF::law_constants();
    let zero = septic_digest::zero_point_of_field::<F>();
    lemma_zero_point::<F>();
    let exit = shard_state::<F, EF>(pv.execution_shard, pv.exit_clk, pv.next_pc);
    let start = shard_state::<F, EF>(pv.execution_shard, pv.start_clk, pv.start_pc);
    let (s, a, d) = (kinds.state, kinds.memory_global_addr, kinds.global_digest_chain);
    messages::law_fingerprint(alpha, beta, s as int, exit);
    messages::law_fingerprint(alpha, beta, s as int, start);
    messages::law_fingerprint(alpha, beta, a as int, address_link::<F, EF>(false, pv.last_init_addr));
    messages::law_fingerprint(
        alpha,
        beta,
        a as int,
        address_link::<F, EF>(false, pv.previous_init_addr),
    );
    messages::law_fingerprint(
        alpha,
        beta,
        a as int,
        address_link::<F, EF>(true, pv.last_finalize_addr),
    );
    messages::law_fingerprint(
        alpha,
        beta,
        a as int,
        address_link::<F, EF>(true, pv.previous_finalize_addr),
    );
    messages::law_fingerprint(alpha, beta, d as int, digest_link::<F, EF>(digest));
    messages::law_fingerprint(alpha, beta, d as int, digest_link::<F, EF>(zero));
    assert(machine::coordinates::<F, EF>(digest) =~= digest_link(digest));
    assert(machine::coordinates::<F, EF>(zero) =~= digest_link(zero));
    let p1 = left_by(
        pv.start_clk != pv.exit_clk,
        sent_once(alpha, beta, s, exit),
        sent_once(alpha, beta, s, start),
    );
    let p2 = left_by(
        pv.previous_init_addr != pv.last_init_addr,
        sent_once(alpha, beta, a, address_link::<F, EF>(false, pv.last_init_addr)),
        sent_once(alpha, beta, a, address_link::<F, EF>(false, pv.previous_init_addr)),
    );
    let p3 = left_by(
        pv.previous_finalize_addr != pv.last_finalize_addr,
        sent_once(alpha, beta, a, address_link::<F, EF>(true, pv.last_finalize_addr)),
        sent_once(alpha, beta, a, address_link::<F, EF>(true, pv.previous_finalize_addr)),
    );
    algebra::lemma_opposites(p1, p1);
    EF::law_plus(p1, p1, p1);
    EF::law_plus(p1.plus(p2), p1, p1);
    EF::law_plus(p1.plus(p2).plus(p3), p1, p1);
}

proof fn lemma_zero_point<F: Field>()
    ensures
        septic_digest::zero_point_of_field::<F>().x.len() == 7,
        septic_digest::zero_point_of_field::<F>().y.len() == 7,
{
}

/// Law: what two consecutive segments of a shard leave adds up to what the joined segment leaves.
/// Where a segment's clock stands still, so does its program counter.
pub proof fn law_segments_join<F: PrimeField32, EF: ExtensionField<F>>(
    first: PublicValues<F>,
    second: PublicValues<F>,
    joined: PublicValues<F>,
    alpha: EF,
    beta: EF,
    kinds: OpenKinds,
)
    requires
        alpha.valid(),
        second.execution_shard == first.execution_shard,
        joined.execution_shard == first.execution_shard,
        first.exit_clk == second.start_clk,
        first.next_pc == second.start_pc,
        first.last_init_addr == second.previous_init_addr,
        first.last_finalize_addr == second.previous_finalize_addr,
        joined.start_clk == first.start_clk,
        joined.start_pc == first.start_pc,
        joined.previous_init_addr == first.previous_init_addr,
        joined.previous_finalize_addr == first.previous_finalize_addr,
        joined.exit_clk == second.exit_clk,
        joined.next_pc == second.next_pc,
        joined.last_init_addr == second.last_init_addr,
        joined.last_finalize_addr == second.last_finalize_addr,
        first.start_clk == first.exit_clk ==> first.start_pc == first.next_pc,
        second.start_clk == second.exit_clk ==> second.start_pc == second.next_pc,
        joined.start_clk == joined.exit_clk ==> joined.start_pc == joined.next_pc,
        ({
            let zero = septic_digest::zero_point_of_field::<F>();
            &&& machine::expected_imbalance::<F, EF>(first, alpha, beta, zero, kinds) is Some
            &&& machine::expected_imbalance::<F, EF>(second, alpha, beta, zero, kinds) is Some
        }),
    ensures
        ({
            let zero = septic_digest::zero_point_of_field::<F>();
            machine::expected_imbalance::<F, EF>(joined, alpha, beta, zero, kinds) == Some(
                machine::expected_imbalance::<F, EF>(first, alpha, beta, zero, kinds)->0.plus(
                    machine::expected_imbalance::<F, EF>(second, alpha, beta, zero, kinds)->0,
                ),
            )
        }),
{
    broadcast use algebra::group_valid;

    EF::law_constants();
    let zero = septic_digest::zero_point_of_field::<F>();
    lemma_zero_point::<F>();
    law_imbalance::<F, EF>(first, alpha, beta, zero, kinds);
    law_imbalance::<F, EF>(second, alpha, beta, zero, kinds);
    law_imbalance::<F, EF>(joined, alpha, beta, zero, kinds);
    let (s, a) = (kinds.state, kinds.memory_global_addr);
    let s0 = sent_once(
        alpha,
        beta,
        s,
        shard_state::<F, EF>(first.execution_shard, first.start_clk, first.start_pc),
    );
    let s1 = sent_once(
        alpha,
        beta,
        s,
        shard_state::<F, EF>(first.execution_shard, first.exit_clk, first.next_pc),
    );
    let s2 = sent_once(
        alpha,
        beta,
        s,
        shard_state::<F, EF>(first.execution_shard, second.exit_clk, second.next_pc),
    );
    let i0 = sent_once(alpha, beta, a, address_link::<F, EF>(false, first.previous_init_addr));
    let i1 = sent_once(alpha, beta, a, address_link::<F, EF>(false, first.last_init_addr));
    let i2 = sent_once(alpha, beta, a, address_link::<F, EF>(false, second.last_init_addr));
    let f0 = sent_once(alpha, beta, a, address_link::<F, EF>(true, first.previous_finalize_addr));
    let f1 = sent_once(alpha, beta, a, address_link::<F, EF>(true, first.last_finalize_addr));
    let f2 = sent_once(alpha, beta, a, address_link::<F, EF>(true, second.last_finalize_addr));
    let z = EF::zero_elem();
    algebra::lemma_opposites(s0, s1);
    algebra::lemma_opposites(s1, s2);
    algebra::lemma_opposites(s2, s0);
    algebra::lemma_opposites(i0, i1);
    algebra::lemma_opposites(i1, i2);
    algebra::lemma_opposites(i2, i0);
    algebra::lemma_opposites(f0, f1);
    algebra::lemma_opposites(f1, f2);
    algebra::lemma_opposites(f2, f0);
    lemma_telescopes(s0, s1, s2);
    lemma_telescopes(i0, i1, i2);
    lemma_telescopes(f0, f1, f2);
    lemma_three_sums(
        s1.minus(s0),
        i1.minus(i0),
        f1.minus(f0),
        s2.minus(s1),
        i2.minus(i1),
        f2.minus(f1),
    );
    EF::law_plus(s1.minus(s0).plus(i1.minus(i0)).plus(f1.minus(f0)), z, z);
    EF::law_plus(s2.minus(s1).plus(i2.minus(i1)).plus(f2.minus(f1)), z, z);
    EF::law_plus(s2.minus(s0).plus(i2.minus(i0)).plus(f2.minus(f0)), z, z);
    let x = machine::expected_imbalance::<F, EF>(first, alpha, beta, zero, kinds)->0;
    let y = machine::expected_imbalance::<F, EF>(second, alpha, beta, zero, kinds)->0;
    assert(x == s1.minus(s0).plus(i1.minus(i0)).plus(f1.minus(f0)));
    assert(y == s2.minus(s1).plus(i2.minus(i1)).plus(f2.minus(f1)));
    assert(machine::expected_imbalance::<F, EF>(joined, alpha, beta, zero, kinds) is Some);
}

proof fn lemma_telescopes<EF: Field>(a: EF, b: EF, c: EF)
    requires
        a.valid(),
        b.valid(),
        c.valid(),
    ensures
        b.minus(a).plus(c.minus(b)) == c.minus(a),
{
    broadcast use algebra::group_valid;

    algebra::lemma_minus_plus(b, a, c, b);
    EF::law_plus(b, c, c);
    EF::law_plus(a, b, b);
    algebra::lemma_regroup(b, c, a);
}

proof fn lemma_three_sums<EF: Field>(a: EF, b: EF, c: EF, x: EF, y: EF, z: EF)
    requires
        a.valid(),
        b.valid(),
        c.valid(),
        x.valid(),
        y.valid(),
        z.valid(),
    ensures
        a.plus(b).plus(c).plus(x.plus(y).plus(z)) == a.plus(x).plus(b.plus(y)).plus(c.plus(z)),
{
    broadcast use algebra::group_valid;

    lemma_two_sums(a.plus(b), c, x.plus(y), z);
    lemma_two_sums(a, b, x, y);
}

proof fn lemma_two_sums<EF: Field>(a: EF, b: EF, x: EF, y: EF)
    requires
        a.valid(),
        b.valid(),
        x.valid(),
        y.valid(),
    ensures
        a.plus(b).plus(x.plus(y)) == a.plus(x).plus(b.plus(y)),
{
    broadcast use algebra::group_valid;

    EF::law_plus(a.plus(b), x, y);
    algebra::lemma_regroup(a, b, x);
    EF::law_plus(a.plus(x), b, y);
}

/// The list holds the global sum of each shard, and last the sum that the key starts with.
pub open spec fn lists_sums<F: PrimeField32, EF: ExtensionField<F>>(
    sums: Seq<Point<F>>,
    shards: Seq<SCShardProof<F, EF>>,
    initial: Point<F>,
) -> bool {
    &&& sums.len() == shards.len() + 1
    &&& sums.last() == initial
    &&& forall|i: int|
        #![trigger sums[i]]
        0 <= i < shards.len() ==> septic_digest::digest_sum(
            Seq::new(
                shards[i].opened_values.chips@.len(),
                |c: int| shards[i].opened_values.chips@[c].global_cumulative_sum@,
            ),
        ) == Some(sums[i])
}

proof fn lemma_shard_sums<F: PrimeField32, EF: ExtensionField<F>>(
    shards: Seq<SCShardProof<F, EF>>,
    n: nat,
)
    requires
        n <= shards.len(),
    ensures
        machine::shard_sums(shards, n) is Some <==> forall|i: int|
            0 <= i < n ==> septic_digest::digest_sum(
                chip_sums(#[trigger] shards[i]),
            ) is Some,
        machine::shard_sums(shards, n) matches Some(s) ==> s.len() == n && forall|i: int|
            0 <= i < n ==> septic_digest::digest_sum(chip_sums(shards[i])) == Some(
                #[trigger] s[i],
            ),
    decreases n,
{
    if n > 0 {
        lemma_shard_sums(shards, (n - 1) as nat);
        let chips = shards[n - 1].opened_values.chips@;
        assert(crate::stark::proof_types::global_sums(chips) =~= chip_sums(shards[n - 1]));
    }
}

spec fn chip_sums<F, EF>(shard: SCShardProof<F, EF>) -> Seq<Point<F>> {
    Seq::new(
        shard.opened_values.chips@.len(),
        |c: int| shard.opened_values.chips@[c].global_cumulative_sum@,
    )
}

/// Law: a proof is accepted exactly where it has shards, every shard passed its check, every shard
/// has a global sum, and these sums together with the sum that the key starts with add up to the
/// point that sums start from.
pub proof fn law_accepted_total<F: PrimeField32, EF: ExtensionField<F>, E>(
    shards: Seq<SCShardProof<F, EF>>,
    initial: Point<F>,
    results: Seq<Result<(), E>>,
    sumcheck: bool,
)
    requires
        results.len() == shards.len(),
    ensures
        machine::machine_verdict(shards, initial, results, sumcheck) is Ok <==> {
            &&& shards.len() > 0
            &&& forall|i: int| 0 <= i < results.len() ==> (#[trigger] results[i]) is Ok
            &&& exists|sums: Seq<Point<F>>| #[trigger]
                lists_sums(sums, shards, initial) && septic_digest::digest_sum(sums) == Some(
                    septic_digest::zero_point_of_field::<F>(),
                )
        },
{
    machine::law_accepted(shards, initial, results, sumcheck);
    lemma_shard_sums(shards, shards.len());
    let zero = septic_digest::zero_point_of_field::<F>();
    if machine::machine_sum(shards, initial) == Some(zero) {
        let sums = machine::shard_sums(shards, shards.len())->0.push(initial);
        assert forall|i: int| #![trigger sums[i]] 0 <= i < shards.len() implies septic_digest::digest_sum(
            Seq::new(
                shards[i].opened_values.chips@.len(),
                |c: int| shards[i].opened_values.chips@[c].global_cumulative_sum@,
            ),
        ) == Some(sums[i]) by {
            let s = machine::shard_sums(shards, shards.len())->0;
            assert(septic_digest::digest_sum(chip_sums(shards[i])) == Some(s[i]));
        }
        assert(lists_sums(sums, shards, initial));
    }
    if exists|sums: Seq<Point<F>>| #[trigger]
        lists_sums(sums, shards, initial) && septic_digest::digest_sum(sums) == Some(zero) {
        let sums = choose|sums: Seq<Point<F>>| #[trigger]
            lists_sums(sums, shards, initial) && septic_digest::digest_sum(sums) == Some(zero);
        assert forall|i: int| 0 <= i < shards.len() implies septic_digest::digest_sum(
            chip_sums(#[trigger] shards[i]),
        ) == Some(sums[i]) by {
            assert(chip_sums(shards[i]) =~= Seq::new(
                shards[i].opened_values.chips@.len(),
                |c: int| shards[i].opened_values.chips@[c].global_cumulative_sum@,
            ));
        }
        let s = machine::shard_sums(shards, shards.len())->0;
        assert forall|i: int| 0 <= i < shards.len() implies s[i] == sums[i] by {
            assert(septic_digest::digest_sum(chip_sums(shards[i])) == Some(s[i]));
        }
        assert(s.push(initial) =~= sums);
    }
}

/// Law: a proof without shards is empty; else the first shard that failed its check is why the proof
/// is refused; and where all passed, it is the sum.
pub proof fn law_refusals<F: PrimeField32, EF: ExtensionField<F>, E>(
    shards: Seq<SCShardProof<F, EF>>,
    initial: Point<F>,
    results: Seq<Result<(), E>>,
    sumcheck: bool,
    first: int,
)
    requires
        results.len() == shards.len(),
        0 <= first <= results.len(),
        forall|i: int| 0 <= i < first ==> (#[trigger] results[i]) is Ok,
        first < results.len() ==> results[first] is Err,
    ensures
        ({
            let r = machine::machine_verdict(shards, initial, results, sumcheck);
            &&& shards.len() == 0 <==> r == Err::<(), MachineVerificationError<E>>(
                MachineVerificationError::EmptyProof,
            )
            &&& first < results.len() ==> r == Err::<(), MachineVerificationError<E>>(
                if sumcheck {
                    MachineVerificationError::InvalidShardProofSumcheck(results[first]->Err_0)
                } else {
                    MachineVerificationError::InvalidShardProof(results[first]->Err_0)
                },
            )
            &&& first == results.len() && shards.len() > 0 ==> r is Ok || r == Err::<
                (),
                MachineVerificationError<E>,
            >(MachineVerificationError::UndefinedCumulativeSum) || r == Err::<
                (),
                MachineVerificationError<E>,
            >(
                MachineVerificationError::NonZeroCumulativeSum(
                    crate::stark::lookup::InteractionScope::Global,
                    0,
                ),
            )
        }),
{
    lemma_skips(results, first, 0);
}

proof fn lemma_skips<E>(results: Seq<Result<(), E>>, first: int, i: nat)
    requires
        i <= first <= results.len(),
        forall|j: int| 0 <= j < first ==> (#[trigger] results[j]) is Ok,
        first < results.len() ==> results[first] is Err,
    ensures
        machine::first_failure(results, i) == (if first < results.len() {
            Some(results[first]->Err_0)
        } else {
            None
        }),
    decreases first - i,
{
    if i < first {
        lemma_skips(results, first, i + 1);
        assert(results[i as int] is Ok);
    }
}

/// The points in between when digests are added: the first is the starting point, and each next one
/// is the one before plus a digest less the point that digests start from.
pub open spec fn adds_digests<F: PrimeField32>(acc: Seq<Point<F>>, digests: Seq<Point<F>>) -> bool {
    &&& acc.len() == digests.len() + 1
    &&& acc[0] == septic_digest::starting_point_of_field::<F>()
    &&& forall|i: int|
        #![trigger digests[i]]
        0 <= i < digests.len() ==> {
            let sum = septic_curve::chord_sum(acc[i], digests[i]);
            &&& sum is Some
            &&& septic_curve::chord_sum(
                sum->0,
                septic_curve::mirrored(septic_digest::zero_point_of_field::<F>()),
            ) == Some(acc[i + 1])
        }
}

/// Law: a sum of digests takes in every digest once, each less the point that digests start from, and
/// at the end puts that point on and takes the starting point off.
pub proof fn law_digest_sum<F: PrimeField32>(digests: Seq<Point<F>>, total: Point<F>)
    ensures
        septic_digest::digest_sum(digests) == Some(total) <==> exists|acc: Seq<Point<F>>|
            {
                &&& #[trigger] adds_digests(acc, digests)
                &&& septic_curve::chord_sum(
                    acc.last(),
                    septic_digest::zero_point_of_field::<F>(),
                ) is Some
                &&& septic_curve::chord_sum(
                    septic_curve::chord_sum(
                        acc.last(),
                        septic_digest::zero_point_of_field::<F>(),
                    )->0,
                    septic_curve::mirrored(septic_digest::starting_point_of_field::<F>()),
                ) == Some(total)
            },
{
    let n = digests.len();
    if septic_digest::partial_sum(digests, n) is Some {
        lemma_partial_sums(digests, n);
        let acc = Seq::new(n + 1, |i: int| septic_digest::partial_sum(digests, i as nat)->0);
        assert forall|i: int| #![trigger digests[i]] 0 <= i < digests.len() implies {
            let sum = septic_curve::chord_sum(acc[i], digests[i]);
            &&& sum is Some
            &&& septic_curve::chord_sum(
                sum->0,
                septic_curve::mirrored(septic_digest::zero_point_of_field::<F>()),
            ) == Some(acc[i + 1])
        } by {
            assert(septic_digest::partial_sum(digests, (i + 1) as nat) is Some);
            assert(septic_digest::partial_sum(digests, i as nat) is Some);
        }
        assert(adds_digests(acc, digests));
    }
    assert forall|acc: Seq<Point<F>>| #[trigger] adds_digests(acc, digests) implies Some(acc.last())
        == septic_digest::partial_sum(digests, n) by {
        lemma_adds(acc, digests, n);
    }
}

proof fn lemma_partial_sums<F: PrimeField32>(digests: Seq<Point<F>>, n: nat)
    requires
        septic_digest::partial_sum(digests, n) is Some,
    ensures
        forall|i: nat| i <= n ==> #[trigger] septic_digest::partial_sum(digests, i) is Some,
    decreases n,
{
    if n > 0 {
        lemma_partial_sums(digests, (n - 1) as nat);
    }
}

proof fn lemma_adds<F: PrimeField32>(acc: Seq<Point<F>>, digests: Seq<Point<F>>, n: nat)
    requires
        adds_digests(acc, digests),
        n <= digests.len(),
    ensures
        septic_digest::partial_sum(digests, n) == Some(acc[n as int]),
    decreases n,
{
    if n > 0 {
        lemma_adds(acc, digests, (n - 1) as nat);
        let d = digests[n - 1];
        assert(septic_curve::chord_sum(acc[n - 1], d) is Some);
    }
}

} // verus!
