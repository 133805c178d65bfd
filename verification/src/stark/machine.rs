//! A machine: its tables, and what is checked across the shards of a proof.
use vstd::prelude::*;
use crate::basefold::challenger::DuplexChallenger;
use crate::basefold::mmcs::MerkleField;
use crate::field;
use crate::field::{ExtensionField, Field, PrimeField32};
use crate::recursion::machine as recursion_machine;
use crate::recursion::shape::HeightMap;
use crate::stark::keys;
use crate::stark::keys::SCStarkVerifyingKey;
use crate::stark::lookup::InteractionScope;
use crate::stark::permutation;
use crate::stark::proof_types;
use crate::stark::proof_types::{OrderedShape, PublicValues, SCMachineProof, SCShardProof};
use crate::stark::septic_curve::Point;
use crate::stark::septic_digest;
use crate::stark::septic_digest::SepticDigest;

verus! {

/// The numbers of the kinds of messages that a shard leaves open.
#[derive(Clone, Copy, Debug, PartialEq, Eq)]
pub struct OpenKinds {
    pub state: usize,
    pub memory_global_addr: usize,
    pub global_digest_chain: usize,
}

/// The random combination of a message.
pub open spec fn combination<EF: Field>(alpha: EF, beta: EF, kind: usize, values: Seq<EF>) -> EF {
    permutation::fingerprint(alpha, beta, kind as int, values, values.len())
}

/// The inverse of the combination of what was sent, less that of what was received.
pub open spec fn open_ends<EF: Field>(sum: Option<EF>, received: EF, sent: EF) -> Option<EF> {
    match sum {
        Some(x) => if received == EF::zero_elem() || sent == EF::zero_elem() {
            None
        } else {
            Some(
                x.plus(
                    field::quotient(EF::one_elem(), sent).minus(
                        field::quotient(EF::one_elem(), received),
                    ),
                ),
            )
        },
        None => None,
    }
}

/// The coordinates of a point, one after the other.
pub open spec fn coordinates<F: Field, EF: ExtensionField<F>>(p: Point<F>) -> Seq<EF> {
    Seq::new(14, |i: int| EF::embed(if i < 7 { p.x[i] } else { p.y[i - 7] }))
}

/// What the shard's clock and program counter leave open.
pub open spec fn state_ends<F: Field, EF: ExtensionField<F>>(
    sum: Option<EF>,
    pv: PublicValues<F>,
    alpha: EF,
    beta: EF,
    kind: usize,
) -> Option<EF> {
    if pv.start_clk == pv.exit_clk {
        sum
    } else {
        open_ends(
            sum,
            combination(
                alpha,
                beta,
                kind,
                seq![
                    EF::embed(pv.execution_shard),
                    EF::embed(pv.start_clk),
                    EF::embed(pv.start_pc),
                ],
            ),
            combination(
                alpha,
                beta,
                kind,
                seq![
                    EF::embed(pv.execution_shard),
                    EF::embed(pv.exit_clk),
                    EF::embed(pv.next_pc),
                ],
            ),
        )
    }
}

/// What a chain of addresses leaves open; the first value tells the two chains apart.
pub open spec fn address_ends<F: Field, EF: ExtensionField<F>>(
    sum: Option<EF>,
    previous: F,
    last: F,
    chain: EF,
    alpha: EF,
    beta: EF,
    kind: usize,
) -> Option<EF> {
    if previous == last {
        sum
    } else {
        open_ends(
            sum,
            combination(alpha, beta, kind, seq![chain, EF::embed(previous)]),
            combination(alpha, beta, kind, seq![chain, EF::embed(last)]),
        )
    }
}

/// What the chain of the global sum leaves open.
pub open spec fn digest_ends<F: Field, EF: ExtensionField<F>>(
    sum: Option<EF>,
    digest: Point<F>,
    alpha: EF,
    beta: EF,
    kind: usize,
) -> Option<EF> {
    let zero = septic_digest::zero_point_of_field::<F>();
    if digest == zero {
        sum
    } else {
        open_ends(
            sum,
            combination(alpha, beta, kind, coordinates::<F, EF>(zero)),
            combination(alpha, beta, kind, coordinates::<F, EF>(digest)),
        )
    }
}

/// The local sum that a shard's open messages leave: those of its state, of its chains of
/// addresses, and of its global sum. `None` where a random combination vanishes.
pub open spec fn expected_imbalance<F: Field, EF: ExtensionField<F>>(
    pv: PublicValues<F>,
    alpha: EF,
    beta: EF,
    digest: Point<F>,
    kinds: OpenKinds,
) -> Option<EF> {
    let a = state_ends(Some(EF::zero_elem()), pv, alpha, beta, kinds.state);
    let b = address_ends(
        a,
        pv.previous_init_addr,
        pv.last_init_addr,
        EF::zero_elem(),
        alpha,
        beta,
        kinds.memory_global_addr,
    );
    let c = address_ends(
        b,
        pv.previous_finalize_addr,
        pv.last_finalize_addr,
        EF::one_elem(),
        alpha,
        beta,
        kinds.memory_global_addr,
    );
    digest_ends(c, digest, alpha, beta, kinds.global_digest_chain)
}

fn add_open_ends<F: Field, EF: ExtensionField<F>>(
    sum: Option<EF>,
    alpha: EF,
    beta: EF,
    kind: usize,
    received: &Vec<EF>,
    sent: &Vec<EF>,
) -> (r: Option<EF>)
    ensures
        r == open_ends(
            sum,
            combination(alpha, beta, kind, received@),
            combination(alpha, beta, kind, sent@),
        ),
{
    let zero = EF::zero();
    let received = permutation::random_combination::<F, EF>(alpha, beta, kind, received);
    let sent = permutation::random_combination::<F, EF>(alpha, beta, kind, sent);
    match sum {
        Some(x) => if received.is_equal(&zero) || sent.is_equal(&zero) {
            None
        } else {
            Some(x.add(field::divide(EF::one(), sent).sub(field::divide(EF::one(), received))))
        },
        None => None,
    }
}

fn coordinate_list<F: Field, EF: ExtensionField<F>>(digest: &SepticDigest<F>) -> (r: Vec<EF>)
    ensures
        r@ == coordinates::<F, EF>(digest@),
{
    let mut r: Vec<EF> = Vec::new();
    let mut i: usize = 0;
    while i < 7
        invariant
            i <= 7,
            r@ == coordinates::<F, EF>(digest@).subrange(0, i as int),
        decreases 7 - i,
    {
        r.push(EF::from_base(digest.0.x.0[i]));
        i += 1;
        assert(r@ =~= coordinates::<F, EF>(digest@).subrange(0, i as int));
    }
    let mut j: usize = 0;
    while j < 7
        invariant
            j <= 7,
            r@ == coordinates::<F, EF>(digest@).subrange(0, 7 + j),
        decreases 7 - j,
    {
        r.push(EF::from_base(digest.0.y.0[j]));
        j += 1;
        assert(r@ =~= coordinates::<F, EF>(digest@).subrange(0, 7 + j));
    }
    assert(r@ =~= coordinates::<F, EF>(digest@));
    r
}

/// The local sum that a shard's open messages leave. `None` where a random combination vanishes.
pub fn compute_expected_state_imbalance<F: PrimeField32, EF: ExtensionField<F>>(
    public_values: &PublicValues<F>,
    permutation_challenges: &Vec<EF>,
    global_cumulative_sum: &SepticDigest<F>,
    kinds: &OpenKinds,
) -> (r: Option<EF>)
    requires
        permutation_challenges@.len() >= 2,
    ensures
        r == expected_imbalance::<F, EF>(
            *public_values,
            permutation_challenges@[0],
            permutation_challenges@[1],
            global_cumulative_sum@,
            *kinds,
        ),
{
    let alpha = permutation_challenges[0];
    let beta = permutation_challenges[1];
    let pv = public_values;
    let mut sum = Some(EF::zero());
    if !pv.start_clk.is_equal(&pv.exit_clk) {
        let shard = EF::from_base(pv.execution_shard);
        let received = vec![shard, EF::from_base(pv.start_clk), EF::from_base(pv.start_pc)];
        let sent = vec![shard, EF::from_base(pv.exit_clk), EF::from_base(pv.next_pc)];
        assert(received@ =~= seq![
            EF::embed(pv.execution_shard),
            EF::embed(pv.start_clk),
            EF::embed(pv.start_pc),
        ]);
        assert(sent@ =~= seq![
            EF::embed(pv.execution_shard),
            EF::embed(pv.exit_clk),
            EF::embed(pv.next_pc),
        ]);
        sum = add_open_ends::<F, EF>(sum, alpha, beta, kinds.state, &received, &sent);
    }
    if !pv.previous_init_addr.is_equal(&pv.last_init_addr) {
        let received = vec![EF::zero(), EF::from_base(pv.previous_init_addr)];
        let sent = vec![EF::zero(), EF::from_base(pv.last_init_addr)];
        assert(received@ =~= seq![EF::zero_elem(), EF::embed(pv.previous_init_addr)]);
        assert(sent@ =~= seq![EF::zero_elem(), EF::embed(pv.last_init_addr)]);
        sum = add_open_ends::<F, EF>(sum, alpha, beta, kinds.memory_global_addr, &received, &sent);
    }
    if !pv.previous_finalize_addr.is_equal(&pv.last_finalize_addr) {
        let received = vec![EF::one(), EF::from_base(pv.previous_finalize_addr)];
        let sent = vec![EF::one(), EF::from_base(pv.last_finalize_addr)];
        assert(received@ =~= seq![EF::one_elem(), EF::embed(pv.previous_finalize_addr)]);
        assert(sent@ =~= seq![EF::one_elem(), EF::embed(pv.last_finalize_addr)]);
        sum = add_open_ends::<F, EF>(sum, alpha, beta, kinds.memory_global_addr, &received, &sent);
    }
    if !global_cumulative_sum.is_zero() {
        let zero = SepticDigest::<F>::zero_for_field();
        let received = coordinate_list::<F, EF>(&zero);
        let sent = coordinate_list::<F, EF>(global_cumulative_sum);
        sum = add_open_ends::<F, EF>(
            sum,
            alpha,
            beta,
            kinds.global_digest_chain,
            &received,
            &sent,
        );
    }
    sum
}

/// Why a proof of a machine is refused. What a shard's own check reports is carried along.
#[derive(Clone, Debug)]
pub enum MachineVerificationError<E> {
    InvalidShardProof(E),
    InvalidShardProofSumcheck(E),
    InvalidGlobalProof(E),
    NonZeroCumulativeSum(InteractionScope, usize),
    /// The global sums cannot be added: one of the additions has no slope.
    UndefinedCumulativeSum,
    InvalidPublicValuesDigest,
    DebugInteractionsFailed,
    EmptyProof,
    InvalidPublicValues(&'static str),
    TooManyShards,
    InvalidChipOccurrence(String),
    MissingCpuInFirstShard,
    CpuLogDegreeTooLarge(usize),
    InvalidVerificationKey,
}

/// The name of a scope.
pub open spec fn scope_text(scope: InteractionScope) -> Seq<char> {
    match scope {
        InteractionScope::Global => "Global"@,
        InteractionScope::Local => "Local"@,
    }
}

impl<E> MachineVerificationError<E> {
    /// What the error says; `detail` is what the shard's own check says.
    pub open spec fn text(self, detail: Seq<char>) -> Seq<char> {
        match self {
            MachineVerificationError::InvalidShardProof(_) => "Invalid shard proof: "@ + detail,
            MachineVerificationError::InvalidShardProofSumcheck(_) => "Invalid shard proof: "@
                + detail,
            MachineVerificationError::InvalidGlobalProof(_) => "Invalid global proof: "@ + detail,
            MachineVerificationError::NonZeroCumulativeSum(scope, shard) =>
                "Non-zero cumulative sum.  Scope: "@ + scope_text(scope) + ", Shard: "@
                    + recursion_machine::decimal(shard as nat),
            MachineVerificationError::UndefinedCumulativeSum => "Undefined cumulative sum"@,
            MachineVerificationError::InvalidPublicValuesDigest => "Invalid public values digest"@,
            MachineVerificationError::DebugInteractionsFailed => "Debug interactions failed"@,
            MachineVerificationError::EmptyProof => "Empty proof"@,
            MachineVerificationError::InvalidPublicValues(s) => "Invalid public values: "@ + s@,
            MachineVerificationError::TooManyShards => "Too many shards"@,
            MachineVerificationError::InvalidChipOccurrence(s) => "Invalid chip occurrence: "@ + s@,
            MachineVerificationError::MissingCpuInFirstShard => "Missing CPU in first shard"@,
            MachineVerificationError::CpuLogDegreeTooLarge(n) => "CPU log degree too large: "@
                + recursion_machine::decimal(n as nat),
            MachineVerificationError::InvalidVerificationKey => "Invalid verification key"@,
        }
    }

    /// What the error says; `detail` is what the shard's own check says.
    pub fn message(&self, detail: &str) -> (r: String)
        ensures
            r@ == self.text(detail@),
    {
        match self {
            MachineVerificationError::InvalidShardProof(_) => joined("Invalid shard proof: ", detail),
            MachineVerificationError::InvalidShardProofSumcheck(_) => joined(
                "Invalid shard proof: ",
                detail,
            ),
            MachineVerificationError::InvalidGlobalProof(_) => joined(
                "Invalid global proof: ",
                detail,
            ),
            MachineVerificationError::NonZeroCumulativeSum(scope, shard) => {
                let name = match scope {
                    InteractionScope::Global => "Global",
                    InteractionScope::Local => "Local",
                };
                let mut r = joined("Non-zero cumulative sum.  Scope: ", name);
                r.append(", Shard: ");
                r.append(recursion_machine::decimal_text(*shard).as_str());
                r
            },
            MachineVerificationError::UndefinedCumulativeSum => {
                "Undefined cumulative sum".to_string()
            },
            MachineVerificationError::InvalidPublicValuesDigest => {
                "Invalid public values digest".to_string()
            },
            MachineVerificationError::DebugInteractionsFailed => {
                "Debug interactions failed".to_string()
            },
            MachineVerificationError::EmptyProof => "Empty proof".to_string(),
            MachineVerificationError::InvalidPublicValues(s) => joined("Invalid public values: ", s),
            MachineVerificationError::TooManyShards => "Too many shards".to_string(),
            MachineVerificationError::InvalidChipOccurrence(s) => joined(
                "Invalid chip occurrence: ",
                s.as_str(),
            ),
            MachineVerificationError::MissingCpuInFirstShard => {
                "Missing CPU in first shard".to_string()
            },
            MachineVerificationError::CpuLogDegreeTooLarge(n) => joined(
                "CPU log degree too large: ",
                recursion_machine::decimal_text(*n).as_str(),
            ),
            MachineVerificationError::InvalidVerificationKey => {
                "Invalid verification key".to_string()
            },
        }
    }
}

fn joined(a: &str, b: &str) -> (r: String)
    ensures
        r@ == a@ + b@,
{
    let mut r = a.to_string();
    r.append(b);
    r
}

/// One table comes before another: by its place, then by its number.
pub open spec fn comes_before(
    names: Seq<String>,
    ordering: Map<Seq<char>, usize>,
    i: usize,
    j: usize,
) -> bool {
    let a = ordering[names[i as int]@];
    let b = ordering[names[j as int]@];
    a < b || a == b && i < j
}

/// The numbers of those tables that have a place, in the order of their places.
pub open spec fn in_order(
    r: Seq<usize>,
    names: Seq<String>,
    ordering: Map<Seq<char>, usize>,
) -> bool {
    &&& forall|i: usize|
        #![trigger r.contains(i)]
        r.contains(i) <==> i < names.len() && ordering.dom().contains(names[i as int]@)
    &&& forall|a: int, b: int|
        0 <= a < b < r.len() ==> comes_before(
            names,
            ordering,
            #[trigger] r[a],
            #[trigger] r[b],
        )
}

/// Those of the first `n` tables that have a place, in the order of their places.
spec fn in_order_to(
    r: Seq<usize>,
    names: Seq<String>,
    ordering: Map<Seq<char>, usize>,
    n: int,
) -> bool {
    &&& forall|a: int|
        0 <= a < r.len() ==> (#[trigger] r[a]) < n && ordering.dom().contains(names[r[a] as int]@)
    &&& forall|i: usize|
        #![trigger names[i as int]]
        i < n && ordering.dom().contains(names[i as int]@) ==> r.contains(i)
    &&& forall|a: int, b: int|
        0 <= a < b < r.len() ==> comes_before(
            names,
            ordering,
            #[trigger] r[a],
            #[trigger] r[b],
        )
}

proof fn lemma_inserted(
    r: Seq<usize>,
    names: Seq<String>,
    ordering: Map<Seq<char>, usize>,
    n: usize,
    p: int,
)
    requires
        n < names.len(),
        in_order_to(r, names, ordering, n as int),
        ordering.dom().contains(names[n as int]@),
        0 <= p <= r.len(),
        forall|a: int|
            0 <= a < p ==> ordering[names[(#[trigger] r[a]) as int]@] <= ordering[names[n as int]@],
        p < r.len() ==> ordering[names[r[p] as int]@] > ordering[names[n as int]@],
    ensures
        in_order_to(r.insert(p, n), names, ordering, n + 1),
{
    let s = r.insert(p, n);
    assert forall|a: int| 0 <= a < s.len() implies (#[trigger] s[a]) < n + 1
        && ordering.dom().contains(names[s[a] as int]@) by {
        if a < p {
            assert(s[a] == r[a]);
        } else if a > p {
            assert(s[a] == r[a - 1]);
        }
    }
    assert forall|i: usize|
        #![trigger names[i as int]]
        i < n + 1 && ordering.dom().contains(names[i as int]@) implies s.contains(i) by {
        if i == n {
            assert(s[p] == n);
        } else {
            assert(r.contains(i));
            let a = choose|a: int| 0 <= a < r.len() && r[a] == i;
            if a < p {
                assert(s[a] == i);
            } else {
                assert(s[a + 1] == i);
            }
        }
    }
    assert forall|a: int, b: int| 0 <= a < b < s.len() implies comes_before(
        names,
        ordering,
        #[trigger] s[a],
        #[trigger] s[b],
    ) by {
        if b < p {
            assert(s[a] == r[a] && s[b] == r[b]);
        } else if b == p {
            assert(s[a] == r[a] && s[b] == n);
        } else if a < p {
            assert(s[a] == r[a] && s[b] == r[b - 1]);
        } else if a == p {
            assert(s[a] == n && s[b] == r[b - 1]);
            if b - 1 > p {
                assert(comes_before(names, ordering, r[p], r[b - 1]));
            }
        } else {
            assert(s[a] == r[a - 1] && s[b] == r[b - 1]);
        }
    }
}

/// The numbers of those tables that have a place, in the order of their places.
pub fn ordered_chips(names: &Vec<String>, chip_ordering: &HeightMap) -> (r: Vec<usize>)
    ensures
        in_order(r@, names@, chip_ordering@),
{
    let n: usize = names.len();
    let mut r: Vec<usize> = Vec::new();
    let mut places: Vec<usize> = Vec::new();
    let mut i: usize = 0;
    while i < n
        invariant
            i <= n,
            n == names@.len(),
            in_order_to(r@, names@, chip_ordering@, i as int),
            places@.len() == r@.len(),
            forall|a: int|
                0 <= a < r@.len() ==> #[trigger] places@[a]
                    == chip_ordering@[names@[r@[a] as int]@],
        decreases n - i,
    {
        match chip_ordering.get(&names[i]) {
            Some(place) => {
                let len: usize = r.len();
                let mut p: usize = 0;
                while p < len && places[p] <= place
                    invariant
                        p <= len,
                        len == r@.len(),
                        places@.len() == r@.len(),
                        forall|a: int| 0 <= a < p ==> #[trigger] places@[a] <= place,
                    decreases len - p,
                {
                    p += 1;
                }
                proof {
                    assert forall|a: int| 0 <= a < p implies chip_ordering@[names@[(
                    #[trigger] r@[a]) as int]@] <= chip_ordering@[names@[i as int]@] by {
                        assert(places@[a] <= place);
                    }
                    if p < len {
                        assert(places@[p as int] > place);
                    }
                    lemma_inserted(r@, names@, chip_ordering@, i, p as int);
                }
                let ghost before = r@;
                let ghost places_before = places@;
                r.insert(p, i);
                places.insert(p, place);
                proof {
                    assert forall|a: int| 0 <= a < r@.len() implies #[trigger] places@[a]
                        == chip_ordering@[names@[r@[a] as int]@] by {
                        if a < p {
                            assert(r@[a] == before[a] && places@[a] == places_before[a]);
                        } else if a > p {
                            assert(r@[a] == before[a - 1] && places@[a] == places_before[a - 1]);
                        }
                    }
                }
            },
            None => {
                assert(!chip_ordering@.dom().contains(names@[i as int]@));
            },
        }
        i += 1;
    }
    proof {
        assert forall|i: usize|
            #![trigger r@.contains(i)]
            r@.contains(i) <==> i < names@.len() && chip_ordering@.dom().contains(
                names@[i as int]@,
            ) by {
            if r@.contains(i) {
                let a = choose|a: int| 0 <= a < r@.len() && r@[a] == i;
                assert(r@[a] < n);
            }
            if i < names@.len() {
                assert(names@[i as int] == names@[i as int]);
            }
        }
    }
    r
}

/// The places of tables, where they have one.
pub open spec fn places_of(r: Seq<Option<usize>>, names: Seq<String>, ordering: Map<Seq<char>, usize>) -> bool {
    &&& r.len() == names.len()
    &&& forall|i: int|
        0 <= i < r.len() ==> #[trigger] r[i] == (if ordering.dom().contains(names[i]@) {
            Some(ordering[names[i]@])
        } else {
            None
        })
}

fn chip_places(names: &Vec<String>, chip_ordering: &HeightMap) -> (r: Vec<Option<usize>>)
    ensures
        places_of(r@, names@, chip_ordering@),
{
    let n: usize = names.len();
    let mut r: Vec<Option<usize>> = Vec::new();
    let mut i: usize = 0;
    while i < n
        invariant
            i <= n,
            n == names@.len(),
            r@.len() == i,
            forall|j: int|
                0 <= j < r@.len() ==> #[trigger] r@[j] == (if chip_ordering@.dom().contains(
                    names@[j]@,
                ) {
                    Some(chip_ordering@[names@[j]@])
                } else {
                    None
                }),
        decreases n - i,
    {
        r.push(chip_ordering.get(&names[i]));
        i += 1;
    }
    r
}

/// The sums of the shards, then the sum that the key starts with. `None` where a shard has none.
pub open spec fn shard_sums<F: PrimeField32, EF: ExtensionField<F>>(
    shards: Seq<SCShardProof<F, EF>>,
    n: nat,
) -> Option<Seq<Point<F>>>
    decreases n,
{
    if n == 0 {
        Some(Seq::empty())
    } else {
        match (
            shard_sums(shards, (n - 1) as nat),
            septic_digest::digest_sum(
                proof_types::global_sums(shards[n - 1].opened_values.chips@),
            ),
        ) {
            (Some(before), Some(sum)) => Some(before.push(sum)),
            _ => None,
        }
    }
}

/// The sum over all shards and the key.
pub open spec fn machine_sum<F: PrimeField32, EF: ExtensionField<F>>(
    shards: Seq<SCShardProof<F, EF>>,
    initial: Point<F>,
) -> Option<Point<F>> {
    match shard_sums(shards, shards.len()) {
        Some(sums) => septic_digest::digest_sum(sums.push(initial)),
        None => None,
    }
}

/// The first of the checks from the `i`-th on that failed.
pub open spec fn first_failure<E>(results: Seq<Result<(), E>>, i: nat) -> Option<E>
    decreases results.len() - i,
{
    if i >= results.len() {
        None
    } else {
        match results[i as int] {
            Err(e) => Some(e),
            Ok(_) => first_failure(results, i + 1),
        }
    }
}

/// What becomes of a proof: it has shards, each passes its own check, by sumcheck or not, and the
/// global sums add up to nothing.
pub open spec fn machine_verdict<F: PrimeField32, EF: ExtensionField<F>, E>(
    shards: Seq<SCShardProof<F, EF>>,
    initial: Point<F>,
    results: Seq<Result<(), E>>,
    sumcheck: bool,
) -> Result<(), MachineVerificationError<E>> {
    if shards.len() == 0 {
        Err(MachineVerificationError::EmptyProof)
    } else {
        match first_failure(results, 0) {
            Some(e) => if sumcheck {
                Err(MachineVerificationError::InvalidShardProofSumcheck(e))
            } else {
                Err(MachineVerificationError::InvalidShardProof(e))
            },
            None => match machine_sum(shards, initial) {
                None => Err(MachineVerificationError::UndefinedCumulativeSum),
                Some(sum) => if sum == septic_digest::zero_point_of_field::<F>() {
                    Ok(())
                } else {
                    Err(
                        MachineVerificationError::NonZeroCumulativeSum(InteractionScope::Global, 0),
                    )
                },
            },
        }
    }
}

#[verifier::loop_isolation(false)]
fn take_failure<E>(results: Vec<Result<(), E>>) -> (r: Option<E>)
    ensures
        r == first_failure(results@, 0),
{
    let ghost all = results@;
    let mut rest = results;
    let n: usize = rest.len();
    let mut i: usize = 0;
    while i < n
        invariant
            i <= n,
            n == all.len(),
            rest@ == all.subrange(i as int, n as int),
            first_failure(all, 0) == first_failure(all, i as nat),
        decreases n - i,
    {
        let first = rest.remove(0);
        assert(first == all[i as int]);
        match first {
            Err(e) => {
                return Some(e);
            },
            Ok(_) => {},
        }
        i += 1;
        assert(rest@ =~= all.subrange(i as int, n as int));
    }
    None
}

fn add_shards<F: PrimeField32, EF: ExtensionField<F>>(
    shards: &Vec<SCShardProof<F, EF>>,
    initial: &SepticDigest<F>,
) -> (r: Option<SepticDigest<F>>)
    ensures
        r is Some <==> machine_sum(shards@, initial@) is Some,
        r matches Some(sum) ==> machine_sum(shards@, initial@) == Some(sum@),
{
    let n: usize = shards.len();
    let mut sums: Option<Vec<SepticDigest<F>>> = Some(Vec::new());
    let mut i: usize = 0;
    assert(septic_digest::points(sums->0@) =~= Seq::empty());
    while i < n
        invariant
            i <= n,
            n == shards@.len(),
            sums is Some <==> shard_sums(shards@, i as nat) is Some,
            sums matches Some(v) ==> shard_sums(shards@, i as nat) == Some(
                septic_digest::points(v@),
            ),
        decreases n - i,
    {
        let sum = shards[i].global_cumulative_sum();
        sums = match (sums, sum) {
            (Some(mut v), Some(sum)) => {
                let ghost before = v@;
                v.push(sum);
                assert(septic_digest::points(v@) =~= septic_digest::points(before).push(sum@));
                Some(v)
            },
            _ => None,
        };
        i += 1;
    }
    match sums {
        Some(mut v) => {
            let ghost before = v@;
            v.push(*initial);
            assert(septic_digest::points(v@) =~= septic_digest::points(before).push(initial@));
            SepticDigest::sum(&v)
        },
        None => None,
    }
}

/// A machine: the names of its tables, the number of public values that a shard is bound to, and
/// whether shards exchange messages.
#[derive(Debug)]
pub struct SCStarkMachine<C> {
    config: C,
    chips: Vec<String>,
    chips_ext: Vec<String>,
    num_pv_elts: usize,
    contains_global_bus: bool,
}

impl<C> SCStarkMachine<C> {
    pub closed spec fn config_of(self) -> C {
        self.config
    }

    pub closed spec fn names(self) -> Seq<String> {
        self.chips@
    }

    pub closed spec fn names_ext(self) -> Seq<String> {
        self.chips_ext@
    }

    pub closed spec fn public_value_number(self) -> usize {
        self.num_pv_elts
    }

    pub closed spec fn global_bus(self) -> bool {
        self.contains_global_bus
    }

    pub fn new(
        config: C,
        chips: Vec<String>,
        chips_ext: Vec<String>,
        num_pv_elts: usize,
        contains_global_bus: bool,
    ) -> (r: Self)
        ensures
            r.config_of() == config,
            r.names() == chips@,
            r.names_ext() == chips_ext@,
            r.public_value_number() == num_pv_elts,
            r.global_bus() == contains_global_bus,
    {
        SCStarkMachine { config, chips, chips_ext, num_pv_elts, contains_global_bus }
    }

    pub fn has_global_bus(&self) -> (r: bool)
        ensures
            r == self.global_bus(),
    {
        self.contains_global_bus
    }

    pub fn config(&self) -> (r: &C)
        ensures
            *r == self.config_of(),
    {
        &self.config
    }

    pub fn chips(&self) -> (r: &Vec<String>)
        ensures
            r@ == self.names(),
    {
        &self.chips
    }

    pub fn chips_ext(&self) -> (r: &Vec<String>)
        ensures
            r@ == self.names_ext(),
    {
        &self.chips_ext
    }

    pub fn num_pv_elts(&self) -> (r: usize)
        ensures
            r == self.public_value_number(),
    {
        self.num_pv_elts
    }

    /// The numbers of the machine's tables that a shard has, in the shard's order.
    pub fn shard_chips_ordered(&self, chip_ordering: &HeightMap) -> (r: Vec<usize>)
        ensures
            in_order(r@, self.names(), chip_ordering@),
    {
        ordered_chips(&self.chips, chip_ordering)
    }

    /// The numbers of the machine's tables over the extension field that a shard has, in the
    /// shard's order.
    pub fn shard_chips_ext_ordered(&self, chip_ordering: &HeightMap) -> (r: Vec<usize>)
        ensures
            in_order(r@, self.names_ext(), chip_ordering@),
    {
        ordered_chips(&self.chips_ext, chip_ordering)
    }

    /// The place of each of the machine's tables in a shard.
    pub fn chips_sorted_indices(&self, chip_ordering: &HeightMap) -> (r: Vec<Option<usize>>)
        ensures
            places_of(r@, self.names(), chip_ordering@),
    {
        chip_places(&self.chips, chip_ordering)
    }

    /// The transcript of a shard: that of the machine, bound to the shard's public values.
    pub fn shard_challenger<F: MerkleField, EF: ExtensionField<F>>(
        &self,
        challenger: &DuplexChallenger<F>,
        shard_proof: &SCShardProof<F, EF>,
    ) -> (r: DuplexChallenger<F>)
        requires
            challenger@.wf(),
            shard_proof.public_values@.len() >= self.public_value_number(),
            field::all_valid(shard_proof.public_values@),
        ensures
            r@ == challenger@.observed_all(
                shard_proof.public_values@.take(self.public_value_number() as int),
            ),
            r@.wf(),
    {
        let mut r = challenger.duplicate();
        let n: usize = self.num_pv_elts;
        let values = &shard_proof.public_values;
        let ghost before = r@;
        let mut i: usize = 0;
        assert(values@.take(0) =~= Seq::empty());
        while i < n
            invariant
                i <= n,
                n <= values@.len(),
                field::all_valid(values@),
                r@.wf(),
                r@ == before.observed_all(values@.take(i as int)),
            decreases n - i,
        {
            r.observe(values[i]);
            i += 1;
            assert(values@.take(i as int).drop_last() =~= values@.take(i - 1));
        }
        r
    }

    /// Binds the transcript to the key and decides on a proof, given what the check of each shard
    /// said: a shard's check starts from [`SCStarkMachine::shard_challenger`], with the tables in
    /// the order of [`SCStarkMachine::shard_chips_ordered`].
    pub fn verify<F: MerkleField, EF: ExtensionField<F>, E>(
        &self,
        vk: &SCStarkVerifyingKey<F>,
        proof: &SCMachineProof<F, EF>,
        challenger: &mut DuplexChallenger<F>,
        shard_results: Vec<Result<(), E>>,
    ) -> (r: Result<(), MachineVerificationError<E>>)
        requires
            old(challenger)@.wf(),
            keys::key_valid(vk.commit@, vk.pc_start, vk.initial_global_cumulative_sum@),
            shard_results@.len() == proof.shard_proofs@.len(),
        ensures
            final(challenger)@ == keys::observed_key(
                old(challenger)@,
                vk.commit@,
                vk.pc_start,
                vk.initial_global_cumulative_sum@,
            ),
            final(challenger)@.wf(),
            r == machine_verdict(
                proof.shard_proofs@,
                vk.initial_global_cumulative_sum@,
                shard_results@,
                true,
            ),
    {
        vk.observe_into(challenger);
        decide(&proof.shard_proofs, &vk.initial_global_cumulative_sum, shard_results, true)
    }
}

fn decide<F: PrimeField32, EF: ExtensionField<F>, E>(
    shards: &Vec<SCShardProof<F, EF>>,
    initial: &SepticDigest<F>,
    shard_results: Vec<Result<(), E>>,
    sumcheck: bool,
) -> (r: Result<(), MachineVerificationError<E>>)
    ensures
        r == machine_verdict(shards@, initial@, shard_results@, sumcheck),
{
    if shards.len() == 0 {
        return Err(MachineVerificationError::EmptyProof);
    }
    match take_failure(shard_results) {
        Some(e) => {
            return if sumcheck {
                Err(MachineVerificationError::InvalidShardProofSumcheck(e))
            } else {
                Err(MachineVerificationError::InvalidShardProof(e))
            };
        },
        None => {},
    }
    match add_shards(shards, initial) {
        None => Err(MachineVerificationError::UndefinedCumulativeSum),
        Some(sum) => if sum.is_zero() {
            Ok(())
        } else {
            Err(MachineVerificationError::NonZeroCumulativeSum(InteractionScope::Global, 0))
        },
    }
}

/// A machine whose shards are checked by evaluation at a point out of the domain.
#[derive(Debug)]
pub struct StarkMachine<C> {
    config: C,
    chips: Vec<String>,
    num_pv_elts: usize,
    contains_global_bus: bool,
}

impl<C> StarkMachine<C> {
    pub closed spec fn config_of(self) -> C {
        self.config
    }

    pub closed spec fn names(self) -> Seq<String> {
        self.chips@
    }

    pub closed spec fn public_value_number(self) -> usize {
        self.num_pv_elts
    }

    pub closed spec fn global_bus(self) -> bool {
        self.contains_global_bus
    }

    pub fn new(
        config: C,
        chips: Vec<String>,
        num_pv_elts: usize,
        contains_global_bus: bool,
    ) -> (r: Self)
        ensures
            r.config_of() == config,
            r.names() == chips@,
            r.public_value_number() == num_pv_elts,
            r.global_bus() == contains_global_bus,
    {
        StarkMachine { config, chips, num_pv_elts, contains_global_bus }
    }

    pub fn config(&self) -> (r: &C)
        ensures
            *r == self.config_of(),
    {
        &self.config
    }

    pub fn chips(&self) -> (r: &Vec<String>)
        ensures
            r@ == self.names(),
    {
        &self.chips
    }

    pub fn num_pv_elts(&self) -> (r: usize)
        ensures
            r == self.public_value_number(),
    {
        self.num_pv_elts
    }

    pub fn contains_global_bus(&self) -> (r: bool)
        ensures
            r == self.global_bus(),
    {
        self.contains_global_bus
    }

    /// The numbers of the machine's tables that a shard has, in the shard's order.
    pub fn shard_chips_ordered(&self, chip_ordering: &HeightMap) -> (r: Vec<usize>)
        ensures
            in_order(r@, self.names(), chip_ordering@),
    {
        ordered_chips(&self.chips, chip_ordering)
    }

    /// The place of each of the machine's tables in a shard.
    pub fn chips_sorted_indices(&self, chip_ordering: &HeightMap) -> (r: Vec<Option<usize>>)
        ensures
            places_of(r@, self.names(), chip_ordering@),
    {
        chip_places(&self.chips, chip_ordering)
    }

    /// Binds the transcript to the key and decides on a proof, given what the check of each shard
    /// said.
    pub fn verify<F: MerkleField, EF: ExtensionField<F>, E>(
        &self,
        vk: &SCStarkVerifyingKey<F>,
        proof: &SCMachineProof<F, EF>,
        challenger: &mut DuplexChallenger<F>,
        shard_results: Vec<Result<(), E>>,
    ) -> (r: Result<(), MachineVerificationError<E>>)
        requires
            old(challenger)@.wf(),
            keys::key_valid(vk.commit@, vk.pc_start, vk.initial_global_cumulative_sum@),
            shard_results@.len() == proof.shard_proofs@.len(),
        ensures
            final(challenger)@ == keys::observed_key(
                old(challenger)@,
                vk.commit@,
                vk.pc_start,
                vk.initial_global_cumulative_sum@,
            ),
            final(challenger)@.wf(),
            r == machine_verdict(
                proof.shard_proofs@,
                vk.initial_global_cumulative_sum@,
                shard_results@,
                false,
            ),
    {
        vk.observe_into(challenger);
        decide(&proof.shard_proofs, &vk.initial_global_cumulative_sum, shard_results, false)
    }
}

/// An accepted proof has shards, every shard passed its check, and the global sums add up to
/// nothing; and every such proof is accepted.
pub proof fn law_accepted<F: PrimeField32, EF: ExtensionField<F>, E>(
    shards: Seq<SCShardProof<F, EF>>,
    initial: Point<F>,
    results: Seq<Result<(), E>>,
    sumcheck: bool,
)
    requires
        results.len() == shards.len(),
    ensures
        machine_verdict(shards, initial, results, sumcheck) is Ok <==> {
            &&& shards.len() > 0
            &&& forall|i: int| 0 <= i < results.len() ==> (#[trigger] results[i]) is Ok
            &&& machine_sum(shards, initial) == Some(septic_digest::zero_point_of_field::<F>())
        },
{
    lemma_first_failure(results, 0);
}

proof fn lemma_first_failure<E>(results: Seq<Result<(), E>>, i: nat)
    ensures
        first_failure(results, i) is None <==> forall|j: int|
            i <= j < results.len() ==> (#[trigger] results[j]) is Ok,
    decreases results.len() - i,
{
    if i < results.len() {
        lemma_first_failure(results, i + 1);
        if results[i as int] is Ok && first_failure(results, i + 1) is None {
            assert forall|j: int| i <= j < results.len() implies (#[trigger] results[j]) is Ok by {
                if j > i {
                    assert(i + 1 <= j);
                }
            }
        }
    }
}

/// The places of the names of a shape ascend, and no name is left out before another.
pub open spec fn shape_in_order(s: Seq<(String, usize)>, ordering: Map<Seq<char>, usize>) -> bool {
    &&& forall|i: int| 0 <= i < s.len() ==> ordering.dom().contains((#[trigger] s[i]).0@)
    &&& forall|i: int, j: int|
        0 <= i < j < s.len() ==> (#[trigger] s[i]).0@ != (#[trigger] s[j]).0@
            && ordering[s[i].0@] <= ordering[s[j].0@]
    &&& forall|name: Seq<char>, j: int|
        #![trigger ordering.dom().contains(name), s[j]]
        0 <= j < s.len() && ordering.dom().contains(name) && ordering[name] < ordering[s[j].0@]
            ==> exists|i: int| 0 <= i < s.len() && (#[trigger] s[i]).0@ == name
}

impl<F: PrimeField32, EF: ExtensionField<F>> SCShardProof<F, EF> {
    /// The names of the shard's tables in the shard's order, each with the logarithm of the height
    /// of the opened table at its place.
    pub fn shape(&self) -> (r: OrderedShape)
        ensures
            shape_in_order(r.inner@, self.chip_ordering@),
            r.inner@.len() <= self.opened_values.chips@.len(),
            r.inner@.len() < self.opened_values.chips@.len() ==> forall|name: Seq<char>| #[trigger]
                self.chip_ordering@.dom().contains(name) ==> exists|i: int|
                    0 <= i < r.inner@.len() && (#[trigger] r.inner@[i]).0@ == name,
            forall|i: int|
                0 <= i < r.inner@.len() ==> (#[trigger] r.inner@[i]).1
                    == self.opened_values.chips@[i].log_height,
    {
        let names = self.chip_ordering.keys();
        let order = ordered_chips(&names, &self.chip_ordering);
        let len: usize = order.len();
        let chips: usize = self.opened_values.chips.len();
        let n: usize = if len <= chips {
            len
        } else {
            chips
        };
        let mut inner: Vec<(String, usize)> = Vec::new();
        let mut i: usize = 0;
        while i < n
            invariant
                i <= n,
                n <= order@.len(),
                n <= self.opened_values.chips@.len(),
                in_order(order@, names@, self.chip_ordering@),
                inner@.len() == i,
                forall|j: int|
                    0 <= j < i ==> (#[trigger] inner@[j]).0@ == names@[order@[j] as int]@
                        && inner@[j].1 == self.opened_values.chips@[j].log_height,
            decreases n - i,
        {
            assert(order@.contains(order@[i as int]));
            let name = names[order[i]].as_str().to_string();
            inner.push((name, self.opened_values.chips[i].log_height));
            i += 1;
        }
        proof {
            let ordering = self.chip_ordering@;
            assert forall|i: int| 0 <= i < inner@.len() implies ordering.dom().contains(
                (#[trigger] inner@[i]).0@,
            ) by {
                assert(order@.contains(order@[i]));
            }
            assert forall|i: int, j: int| 0 <= i < j < inner@.len() implies (#[trigger] inner@[i]).0@
                != (#[trigger] inner@[j]).0@ && ordering[inner@[i].0@] <= ordering[inner@[j].0@] by {
                assert(order@.contains(order@[i]) && order@.contains(order@[j]));
                assert(comes_before(names@, ordering, order@[i], order@[j]));
                let a = order@[i] as int;
                let b = order@[j] as int;
                assert(a != b);
                assert(names@[a]@ != names@[b]@) by {
                    if a < b {
                        assert(names@[a]@ != names@[b]@);
                    } else {
                        assert(names@[b]@ != names@[a]@);
                    }
                }
            }
            assert forall|name: Seq<char>| #[trigger] ordering.dom().contains(name) implies exists|
                k: int,
            | 0 <= k < order@.len() && names@[#[trigger] order@[k] as int]@ == name by {
                let a = choose|a: int| 0 <= a < names@.len() && (#[trigger] names@[a])@ == name;
                assert(order@.contains(a as usize));
                let k = choose|k: int| 0 <= k < order@.len() && order@[k] == a as usize;
                assert(names@[order@[k] as int]@ == name);
            }
            assert forall|name: Seq<char>, j: int|
                #![trigger ordering.dom().contains(name), inner@[j]]
                0 <= j < inner@.len() && ordering.dom().contains(name) && ordering[name]
                    < ordering[inner@[j].0@] implies exists|i: int|
                0 <= i < inner@.len() && (#[trigger] inner@[i]).0@ == name by {
                let k = choose|k: int|
                    0 <= k < order@.len() && names@[#[trigger] order@[k] as int]@ == name;
                if k >= j {
                    if k > j {
                        assert(comes_before(names@, ordering, order@[j], order@[k]));
                    }
                    assert(false);
                }
                assert(inner@[k].0@ == name);
            }
            if n < chips {
                assert forall|name: Seq<char>| #[trigger] ordering.dom().contains(name) implies exists|
                    i: int,
                | 0 <= i < inner@.len() && (#[trigger] inner@[i]).0@ == name by {
                    let k = choose|k: int|
                        0 <= k < order@.len() && names@[#[trigger] order@[k] as int]@ == name;
                    assert(inner@[k].0@ == name);
                }
            }
        }
        OrderedShape { inner }
    }
}

} // verus!
