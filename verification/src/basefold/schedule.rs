//! Which folding rounds share a commitment.
use vstd::prelude::*;

verus! {

/// A single IOPP commitment group: one Merkle tree of row width `2^log_folding`, from which
/// `log_folding` consecutive folds are computed locally.
#[derive(Debug, Clone, Copy, PartialEq, Eq)]
pub struct CommitGroup {
    /// Log-height of the codeword committed at the start of this group, before its first fold.
    pub start_log_height: usize,
    /// Number of consecutive folding rounds merged into this group's single commitment.
    pub log_folding: usize,
}

/// The default of the largest `log_folding` of a cross-round group.
pub const DEFAULT_MAX_LOG_FOLDING: usize = 4;

/// The cap on `log_folding` that an override string asks for: its value where it is a decimal
/// number, else the default.
pub open spec fn max_log_folding_of(override_value: Option<usize>) -> usize {
    match override_value {
        Some(v) => v,
        None => DEFAULT_MAX_LOG_FOLDING,
    }
}

/// The largest `log_folding` of a cross-round group, given the override that the environment
/// holds, if any.
pub fn cross_round_max_log_folding(override_value: Option<usize>) -> (r: usize)
    ensures
        r == max_log_folding_of(override_value),
{
    match override_value {
        Some(v) => v,
        None => DEFAULT_MAX_LOG_FOLDING,
    }
}

/// One group for each fold from log-height `num_vars` down to `k`.
pub open spec fn per_round_schedule(num_vars: nat, k: nat) -> Seq<CommitGroup> {
    let rounds = if num_vars > k {
        (num_vars - k) as nat
    } else {
        0
    };
    Seq::new(
        rounds,
        |i: int|
            CommitGroup { start_log_height: (num_vars - i) as usize, log_folding: 1 },
    )
}

/// Commit one round for each fold before early stopping.
pub fn compute_commit_schedule(num_vars: usize, k: usize) -> (groups: Vec<CommitGroup>)
    ensures
        groups@ == per_round_schedule(num_vars as nat, k as nat),
{
    let active_rounds: usize = if num_vars > k {
        num_vars - k
    } else {
        0
    };
    let mut groups: Vec<CommitGroup> = Vec::new();
    let mut i: usize = 0;
    while i < active_rounds
        invariant
            i <= active_rounds <= num_vars,
            active_rounds == (if num_vars > k {
                num_vars - k
            } else {
                0
            }),
            groups@ == per_round_schedule(num_vars as nat, k as nat).subrange(0, i as int),
        decreases active_rounds - i,
    {
        groups.push(CommitGroup { start_log_height: num_vars - i, log_folding: 1 });
        i = i + 1;
        assert(groups@ =~= per_round_schedule(num_vars as nat, k as nat).subrange(0, i as int));
    }
    assert(groups@ =~= per_round_schedule(num_vars as nat, k as nat));
    groups
}

/// `b` is the largest height in `heights` below `h`, or zero if there is none.
pub open spec fn is_next_lower(heights: Seq<usize>, h: nat, b: nat) -> bool {
    &&& b == 0 || (b < h && exists|i: int| 0 <= i < heights.len() && heights[i] == b)
    &&& forall|i: int| 0 <= i < heights.len() && heights[i] < h ==> #[trigger] heights[i] <= b
}

/// The largest height in `heights` below `h`, or zero if there is none.
pub open spec fn next_lower(heights: Seq<usize>, h: nat) -> nat
    decreases heights.len(),
{
    if heights.len() == 0 {
        0
    } else {
        let rest = next_lower(heights.drop_last(), h);
        let last = heights.last() as nat;
        if last < h && last > rest {
            last
        } else {
            rest
        }
    }
}

pub proof fn lemma_next_lower(heights: Seq<usize>, h: nat)
    ensures
        is_next_lower(heights, h, next_lower(heights, h)),
    decreases heights.len(),
{
    if heights.len() > 0 {
        let front = heights.drop_last();
        lemma_next_lower(front, h);
        let b = next_lower(heights, h);
        assert forall|i: int| 0 <= i < heights.len() && heights[i] < h implies #[trigger] heights[i]
            <= b by {
            if i < front.len() {
                assert(front[i] == heights[i]);
            }
        }
        if b != 0 {
            if b == heights.last() as nat {
                assert(heights[heights.len() - 1] == b);
            } else {
                let i = choose|i: int| 0 <= i < front.len() && front[i] == b;
                assert(heights[i] == b);
            }
        }
    }
}

/// The log-height at which the group that starts at `h` ends: the next merge boundary or the
/// early-stop boundary, whichever comes first, and at most `cap` rounds away where `cap` is not
/// zero.
pub open spec fn group_stop(heights: Seq<usize>, h: nat, k: nat, cap: nat) -> nat {
    let lower = next_lower(heights, h);
    let stop = if lower > k {
        lower
    } else {
        k
    };
    if cap > 0 && h - stop > cap {
        (h - cap) as nat
    } else {
        stop
    }
}

/// The groups that cover the folds from log-height `h` down to `k`.
pub open spec fn cross_round_schedule(heights: Seq<usize>, h: nat, k: nat, cap: nat) -> Seq<
    CommitGroup,
>
    decreases h,
{
    if h <= k {
        Seq::empty()
    } else {
        let stop = group_stop(heights, h, k, cap);
        if stop >= h {
            Seq::empty()
        } else {
            seq![
                CommitGroup { start_log_height: h as usize, log_folding: (h - stop) as usize },
            ] + cross_round_schedule(heights, stop, k, cap)
        }
    }
}

/// The schedule of [`compute_commit_schedule_cross_round_capped`].
pub open spec fn commit_schedule(
    heights: Seq<usize>,
    num_vars: nat,
    k: nat,
    use_cross_round: bool,
    cap: nat,
) -> Seq<CommitGroup> {
    if use_cross_round {
        cross_round_schedule(heights, num_vars, k, cap)
    } else {
        per_round_schedule(num_vars, k)
    }
}

/// A group ends below its start and not below `k`.
pub proof fn lemma_group_stop(heights: Seq<usize>, h: nat, k: nat, cap: nat)
    requires
        h > k,
    ensures
        k <= group_stop(heights, h, k, cap) < h,
        cap > 0 ==> h - group_stop(heights, h, k, cap) <= cap,
        next_lower(heights, h) <= group_stop(heights, h, k, cap),
{
    lemma_next_lower(heights, h);
}

/// Builds the commitment schedule from the set of heights at which matrices are injected, given
/// as a sequence in any order.
///
/// With `use_cross_round` unset every group covers one round. With it set a group extends downward
/// from its start to the next height with a matrix or the early-stop boundary `k`; a gap wider
/// than `max_log_folding` is split into groups of that many rounds (`0` stands for no cap).
pub fn compute_commit_schedule_cross_round_capped(
    present_heights: &Vec<usize>,
    num_vars: usize,
    k: usize,
    use_cross_round: bool,
    max_log_folding: usize,
) -> (groups: Vec<CommitGroup>)
    ensures
        groups@ == commit_schedule(
            present_heights@,
            num_vars as nat,
            k as nat,
            use_cross_round,
            max_log_folding as nat,
        ),
{
    if !use_cross_round {
        return compute_commit_schedule(num_vars, k);
    }
    let ghost whole = cross_round_schedule(
        present_heights@,
        num_vars as nat,
        k as nat,
        max_log_folding as nat,
    );
    let mut groups: Vec<CommitGroup> = Vec::new();
    let mut h: usize = num_vars;
    while h > k
        invariant
            h <= num_vars,
            whole == groups@ + cross_round_schedule(
                present_heights@,
                h as nat,
                k as nat,
                max_log_folding as nat,
            ),
        decreases h,
    {
        let mut next_lower_present: usize = 0;
        let mut i: usize = 0;
        while i < present_heights.len()
            invariant
                i <= present_heights@.len(),
                next_lower_present as nat == next_lower(
                    present_heights@.subrange(0, i as int),
                    h as nat,
                ),
            decreases present_heights.len() - i,
        {
            let p: usize = present_heights[i];
            if p < h && p > next_lower_present {
                next_lower_present = p;
            }
            assert(present_heights@.subrange(0, i as int) =~= present_heights@.subrange(
                0,
                i + 1,
            ).drop_last());
            i = i + 1;
        }
        assert(present_heights@.subrange(0, i as int) =~= present_heights@);
        proof {
            lemma_group_stop(present_heights@, h as nat, k as nat, max_log_folding as nat);
            lemma_next_lower(present_heights@, h as nat);
        }
        let mut stop: usize = if next_lower_present > k {
            next_lower_present
        } else {
            k
        };
        let mut log_folding: usize = h - stop;
        if max_log_folding > 0 && log_folding > max_log_folding {
            log_folding = max_log_folding;
            stop = h - max_log_folding;
        }
        groups.push(CommitGroup { start_log_height: h, log_folding });
        assert(whole =~= groups@ + cross_round_schedule(
            present_heights@,
            stop as nat,
            k as nat,
            max_log_folding as nat,
        ));
        h = stop;
    }
    assert(whole =~= groups@);
    groups
}

/// [`compute_commit_schedule_cross_round_capped`] with the cap that the override asks for.
pub fn compute_commit_schedule_cross_round(
    present_heights: &Vec<usize>,
    num_vars: usize,
    k: usize,
    use_cross_round: bool,
    override_value: Option<usize>,
) -> (groups: Vec<CommitGroup>)
    ensures
        groups@ == commit_schedule(
            present_heights@,
            num_vars as nat,
            k as nat,
            use_cross_round,
            max_log_folding_of(override_value) as nat,
        ),
{
    compute_commit_schedule_cross_round_capped(
        present_heights,
        num_vars,
        k,
        use_cross_round,
        cross_round_max_log_folding(override_value),
    )
}

/// The groups of a schedule cover the folds from `h` down to `k` without gap or overlap: each
/// starts where the one before ends, spans at least one round, and the last ends at `k`.
pub open spec fn tiles(groups: Seq<CommitGroup>, h: nat, k: nat) -> bool
    decreases groups.len(),
{
    if groups.len() == 0 {
        h <= k
    } else {
        let g = groups[0];
        &&& g.start_log_height == h
        &&& 1 <= g.log_folding <= h - k
        &&& tiles(groups.drop_first(), (h - g.log_folding) as nat, k)
    }
}

/// No height with a matrix lies strictly inside a group.
pub open spec fn no_boundary_inside(heights: Seq<usize>, g: CommitGroup) -> bool {
    forall|i: int|
        0 <= i < heights.len() ==> !(g.start_log_height - g.log_folding < #[trigger] heights[i]
            < g.start_log_height)
}

/// Law: every schedule tiles the rounds, whether rounds are merged or not.
pub proof fn law_schedule_tiles(
    heights: Seq<usize>,
    num_vars: nat,
    k: nat,
    use_cross_round: bool,
    cap: nat,
)
    requires
        num_vars <= usize::MAX,
    ensures
        tiles(commit_schedule(heights, num_vars, k, use_cross_round, cap), num_vars, k),
    decreases num_vars,
{
    let s = commit_schedule(heights, num_vars, k, use_cross_round, cap);
    if num_vars > k {
        if use_cross_round {
            lemma_group_stop(heights, num_vars, k, cap);
            let stop = group_stop(heights, num_vars, k, cap);
            law_schedule_tiles(heights, stop, k, use_cross_round, cap);
            assert(s.drop_first() =~= cross_round_schedule(heights, stop, k, cap));
        } else {
            law_schedule_tiles(heights, (num_vars - 1) as nat, k, use_cross_round, cap);
            assert(s.drop_first() =~= per_round_schedule((num_vars - 1) as nat, k));
        }
    }
}

/// Law: a merged group respects the cap and never crosses a merge boundary.
pub proof fn law_schedule_respects_boundaries(heights: Seq<usize>, num_vars: nat, k: nat, cap: nat)
    requires
        num_vars <= usize::MAX,
    ensures
        forall|i: int|
            0 <= i < cross_round_schedule(heights, num_vars, k, cap).len() ==> {
                let g = #[trigger] cross_round_schedule(heights, num_vars, k, cap)[i];
                &&& cap > 0 ==> g.log_folding <= cap
                &&& no_boundary_inside(heights, g)
                &&& k + g.log_folding <= g.start_log_height <= num_vars
            },
    decreases num_vars,
{
    if num_vars > k {
        lemma_group_stop(heights, num_vars, k, cap);
        lemma_next_lower(heights, num_vars);
        let stop = group_stop(heights, num_vars, k, cap);
        law_schedule_respects_boundaries(heights, stop, k, cap);
        let s = cross_round_schedule(heights, num_vars, k, cap);
        let rest = cross_round_schedule(heights, stop, k, cap);
        assert forall|i: int| 0 <= i < s.len() implies {
            let g = #[trigger] s[i];
            &&& cap > 0 ==> g.log_folding <= cap
            &&& no_boundary_inside(heights, g)
            &&& k + g.log_folding <= g.start_log_height <= num_vars
        } by {
            if i > 0 {
                assert(s[i] == rest[i - 1]);
            }
        }
    }
}

/// Law: with merging disabled the schedule is the per-round one, whatever heights and cap.
pub proof fn law_disabled_is_per_round(heights: Seq<usize>, num_vars: nat, k: nat, cap: nat)
    ensures
        commit_schedule(heights, num_vars, k, false, cap) == per_round_schedule(num_vars, k),
{
}

} // verus!
