//! The configurations of the commitment scheme over the KoalaBear field.
use vstd::prelude::*;
use crate::basefold::challenger::copy_elements;
use crate::basefold::mmcs;
use crate::basefold::pcs::{BaseFoldPcs, FriConfig};
use crate::basefold::poseidon::RoundConstants;
use crate::field::koala_bear::KoalaBear;
use crate::field::Field;

verus! {

/// The number of elements of a digest.
pub const DIGEST_SIZE: usize = 8;

/// What the surroundings set in place of the defaults.
#[derive(Debug, Clone, Copy)]
pub struct Overrides {
    pub fri_queries: Option<usize>,
    pub log_final_poly_len: Option<usize>,
    pub cross_round_shrink: Option<bool>,
    pub cross_round_root: Option<bool>,
    pub path_pruning: Option<bool>,
}

/// The value that is set, or the default.
pub open spec fn or_default<T>(value: Option<T>, default: T) -> T {
    match value {
        Some(v) => v,
        None => default,
    }
}

/// The parameters with the given defaults, where nothing else is set.
pub open spec fn fri_with(o: Overrides, log_blowup: usize, queries: usize, last: usize) -> FriConfig {
    FriConfig {
        log_blowup,
        num_queries: or_default(o.fri_queries, queries),
        grinding_bits_query: 20,
        grinding_bits_batching: 10,
        log_final_poly_len: or_default(o.log_final_poly_len, last),
    }
}

fn make_fri(o: &Overrides, log_blowup: usize, queries: usize, last: usize) -> (r: FriConfig)
    ensures
        r == fri_with(*o, log_blowup, queries, last),
{
    FriConfig {
        log_blowup,
        num_queries: match o.fri_queries {
            Some(n) => n,
            None => queries,
        },
        grinding_bits_query: 20,
        grinding_bits_batching: 10,
        log_final_poly_len: match o.log_final_poly_len {
            Some(n) => n,
            None => last,
        },
    }
}

pub fn dt_fri_config(o: &Overrides) -> (r: FriConfig)
    ensures
        r == fri_with(*o, 1, 193, 4),
{
    make_fri(o, 1, 193, 4)
}

pub fn inner_fri_config(o: &Overrides) -> (r: FriConfig)
    ensures
        r == fri_with(*o, 1, 193, 4),
{
    make_fri(o, 1, 193, 4)
}

pub fn default_fri_config(o: &Overrides) -> (r: FriConfig)
    ensures
        r == fri_with(*o, 1, 193, 4),
{
    make_fri(o, 1, 193, 4)
}

pub fn compressed_fri_config(o: &Overrides) -> (r: FriConfig)
    ensures
        r == fri_with(*o, 2, 118, 4),
{
    make_fri(o, 2, 118, 4)
}

pub fn shrink_fri_config(o: &Overrides) -> (r: FriConfig)
    ensures
        r == fri_with(*o, 3, 97, 4),
{
    make_fri(o, 3, 97, 4)
}

pub fn root_shrink_fri_config(o: &Overrides) -> (r: FriConfig)
    ensures
        r == fri_with(*o, 3, 97, 6),
{
    make_fri(o, 3, 97, 6)
}

pub fn ultra_compressed_fri_config(o: &Overrides) -> (r: FriConfig)
    ensures
        r == fri_with(*o, 1, 193, 4),
{
    make_fri(o, 1, 193, 4)
}

/// The round constants of the permutation: the external ones of both halves, and the internal ones.
pub fn inner_perm<F: Field>(
    begin: &Vec<Vec<F>>,
    end: &Vec<Vec<F>>,
    partial: &Vec<F>,
) -> (r: RoundConstants<F>)
    ensures
        r@.external == mmcs::rows_of(begin@) + mmcs::rows_of(
            end@,
        ),
        r@.internal == partial@,
{
    let ghost all = mmcs::rows_of(begin@) + mmcs::rows_of(end@);
    let n: usize = begin.len();
    let m: usize = end.len();
    let mut external: Vec<Vec<F>> = Vec::new();
    let mut i: usize = 0;
    while i < n
        invariant
            i <= n,
            n == begin@.len(),
            external@.len() == i,
            forall|j: int| 0 <= j < i ==> (#[trigger] external@[j])@ == begin@[j]@,
        decreases n - i,
    {
        external.push(copy_elements(&begin[i]));
        i += 1;
    }
    let mut i: usize = 0;
    while i < m
        invariant
            i <= m,
            m == end@.len(),
            n == begin@.len(),
            external@.len() == n + i,
            forall|j: int|
                0 <= j < n + i ==> (#[trigger] external@[j])@ == (if j < n {
                    begin@[j]@
                } else {
                    end@[j - n]@
                }),
        decreases m - i,
    {
        external.push(copy_elements(&end[i]));
        i += 1;
    }
    let r = RoundConstants { external, internal: copy_elements(partial) };
    assert(r@.external =~= all);
    r
}

/// Which configuration it is.
#[derive(Debug, Clone, Copy, PartialEq, Eq, Structural)]
pub enum KoalaBearPoseidon2Type {
    Default,
    Compressed,
    Shrink,
    RootShrink,
}

/// A configuration of the scheme.
pub struct SCKoalaBearPoseidon2 {
    pub mlpcs: BaseFoldPcs<KoalaBear>,
    pub config_type: KoalaBearPoseidon2Type,
}

impl SCKoalaBearPoseidon2 {
    /// The configuration has the given parts, and no bound of its own on the rounds that share a
    /// commitment.
    pub open spec fn is(
        self,
        constants: RoundConstants<KoalaBear>,
        fri: FriConfig,
        pruning: bool,
        cross_round: bool,
        config_type: KoalaBearPoseidon2Type,
    ) -> bool {
        &&& self.mlpcs.rounds() == constants@
        &&& self.mlpcs.fri == fri
        &&& self.mlpcs.use_path_pruning == pruning
        &&& self.mlpcs.use_cross_round == cross_round
        &&& self.mlpcs.max_fold_override is None
        &&& self.config_type == config_type
    }

    /// The configuration of the given kind.
    pub open spec fn is_of(
        self,
        constants: RoundConstants<KoalaBear>,
        o: Overrides,
        config_type: KoalaBearPoseidon2Type,
    ) -> bool {
        match config_type {
            KoalaBearPoseidon2Type::Default => self.is(
                constants,
                fri_with(o, 1, 193, 4),
                false,
                false,
                config_type,
            ),
            KoalaBearPoseidon2Type::Compressed => self.is(
                constants,
                fri_with(o, 2, 118, 4),
                false,
                false,
                config_type,
            ),
            KoalaBearPoseidon2Type::Shrink => self.is(
                constants,
                fri_with(o, 3, 97, 4),
                false,
                or_default(o.cross_round_shrink, false),
                config_type,
            ),
            KoalaBearPoseidon2Type::RootShrink => self.is(
                constants,
                fri_with(o, 3, 97, 6),
                or_default(o.path_pruning, true),
                or_default(o.cross_round_root, true),
                config_type,
            ),
        }
    }

    pub fn new(constants: &RoundConstants<KoalaBear>, o: &Overrides) -> (r: Self)
        requires
            constants@.wf(),
        ensures
            r.is_of(*constants, *o, KoalaBearPoseidon2Type::Default),
    {
        SCKoalaBearPoseidon2 {
            mlpcs: BaseFoldPcs::new(constants, default_fri_config(o)),
            config_type: KoalaBearPoseidon2Type::Default,
        }
    }

    pub fn compressed(constants: &RoundConstants<KoalaBear>, o: &Overrides) -> (r: Self)
        requires
            constants@.wf(),
        ensures
            r.is_of(*constants, *o, KoalaBearPoseidon2Type::Compressed),
    {
        SCKoalaBearPoseidon2 {
            mlpcs: BaseFoldPcs::new(constants, compressed_fri_config(o)),
            config_type: KoalaBearPoseidon2Type::Compressed,
        }
    }

    /// Rounds share their commitments where this is set. The queries never share their paths.
    pub fn shrink(constants: &RoundConstants<KoalaBear>, o: &Overrides) -> (r: Self)
        requires
            constants@.wf(),
        ensures
            r.is_of(*constants, *o, KoalaBearPoseidon2Type::Shrink),
            !(r.mlpcs.use_cross_round && r.mlpcs.use_path_pruning),
    {
        let mut mlpcs = BaseFoldPcs::new(constants, shrink_fri_config(o));
        mlpcs.use_cross_round = match o.cross_round_shrink {
            Some(b) => b,
            None => false,
        };
        SCKoalaBearPoseidon2 { mlpcs, config_type: KoalaBearPoseidon2Type::Shrink }
    }

    /// Rounds share their commitments and queries their paths, unless it is set otherwise.
    pub fn root_shrink(constants: &RoundConstants<KoalaBear>, o: &Overrides) -> (r: Self)
        requires
            constants@.wf(),
        ensures
            r.is_of(*constants, *o, KoalaBearPoseidon2Type::RootShrink),
    {
        let mut mlpcs = BaseFoldPcs::new(constants, root_shrink_fri_config(o));
        mlpcs.use_path_pruning = match o.path_pruning {
            Some(b) => b,
            None => true,
        };
        mlpcs.use_cross_round = match o.cross_round_root {
            Some(b) => b,
            None => true,
        };
        SCKoalaBearPoseidon2 { mlpcs, config_type: KoalaBearPoseidon2Type::RootShrink }
    }

    /// The parameters are those of the default, but a copy is a compressed configuration.
    pub fn ultra_compressed(constants: &RoundConstants<KoalaBear>, o: &Overrides) -> (r: Self)
        requires
            constants@.wf(),
        ensures
            r.is(
                *constants,
                fri_with(*o, 1, 193, 4),
                false,
                false,
                KoalaBearPoseidon2Type::Compressed,
            ),
    {
        SCKoalaBearPoseidon2 {
            mlpcs: BaseFoldPcs::new(constants, ultra_compressed_fri_config(o)),
            config_type: KoalaBearPoseidon2Type::Compressed,
        }
    }

    /// A configuration of the same kind, made anew.
    pub fn duplicate(&self, constants: &RoundConstants<KoalaBear>, o: &Overrides) -> (r: Self)
        requires
            constants@.wf(),
        ensures
            r.is_of(*constants, *o, self.config_type),
    {
        match self.config_type {
            KoalaBearPoseidon2Type::Default => Self::new(constants, o),
            KoalaBearPoseidon2Type::Compressed => Self::compressed(constants, o),
            KoalaBearPoseidon2Type::Shrink => Self::shrink(constants, o),
            KoalaBearPoseidon2Type::RootShrink => Self::root_shrink(constants, o),
        }
    }

    /// The scheme of the configuration.
    pub fn mlpcs(&self) -> (r: &BaseFoldPcs<KoalaBear>)
        ensures
            *r == self.mlpcs,
    {
        &self.mlpcs
    }

    /// The digest of nothing.
    pub fn zero_commitment(&self) -> (r: Vec<KoalaBear>)
        ensures
            r@ == Seq::new(DIGEST_SIZE as nat, |i: int| KoalaBear::zero_elem()),
    {
        let mut r: Vec<KoalaBear> = Vec::new();
        let mut i: usize = 0;
        while i < DIGEST_SIZE
            invariant
                i <= DIGEST_SIZE,
                r@ == Seq::new(i as nat, |i: int| KoalaBear::zero_elem()),
            decreases DIGEST_SIZE - i,
        {
            r.push(KoalaBear::zero());
            i += 1;
            assert(r@ =~= Seq::new(i as nat, |i: int| KoalaBear::zero_elem()));
        }
        r
    }
}

} // verus!
