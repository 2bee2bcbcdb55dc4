//! Random walkers over a network.
//!
//! A walker samples a truncated walk rooted at a start node: it repeatedly
//! asks the network for the neighbour listing of the walk's last node and
//! appends a uniformly drawn entry, stopping at the configured length or
//! when the last node has no neighbours.  The walker owns a seedable
//! generator, so for a fixed topology, seed, start node and walk length
//! the sampled walk is reproducible.

use crate::network::Network;
use crate::network::NetworkNode;
use rand::rngs::StdRng;
use rand::FromEntropy;
use rand::Rng;
use rand::SeedableRng;
use vstd::prelude::*;

verus! {

#[verifier::external_type_specification]
#[verifier::external_body]
pub struct ExStdRng(StdRng);

/// The generator state that reseeding with `seed` produces.  rand's
/// `seed_from_u64` is a function of the seed alone, so the state can be
/// named; what the generator later draws stays unmodelled.
pub uninterp spec fn seeded_rng(seed: u64) -> StdRng;

/// Relies on rand's `FromEntropy::from_entropy` for `StdRng`: a generator
/// seeded from the operating system; nothing is known of its state.
/// Panics only when the platform offers no entropy source at all.
#[verifier::external_body]
fn rng_from_entropy() -> (r: StdRng) {
    StdRng::from_entropy()
}

/// Relies on rand's `SeedableRng::seed_from_u64` for `StdRng`: a
/// deterministic, machine-independent function of the seed alone, here
/// named `seeded_rng`.
#[verifier::external_body]
fn rng_from_seed(seed: u64) -> (r: StdRng)
    ensures
        r == seeded_rng(seed),
{
    StdRng::seed_from_u64(seed)
}

/// Relies on rand's `Rng::gen_range` over `[0, n)`: a uniformly drawn
/// index below `n`.  Panics when the range is empty, which the
/// precondition rules out.
#[verifier::external_body]
fn gen_index(rng: &mut StdRng, n: usize) -> (r: usize)
    requires
        n > 0,
    ensures
        r < n,
{
    rng.gen_range(0, n)
}

/// A stochastic walk generator over a network.
pub trait RandomWalker {
    /// The most nodes a sampled walk may hold.
    spec fn walk_len_limit(&self) -> nat;

    /// Sample one walk rooted at `start_node`.  The walk always holds the
    /// start node, every later entry is a neighbour of its predecessor,
    /// and a walk shorter than the limit ends at a node without
    /// neighbours — a valid outcome, not an error.
    fn walk<N: NetworkNode, E: Copy>(&mut self, net: &Network<N, E>, start_node: N) -> (r: Vec<
        N,
    >)
        requires
            net.wf(),
        ensures
            r@.len() >= 1,
            r@[0] == start_node,
            r@.len() <= old(self).walk_len_limit() || r@.len() == 1,
            forall|i: int|
                1 <= i < r@.len() ==> net@.out_neighbours((#[trigger] r@[i - 1]).key()).contains(
                    r@[i].key(),
                ),
            r@.len() < old(self).walk_len_limit() ==> net@.out_neighbours(
                r@[r@.len() - 1].key(),
            ).len() == 0,
            net@.out_neighbours(start_node.key()).len() == 0 ==> r@ == seq![start_node],
    ;
}

/// A walker that draws each step uniformly over the neighbour listing.
pub struct NonBiasedRandomWalker {
    walks_per_node: usize,
    walk_length: usize,
    rng: StdRng,
}

impl NonBiasedRandomWalker {
    /// How many walks per node a driver is meant to sample.
    pub closed spec fn spec_walks_per_node(self) -> usize {
        self.walks_per_node
    }

    /// The most nodes one sampled walk may hold.
    pub closed spec fn spec_walk_length(self) -> usize {
        self.walk_length
    }

    /// The walker's generator state.
    pub closed spec fn spec_rng(self) -> StdRng {
        self.rng
    }

    /// A walker with the given configuration, drawing from an
    /// entropy-seeded generator until a seed is set.
    pub fn new(walks_per_node: usize, walk_length: usize) -> (r: NonBiasedRandomWalker)
        ensures
            r.spec_walks_per_node() == walks_per_node,
            r.spec_walk_length() == walk_length,
    {
        NonBiasedRandomWalker { walks_per_node, walk_length, rng: rng_from_entropy() }
    }

    /// Reset the generator to the state the seed determines.  All
    /// subsequent walks are then a function of (topology, seed, start
    /// node, walk length); the step that the seeded state fixes each
    /// draw is the trusted generator's, exercised by tests.
    pub fn set_seed(&mut self, seed: u64)
        ensures
            final(self).spec_walks_per_node() == old(self).spec_walks_per_node(),
            final(self).spec_walk_length() == old(self).spec_walk_length(),
            final(self).spec_rng() == seeded_rng(seed),
    {
        self.rng = rng_from_seed(seed);
    }
}

impl RandomWalker for NonBiasedRandomWalker {
    open spec fn walk_len_limit(&self) -> nat {
        self.spec_walk_length() as nat
    }

    fn walk<N: NetworkNode, E: Copy>(&mut self, net: &Network<N, E>, start_node: N) -> (r: Vec<
        N,
    >) {
        let mut walk: Vec<N> = Vec::new();

        walk.push(start_node);

        while walk.len() < self.walk_length
            invariant_except_break
                net.wf(),
                self.walk_length == old(self).walk_length,
                walk@.len() >= 1,
                walk@[0] == start_node,
                walk@.len() <= self.walk_length || walk@.len() == 1,
                forall|i: int|
                    1 <= i < walk@.len() ==> net@.out_neighbours(
                        (#[trigger] walk@[i - 1]).key(),
                    ).contains(walk@[i].key()),
                net@.out_neighbours(start_node.key()).len() == 0 ==> walk@ == seq![start_node],
            ensures
                self.walk_length == old(self).walk_length,
                walk@.len() >= 1,
                walk@[0] == start_node,
                walk@.len() <= self.walk_length || walk@.len() == 1,
                forall|i: int|
                    1 <= i < walk@.len() ==> net@.out_neighbours(
                        (#[trigger] walk@[i - 1]).key(),
                    ).contains(walk@[i].key()),
                walk@.len() < self.walk_length ==> net@.out_neighbours(
                    walk@[walk@.len() - 1].key(),
                ).len() == 0,
                net@.out_neighbours(start_node.key()).len() == 0 ==> walk@ == seq![start_node],
            decreases self.walk_length - walk.len(),
        {
            let last = walk[walk.len() - 1];
            match net.neighbours_of(last) {
                None => {
                    break ;
                },
                Some(neighbours) => {
                    let idx = gen_index(&mut self.rng, neighbours.len());
                    let chosen = neighbours[idx];
                    proof {
                        assert(neighbours@[idx as int].key() == net@.out_neighbours(
                            last.key(),
                        )[idx as int]);
                        assert(net@.out_neighbours(last.key()).contains(chosen.key()));
                        if net@.out_neighbours(start_node.key()).len() == 0 {
                            assert(walk@ =~= seq![start_node]);
                            assert(last == start_node);
                        }
                    }
                    walk.push(chosen);
                },
            }
        }

        walk
    }
}

} // verus!
