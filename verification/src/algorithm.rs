//! The capability every embedding algorithm offers.

use crate::embedding::Embedding;
use crate::embedding::EmbeddingKey;
use crate::network::Network;
use crate::network::NetworkNode;
use vstd::prelude::*;

verus! {

/// An algorithm that turns a network into an embedding of its nodes,
/// keyed by node identity.  Walk-based algorithms implement this by
/// sampling walks per node and handing the corpus to a sequence-
/// embedding learner.
pub trait BaseAlgorithm {
    /// Embed the nodes of `net`.
    fn embed<N: NetworkNode + EmbeddingKey, E: Copy, S: Copy>(&self, net: Network<N, E>) -> (r:
        Embedding<N, S>)
        requires
            net.wf(),
        ensures
            r.wf(),
    ;
}

} // verus!
