//! A small library for computing vector-space embeddings of network nodes.
//!
//! The core pieces are a labelled multigraph ([`network::Network`]) over
//! caller-chosen node identities, a fixed-dimension vector store
//! ([`embedding::Embedding`]), and a seedable random walker
//! ([`random_walk::NonBiasedRandomWalker`]) that samples truncated walks
//! used as training corpora by downstream sequence-embedding learners.

pub mod algorithm;
pub mod embedding;
pub mod embedding_reader;
pub mod graph_store;
pub mod load;
pub mod network;
pub mod network_reader;
pub mod parse;
pub mod random_walk;
pub mod text;
