//! Contextual coherence fields: earned, per-context trust for autonomous agents.
//!
//! An agent meets the world as a stream of sensory contexts. For each context
//! it keeps an accumulator of trust that grows with good experience, drops
//! with bad, and decays with disuse, above a floor that its history has
//! earned. The trust in the present context, gated against what is sensed
//! right now, drives a four-quadrant behavioural phase with hysteresis. Over
//! all contexts, a weighted graph of similarity and trust is cut at its
//! cheapest place to find the boundary of the agent's comfort zone.
//!
//! Every quantity of the unit interval is a fixed-point integer in parts per
//! million (see [`units`]), so each bound stated in a contract is an exact
//! statement about the value that the code computes, and the minimum cut is
//! exact.
//!
//! The pipeline, leaves first:
//!
//! * [`vocabulary`]: sensor snapshot to feature vector, stable hash, similarity
//!   (exact for every dimension, over the 256-bit products of [`wide`]).
//! * [`accumulator`]: the trust state of one context and what can happen to it.
//! * [`field`]: the bounded map from contexts to accumulators, and effective trust.
//! * [`phase`]: personality, and the hysteretic four-quadrant classifier.
//! * [`boundary`]: the context graph and its minimum cut, found by
//!   [`stoer_wagner`] and proved minimal over [`cut`] and [`ordering`].
//!
//! Around the pipeline:
//!
//! * [`mbot`]: a six-dimensional reference vocabulary.
//! * [`cardinality`]: two-tier context maps, and the merging of accumulators.
//! * [`seg`]: a portable snapshot of a field.
//! * [`sinkhorn`]: projection towards the doubly stochastic matrices.
//! * [`mixing`]: configuration, strategy and transition smoothing for trust mixing.
//! * [`cluster`]: one cluster of contexts with its mixing matrix.
//! * [`hierarchical`]: mixing within clusters, between them, and back.
//!
//! Three modules hold what is taken on trust: [`store`] and [`tier_store`]
//! say what the hash maps of `hashbrown` and `heapless` do, and
//! [`cluster_store`] what the bounded vectors of `heapless` do.

pub mod units;
pub mod phase;
pub mod wide;
pub mod vocabulary;
pub mod mbot;
pub mod accumulator;
pub mod store;
pub mod field;
pub mod cut;
pub mod ordering;
pub mod stoer_wagner;
pub mod boundary;
pub mod seg;
pub mod tier_store;
pub mod cardinality;
pub mod cluster_store;
pub mod cluster;
pub mod mixing;
pub mod sinkhorn;
pub mod hierarchical;
