//! Minimization of finite-state acceptors and transducers.
//!
//! The library holds an explicit, vector-based finite-state transducer
//! (`fst::VectorFst`), the state partition used by the minimizers
//! (`partition::Partition`), the graph utilities the minimizers rely on
//! (`connect`, `tr_ops`) and the minimization algorithms (`minimize`).

pub mod fst;
pub mod queue;
pub mod partition;
pub mod collections;
pub mod graph;
pub mod connect;
pub mod depth;
pub mod properties;
pub mod tr_ops;
pub mod acyclic;
pub mod cyclic;
pub mod merge;
pub mod comparator;
pub mod minimize;
pub mod language;
pub mod stability;
pub mod hopcroft;
pub mod minimality;
pub mod fixpoint;
pub mod uniqueness;
