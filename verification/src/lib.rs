//! An implementation of the LSeq CRDT, which makes use of some basics and ideas of the
//! TreeDoc and Logoot CRDTs.
//!
//! LSeq paper: https://hal.archives-ouvertes.fr/hal-00921633/document
//! TreeDoc paper: https://hal.inria.fr/inria-00445975/document
//! Logoot paper: https://hal.inria.fr/inria-00432368/document/
//!
//! Identifiers are stored in a tree, so that no part of an identifier that others share is
//! kept twice.
pub mod actor;
pub mod allocation;
pub mod between;
pub mod clock_laws;
pub mod clock_order;
pub mod convergence;
pub mod ctx;
pub mod effects;
pub mod history;
pub mod identifier;
pub mod laws;
pub mod lseq;
pub mod nodes;
pub mod numbers;
pub mod soundness;
pub mod state;
pub mod strategy;
pub mod text;
pub mod tree;
pub mod validity;
pub mod vclock;
pub mod walk;

pub use crate::lseq::{LSeq, Op};
pub use crate::strategy::LSeqStrategy;
