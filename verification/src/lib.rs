//! A minimal subsequential transducer over `char` words with `usize` outputs,
//! built incrementally and kept minimal under insertion and deletion.
//!
//! [`transducer::Transducer`] is the transducer itself, with its store in
//! [`utils`], [`inverse`], [`signature`] and [`states`]. [`model::Model`] is
//! what a transducer is as mathematics: the contracts of the operations speak
//! of the model, of what it reads, accepts and emits.
//!
//! [`wellformed`] states what holds of a transducer between operations. It is
//! `sound` while it is built along its path `min_except`, and `minimal` once
//! the path has been reduced; a `tidy` transducer emits its outputs as early as
//! possible. [`insertion`] and [`removal`] say what the operations do to the
//! model, step by step; [`insert`] and [`remove`] hold the operations
//! themselves; [`proofs`] shows that they keep the transducer sound and what
//! they do to its language; [`laws`] states what follows for callers.

pub mod insert;
pub mod insertion;
pub mod inverse;
pub mod laws;
pub mod model;
pub mod proofs;
pub mod removal;
pub mod remove;
pub mod signature;
pub mod states;
pub mod transducer;
pub mod utils;
pub mod wellformed;
