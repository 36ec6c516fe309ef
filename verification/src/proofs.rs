//! The proofs that the operations keep the transducer sound and leave what it
//! computes as their contracts say.

pub mod addition;
pub mod canonical;
pub mod cutting;
pub mod dictionary;
pub mod earliest;
pub mod opening;
pub mod paths;
pub mod reduction;
pub mod rooted;
pub mod single;
pub mod unique;
