//! Replication planning for a peer-to-peer network of git repositories.
//!
//! Given the project to synchronise, the peer being contacted and what is
//! already trusted locally, the planner decides which references to request
//! and under which names to store them.

pub mod text;
pub mod path;
pub mod identity;
pub mod names;
pub mod reference;
pub mod refspec;
pub mod sorted;
pub mod collections;
pub mod fetch;
pub mod gate;
pub mod data;
