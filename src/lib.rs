//! Lock-free data structures and their memory reclamation, as verified
//! single-owner models: node storage with stable 2-aligned addresses,
//! hazard-pointer protection and retirement, the Michael & Scott queue, the
//! optimistic (Ladan-Mozes & Shavit) queue, the Treiber stack with its
//! elimination array, a single-writer RCU cell, and exponential backoff.

pub mod backoff;
pub mod pool;
pub mod model;
pub mod hp;
pub mod ms_queue;
pub mod optimistic_ms_queue;
pub mod treiber_stack;
pub mod elimination;
pub mod rcu;
