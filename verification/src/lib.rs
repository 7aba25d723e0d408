//! The semantic core of a virtual GPU: what guest work touches, what orders it,
//! where its bytes are, and when the guest may see that it finished.
//!
//! Nothing here draws, maps memory or talks to a host. Every type is plain data
//! with a mathematical model, every function has a contract over that model,
//! and the laws that relate several functions stand next to them as public
//! proof functions.

pub mod identity;
pub mod table;
pub mod access;
pub mod range_set;
pub mod content;
pub mod ordinal_set;
pub mod depend;
pub mod publish;
pub mod ready;
pub mod pipeline;
pub mod namespace;
pub mod heap;
pub mod fifo;
pub mod transaction;
pub mod lifecycle;
pub mod tenancy;
pub mod stream;
pub mod operation;
pub mod sync;
pub mod resource_state;
pub mod bind;
pub mod blit;
pub mod icb;
pub mod pass;
pub mod render;
pub mod compute;
pub mod exec;
pub mod decode;
pub mod resolve;
pub mod encoder;
pub mod interpret;
pub mod prereq;
pub mod present;
pub mod query;
pub mod control;
pub mod retire;
pub mod session;
pub mod eligible;
pub mod schedule;
pub mod diverge;
pub mod words;
pub mod drained;
pub mod stamped;
pub mod answered;
pub mod follow;
pub mod heard;
pub mod settled;
pub mod completion;
pub mod shown;
pub mod confluence;
pub mod stale;
