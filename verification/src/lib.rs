//! homelab-core: the operations and decisions of the homelab orchestrator,
//! with their contracts. Judgements are functions of the values handed in;
//! operations reach the machine only through an [`executor::Executor`],
//! whose record of requests and replies their contracts speak about.

pub mod ask;
pub mod text;
pub mod order;
pub mod keyed;
pub mod digest;
pub mod error;
pub mod checks;
pub mod doctor;
pub mod sink;
pub mod executor;
pub mod incidents;
pub mod manifest;
pub mod native;
pub mod retention;
pub mod notify;
pub mod runner;
pub mod safety;
pub mod state;
pub mod ops;
