//! Keeping a development machine and a worker in step over plain git.

pub mod auth;
pub mod bytes;
pub mod checkout;
pub mod connection;
pub mod display;
pub mod doctor;
pub mod encode;
pub mod json;
pub mod listen;
pub mod metrics;
pub mod numbers;
pub mod patterns;
pub mod pktline;
pub mod probe;
pub mod protocol;
pub mod push;
pub mod report;
pub mod select;
pub mod server;
pub mod stream;
pub mod streams;
pub mod sync;
pub mod table;
pub mod text;
pub mod trace2;
pub mod worktree;
