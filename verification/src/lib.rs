//! Client side of a mining pool: what goes over the wire, which task is worked on,
//! and how the nonces of a task are searched.

pub mod address;
pub mod board;
pub mod clock;
pub mod connect;
pub mod le;
pub mod link;
pub mod miner;
pub mod plan;
pub mod ready;
pub mod round;
pub mod search;
pub mod task;
pub mod text;
pub mod wire;
