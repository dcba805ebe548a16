//! An in-memory key-value store speaking a line-oriented binary wire
//! protocol: a codec for protocol elements (`resp`), a command model built on
//! top of it (`resp::commands`), a storage engine with per-key expiry
//! (`store`), and the executor that runs commands against it (`worker`).

pub mod resp;
pub mod store;
pub mod worker;
