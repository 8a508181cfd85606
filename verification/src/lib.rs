//! An IPC broker: remote calls routed between clients and workers, and
//! publish/subscribe events, with the routing decisions verified.
pub mod table;
pub mod json;
pub mod rpc;
pub mod activate;
pub mod broker;
pub mod framing;
pub mod calculator;
pub mod signature;
pub mod render;
pub mod client;
pub mod worker;
pub mod logger;
pub mod address;
