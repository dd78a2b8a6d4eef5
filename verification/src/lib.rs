//! A small DNS-over-UDP query server core: wire codec, rule engine,
//! upstream mirror failover and per-peer session bookkeeping.

pub mod codec;
pub mod config;
pub mod handler;
pub mod message;
pub mod mirror;
pub mod name;
pub mod round_trip;
pub mod rules;
pub mod session;
pub mod wire;
