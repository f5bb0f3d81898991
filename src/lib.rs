//! Connection/session layer of a hybrid reliable/unreliable peer transport:
//! per-peer connection records, RTT estimation, datagram envelopes and their
//! authentication, and the decision logic of the server table and client session.

pub mod auth;
pub mod client;
pub mod config;
pub mod connection;
pub mod datagram;
pub mod event;
pub mod rtt;
pub mod table;
