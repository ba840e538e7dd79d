//! A lightweight DNS server library.

pub mod acl;
pub mod blocklist;
pub mod bytes;
pub mod cache;
pub mod config;
pub mod dns;
pub mod dnssec;
pub mod doh;
pub mod flight;
pub mod forwarder;
pub mod laws;
pub mod metrics;
pub mod net;
pub mod ratelimit;
pub mod recursive;
pub mod server;
pub mod startup;
pub mod state;
pub mod suffix;
pub mod text;
pub mod time;
pub mod tls;
pub mod zone;
