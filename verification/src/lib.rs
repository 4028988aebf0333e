//! Network-contact analysis of BGP routing tables.

pub mod backtest;
pub mod clean;
pub mod daily;
pub mod detect;
pub mod diff;
pub mod eval;
pub mod events;
pub mod features;
pub mod glue;
pub mod ingest;
pub mod order;
pub mod orgs;
pub mod peeringdb;
pub mod prefix;
pub mod rib;
pub mod rpki;
pub mod signal;
pub mod snapshot;
pub mod store;
pub mod suffixes;
pub mod sync;
pub mod text;
pub mod textmap;
pub mod time;
