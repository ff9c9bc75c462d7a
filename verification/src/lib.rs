//! The logic of two small daemons around the `vmstat` tool and a Valkey server.
//!
//! The recorder reads one row of `vmstat` per second and keeps the last sixty of them in a list on
//! the server. The scorer reads that list back, rates how free the host is and publishes the
//! rating. This crate holds what both of them decide and compute; processes, sockets, clocks and
//! floating point belong to the programs that call it.
pub mod client;
pub mod cycle;
pub mod double;
pub mod encoding;
pub mod host;
pub mod json;
pub mod resp;
pub mod rolling;
pub mod score;
pub mod store;
pub mod text;
pub mod tuning;
pub mod vmstat;
pub mod window;
