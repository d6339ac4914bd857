//! Route and stop directories with live arrival resolution for a bus
//! operator's open-data feed.

pub mod direction;
pub mod error;
pub mod eta;
pub mod feed;
pub mod join;
pub mod keys;
pub mod query;
pub mod routes;
pub mod sequence;
pub mod stops;
pub mod text;
