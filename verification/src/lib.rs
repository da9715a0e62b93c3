//! Order book aggregation library: venue order books, their merge into one
//! top-of-book summary, the per-venue wire-message rules, and the reconnect
//! and configuration rules around them.

pub mod aggregator;
pub mod config;
pub mod exchange;
pub mod feed;
pub mod histogram;
pub mod merge;
pub mod merge_laws;
pub mod model;
pub mod proxy;
pub mod render;
pub mod text;

use vstd::prelude::*;

verus! {

} // verus!
