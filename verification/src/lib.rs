//! Triangular-arbitrage engine: market data model, rate graph, opportunity
//! detection plumbing, execution decisions and risk controls.

pub mod book;
mod clock;
pub mod clock_skew;
pub mod currency;
pub mod cycle;
pub mod detect;
pub mod enrich;
pub mod exec;
pub mod feed;
pub mod fill;
pub mod graph;
pub mod hedge;
pub mod journal;
pub mod opportunity;
pub mod price_check;
pub mod risk;
pub mod settings;
pub mod text;
pub mod sim;
pub mod timeout;
pub mod types;
