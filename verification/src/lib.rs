//! Verified core of a crypto-portfolio history service: the time windows that
//! still have to be fetched, how they are cut into request-sized pieces, the
//! signed exchange queries, the price-history records and the retrieval plan.

pub mod timespan;
pub mod plan;
pub mod text;
pub mod datetime;
pub mod signing;
pub mod model;
pub mod requests;
pub mod assets;
