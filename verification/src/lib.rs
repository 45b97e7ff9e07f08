//! Route planning support for EVE Frontier star maps.

pub mod bits;
pub mod error;
pub mod fmap;

pub use error::Error;
pub mod search;
pub mod weighted;
pub mod routing;
pub mod text;
pub mod digest;
pub mod spatial;
pub mod github;
pub mod dataset;
pub mod output;
pub mod ship;
pub mod schema;
pub mod gates;
