//! Currency-aware money values with exact decimal amounts.
pub mod text;
pub mod decimal;
pub mod errors;
pub mod catalog;
pub mod binary;
pub mod model;
pub mod comparison;
pub mod arithmetic;
pub mod minor;
pub mod aggregate;
pub mod exchange;
pub mod formatting;
pub mod currency;
pub mod api;
pub mod fuzz_api;
