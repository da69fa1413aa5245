pub mod engine;
pub mod orderbook;
