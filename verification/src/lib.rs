//! Link-quality auditing: the measurement arithmetic, text formats and
//! selection rules of a network speed test, with their contracts.

pub mod text;
pub mod ping;
pub mod server;
pub mod speedtest;
pub mod escape;
pub mod audit;
pub mod cli;
