pub mod cli;
pub mod config;
pub mod error;
