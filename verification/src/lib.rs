//! A blind, cost- and quality-aware router for agentic coding command-line tools.

pub mod text;
pub mod json;
pub mod rewrite;
pub mod double;
pub mod dates;
pub mod config;
pub mod selector;
pub mod backend;
pub mod proxy;
pub mod wire;
pub mod gates;
pub mod tables;
pub mod registers;
pub mod named;
pub mod alias;
pub mod store;
pub mod pool;
pub mod cli;
pub mod session;
pub mod run;
pub mod stats;
pub mod evidence;
pub mod simulate;
