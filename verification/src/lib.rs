//! Verified core of a terminal coding agent: conversation state, streaming
//! response decoding, tool planning, long-term memory and session bookkeeping.

pub mod text;
pub mod tools;
pub mod ui;
pub mod agent;
pub mod api;
pub mod app;
pub mod config;
pub mod logger;
pub mod memory;
pub mod session;
pub mod summary;
