//! The protocol, editing and bookkeeping logic of an MCP server for Overleaf.
pub mod args;
pub mod client;
pub mod compile;
pub mod config;
pub mod connection;
pub mod edits;
pub mod error;
pub mod folders;
pub mod frame;
pub mod history;
pub mod json;
pub mod log;
pub mod matcher;
pub mod number;
pub mod order;
pub mod ot;
pub mod pieces;
pub mod project;
pub mod render;
pub mod search;
pub mod session;
pub mod shadow;
pub mod stamps;
pub mod table;
pub mod text;
pub mod tools;
pub mod tree;
pub mod units;
pub mod workspace;
