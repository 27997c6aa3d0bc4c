//! Verified core of the GitCode Jupyter tool: the rules, parsers and state
//! machines behind the daemon and its command-line clients.
pub mod api;
pub mod browser;
pub mod cli;
pub mod client;
pub mod config;
pub mod cookies;
pub mod foreign;
pub mod http;
pub mod jobs;
pub mod notebook;
pub mod session;
pub mod shell;
pub mod terminal;
pub mod text;
pub mod transfer;
