//! A sandboxed file and shell service: the rules behind its tools, its
//! consent flow and its persistent state.
pub mod auth;
pub mod clock;
pub mod config;
pub mod exec_ops;
pub mod fs_ops;
pub mod ids;
pub mod json;
pub mod oauth;
pub mod path;
pub mod pkce;
pub mod root;
pub mod secret;
pub mod server;
pub mod store;
pub mod table;
pub mod text;
