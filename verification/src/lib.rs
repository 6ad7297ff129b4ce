//! A configuration-driven reverse proxy core: the configuration language,
//! the validated listener model and the routing decisions, with their
//! contracts proved.

pub mod address;
pub mod config;
pub mod directive;
pub mod error;
pub mod laws;
pub mod layout;
pub mod listener;
pub mod parser;
pub mod paths;
pub mod number;
pub mod pem;
pub mod server;
pub mod ssl;
pub mod text;
