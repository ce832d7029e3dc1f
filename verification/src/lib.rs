pub mod auth;
pub mod config;
pub mod crypto;
pub mod error;
pub mod ntlm;
pub mod proxy;
pub mod server;
pub mod service;
pub mod text;
