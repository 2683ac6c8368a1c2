//! Verified core of a small object storage service: key validation and
//! key-to-path mapping, object listing with prefix, cursor and limit, the
//! error bodies the service answers with, authorization, and the request
//! decisions of the server and its command-line client.

pub mod text;
pub mod error;
pub mod key;
pub mod list;
pub mod state;
pub mod auth;
pub mod object;
pub mod health;
pub mod copy_move;
pub mod config;
pub mod cli;
