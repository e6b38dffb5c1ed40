//! Verified core of a bridge that turns ActivityWatch window events into
//! Kimai timesheet entries.

pub mod text;
pub mod aw_client;
pub mod afk;
pub mod config;
pub mod classifier;
pub mod merger;
pub mod kimai_client;
pub mod state;
pub mod sync;
pub mod admin;
pub mod service;
