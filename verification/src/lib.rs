//! The core of tufops.

pub mod ci;
pub mod cli;
pub mod cloud;
pub mod config;
pub mod documents;
pub mod error;
pub mod git;
pub mod keys;
pub mod laws;
pub mod metadata;
pub mod order;
pub mod publish;
pub mod repo;
pub mod status;
pub mod strmap;
pub mod text;
pub mod time;
pub mod update;
