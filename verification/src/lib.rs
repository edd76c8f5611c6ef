pub mod api;
pub mod commands;
pub mod config;
pub mod doctor;
pub mod error;
pub mod formula;
pub mod install;
pub mod platform;
pub mod relocate;
pub mod search;
pub mod state;
pub mod text;
