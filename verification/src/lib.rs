//! Verified core of a tray application that starts, stops and restarts
//! development servers described in a TOML configuration file.
mod text;

pub mod autostart;
pub mod config;
pub mod launch;
pub mod menu;
pub mod ports;
pub mod process;
pub mod tasklist;
