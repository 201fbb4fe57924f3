//! The terminal application: its state, what each key does to it, and what the
//! caller is asked to do outside.

pub mod app;
pub mod event;
pub mod key;
pub mod log;
pub mod network_bridge;
pub mod paths;
pub mod settings;
pub mod tab;
pub mod widgets;
