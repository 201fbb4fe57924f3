//! The parts of the screen and what keys do in them.

pub mod footer;
pub mod network_tab;
pub mod peering;
pub mod settings;
pub mod vaults;
