//! Revault: an encrypted single-file vault with tamper-evident history and
//! peer-to-peer sharing.
//!
//! * [`engine`]: the container format, the block store, the cryptography that
//!   protects it and the vault built on top of them.
//! * [`net`]: invite codes, the encrypted channel, the messages that bring a
//!   peer up to date and the journal behind them.
//! * [`tui`]: the terminal application's state and what keys do to it.
//! * [`cli`]: the commands of a serving session.

pub mod cli;
pub mod engine;
pub mod net;
pub mod tui;
