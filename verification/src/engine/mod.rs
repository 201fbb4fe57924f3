//! The storage engine: container format, block allocation, cryptography and
//! the vault itself.

pub mod allocator;
pub mod bytes;
pub mod codec;
pub mod crypto;
pub mod error;
pub mod format;
pub mod founding;
pub mod health;
pub mod identity;
pub mod image;
pub mod laws;
pub mod locality;
pub mod model;
pub mod preview;
pub mod readback;
pub mod readings;
pub mod records;
pub mod replay;
pub mod rotation;
pub mod session;
pub mod sharing;
pub mod text;
pub mod vault;
