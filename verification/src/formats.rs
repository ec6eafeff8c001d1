//! The formats of particular platforms.

pub mod agb;
