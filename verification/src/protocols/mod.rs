//! Protocol-specific consuming hooks.

pub mod hooks;
