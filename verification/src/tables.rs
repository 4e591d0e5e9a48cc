//! The tables that the wider fields share.

pub use crate::mull;
