//! Arithmetic in the binary fields GF(2^4), GF(2^8), GF(2^16) and GF(2^32).
//!
//! A field is a value of a type that implements [`GaloisField`]: one of the
//! plain fields [`F4`], [`F8`], [`F16`], [`F32`] with a polynomial of the
//! caller's choice, or one of the fields of [`good`], which answer from tables.
//! What each operation returns is stated over the polynomial arithmetic of
//! [`poly`] and [`gf`].

pub mod bitwise;
pub mod euclid;
pub mod field;
pub mod gf;
pub mod good;
pub mod machine;
pub mod mull;
pub mod poly;
pub mod tables;

pub use crate::field::{
    new_gf16, new_gf32, new_gf4, new_gf8, ElementStore, GaloisField, F16, F32, F4, F8,
};
