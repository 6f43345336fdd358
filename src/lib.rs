//! Ascon-AEAD128 authenticated encryption and Ascon-Hash256 hashing, built on
//! the 320-bit Ascon permutation.
pub mod aead128;
pub mod hash256;
pub mod hex;
pub mod round;
pub mod utils;
