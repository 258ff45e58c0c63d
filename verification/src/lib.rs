//! Bit-level and numeric utilities: Hamming distances, bitwise mixing
//! functions, primality, integer square roots, half-precision bit packing,
//! Base64/Base85 encodings, SHA-512, arbitrary-precision hexadecimal integers
//! and a line-based diff/patch store.
#![allow(non_camel_case_types)]

pub mod hamming;
pub mod text;
pub mod limbs;
pub mod bignum;
pub mod hex;
pub mod bignum_text;
pub mod decimal;
pub mod patch;
pub mod scm;
pub mod sha512;
pub mod base64;
pub mod base85;
pub mod armor;
pub mod primes;
pub mod bitops;
pub mod half;
pub mod lines;
pub mod words;
