//! A confidentiality layer for structured program data: application data is
//! encoded as prime-field elements, optionally masked with a Poseidon-derived
//! one-time pad under an elliptic-curve Diffie-Hellman shared secret, and
//! content-addressed with a Poseidon digest.

pub mod bits;
pub mod bytes;
pub mod codec;
pub mod data;
pub mod field;
pub mod group;
pub mod poseidon;
