//! Canonical wire format for the values of a lattice-based homomorphic
//! encryption scheme: modular scalars, ring polynomials over them,
//! ciphertexts and secret keys.
//!
//! Every value can be written as a block of bytes, or as a block of 16-bit
//! words for word-aligned media, and read back. Writing never fails; reading
//! checks every length before it touches the block and reports a
//! [`DecodeError`] for a block that cannot be a wire image.

pub mod ciphertext;
pub mod error;
pub mod plain;
pub mod radix;
pub mod rqpoly;
pub mod scalar;
pub mod secret_key;
pub mod traits;

pub use ciphertext::FVCiphertext;
pub use error::DecodeError;
pub use rqpoly::{PolyView, RqPoly};
pub use scalar::Scalar;
pub use secret_key::SecretKey;
pub use traits::{FixedWidth, Serializable};
