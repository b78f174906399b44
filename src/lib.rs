//! AES-128 in two chaining modes: CBC with PKCS#7 padding, and CTR.
//!
//! The single-block cipher comes from the `aes` crate; the chaining,
//! padding and counter logic lives here, stated and proved against
//! mathematical models of each mode.

pub mod block;
pub mod cbc;
pub mod ctr;

pub use cbc::{Aes128CBC, CbcError};
pub use ctr::Aes128CTR;

pub use block::BLOCK_SIZE;


