//! Threshold secret sharing with verifiable shares: Shamir's scheme, Feldman's
//! commitments and Pedersen's blinded commitments, over any prime field and any
//! prime-order group that a backend supplies.

pub mod backend;
pub mod error;
pub mod feldman;
pub mod interpolation;
pub mod modular;
pub mod pedersen;
pub mod polynomial;
pub mod shamir;
pub mod share;
pub mod stream;
pub mod text;
pub mod theorems;
pub mod varint;
pub mod wire;

pub use crate::backend::{Element, FieldElement, GroupElement};
pub use crate::error::Error;
pub use crate::feldman::{Feldman, FeldmanVerifier, FeldmanVerifierText};
pub use crate::pedersen::{
    Pedersen, PedersenResult, PedersenResultText, PedersenVerifier, PedersenVerifierText,
};
pub use crate::polynomial::Polynomial;
pub use crate::shamir::Shamir;
pub use crate::share::Share;
