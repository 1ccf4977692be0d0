//! Chaum-Pedersen zero-knowledge authentication.
//!
//! The library proves knowledge of a discrete logarithm that is shared by two
//! commitments under different generators, and drives the verifier-side state
//! machine that registers users, issues challenges and checks answers.
//!
//! Arbitrary-precision arithmetic is delegated to an outside bignum crate
//! through the trusted wrappers in `bignum`, each specified by the number
//! it computes; everything built on them — the proof engine in `zkp`, its
//! laws in `arith`, and the state machine in `server` — is verified.

pub mod arith;
pub mod bignum;
pub mod server;
pub mod zkp;

pub use bignum::bigval;
pub use server::{AuthError, AuthImpl, UserInfo};
pub use zkp::ZKP;
