//! Canonical binary codec for transition inputs: a tagged union of five
//! variants, one of which carries a nested, separately tagged origin.
//!
//! Each decoder is specified by a parser over byte sequences (`parse_input`,
//! `parse_origin`, ...) and each encoder by an encoding function
//! (`encode_input`, `encode_origin`, ...); the proof functions in `input`
//! relate the two.
use vstd::prelude::*;

pub mod input;
pub mod origin;
pub mod primitives;

pub use input::{Input, InputModel};
pub use origin::{Origin, OriginModel};
pub use primitives::{Ciphertext, DecodeError, Field, Plaintext};

verus! {

} // verus!
