//! Verified cores of classic line-oriented text utilities.
//!
//! The library models its inputs as byte sequences and states every
//! transformation over mathematical views (`Seq<u8>`, `Seq<char>`), so that
//! each public function carries a proved contract.  Reading files, standard
//! input and command-line flags are left to the surrounding binary.
#![verifier::loop_isolation(false)]

pub mod cat;
pub mod collapse;
pub mod echo;
pub mod find;
pub mod head;
pub mod lines;
pub mod tally;
pub mod text;
