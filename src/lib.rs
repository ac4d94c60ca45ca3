//! An IntCode virtual machine with a cooperative amplifier network, together
//! with the small puzzle routines that sit around it.
//!
//! Every executable function states its behaviour over the spec functions of
//! its module, and the proofs are checked by Verus.
pub mod decode;
pub mod machine;
pub mod network;
pub mod search;
pub mod laws;
pub mod program;
pub mod text;
pub mod fuel;
pub mod password;
pub mod image;
pub mod orbits;
pub mod wires;
