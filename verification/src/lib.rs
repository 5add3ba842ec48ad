//! Verified integer core of the MoonTFHE native providers: Torus32
//! arithmetic, negacyclic rotation, signed gadget decomposition, key
//! switching, the blind-rotation control flow of the programmable
//! bootstrapping context, Fourier-layout bookkeeping and the AES-256-GCM
//! provider.
use vstd::prelude::*;

pub mod clock;
pub mod torus;
pub mod negacyclic;
pub mod keyswitch;
pub mod glwe;
pub mod pbs;
pub mod fourier_layout;
pub mod aead;
pub mod allocation_counter;

verus! {

} // verus!
