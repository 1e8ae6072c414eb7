//! The two scan strategies: the syscall-fed local walker and the
//! policy-offload scanner.

pub mod spectrum_scale;
pub mod universal;
