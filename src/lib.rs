//! Dense packing of base-4 digits (0 to 3), two bits apiece: `Base4` packs
//! up to 64 digits into one 128-bit register, and `Base4Int` chains such
//! blocks into a sequence of any length.

pub mod chain;
pub mod codec;
pub mod digit;
pub mod laws;

pub use chain::Base4Int;
pub use codec::Base4;
pub use digit::Digit;
