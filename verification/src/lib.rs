//! Alea: a seedable multiply-with-carry generator over three 32-bit
//! fractional words, together with the string hash that seeds it.
//!
//! Every quantity of the algorithm is a dyadic rational, so the whole
//! computation is carried out exactly on scaled integers; values that leave
//! the library as double-precision numbers do so as IEEE-754 binary64 bit
//! patterns.

pub mod agreement;
pub mod alea;
pub mod alea_fast;
pub mod double;
pub mod int32;
pub mod mash;
pub mod mash_fast;
pub mod rounding;
pub mod utf16;

pub use alea::Alea;
pub use alea_fast::AleaFast;
pub use mash::Mash;
pub use mash_fast::MashFast;
