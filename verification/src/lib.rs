//! Verified arithmetic and bookkeeping for VOLE extension over rings Z/2^k.
pub mod bits128;
pub mod limb;
pub mod uint;
pub mod ring;
pub mod circuit;
pub mod params;
pub mod prc;
pub mod quicksilver;
pub mod random;
pub mod tools;
pub mod vole;
pub mod wire;
