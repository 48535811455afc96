//! Curve LLAMMA (lending-liquidating AMM) pool math with EVM integer semantics.
pub mod uint;
pub mod constants;
pub mod core_math;
pub mod exp;
pub mod swap;
pub mod swap_order;
pub mod pool;
pub mod immutables;
pub mod builder;
