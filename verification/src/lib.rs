pub mod constants;
pub mod frac;
pub mod order;
pub mod player;
pub mod prcalc;
pub mod scoring;
