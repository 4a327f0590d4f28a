pub mod hgd;
pub mod ope;
pub mod stats;
pub mod utils;
