pub mod clock;
pub mod keyed;
pub mod laws;
pub mod signal;
pub mod store;
pub mod types;
