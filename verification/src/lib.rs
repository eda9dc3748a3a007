pub mod codec;
pub mod laws;
pub mod errors;
pub mod types;
