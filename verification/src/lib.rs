pub mod cache;
pub mod laws;
pub mod instruction;
pub mod controller;
pub mod coherence;
pub mod request_laws;
