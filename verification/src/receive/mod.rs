//! The receive side: the idempotent, order-independent reassembly engine.

pub mod decoder;
pub mod laws;
pub mod model;

pub use decoder::Decoder;
pub use decoder::Finished;
pub use decoder::Progress;
