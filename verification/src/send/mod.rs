//! The send side: turning a named byte payload into the ordered message
//! sequence a display loop can render, one frame per message.

pub mod encoder;
pub mod qr;
