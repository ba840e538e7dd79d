//! The core components for handling DNS messages: the header, questions and
//! records, and the wire format that carries them.

pub mod encoder;
pub mod error;
pub mod header;
pub mod packet;
pub mod question;
pub mod record;
pub mod resolver;
pub mod round_trip;
