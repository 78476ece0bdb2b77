//! The IRC side of the client: the channel data, the grammar of the lines a
//! server sends, and the session logic built on both.

pub mod effect;
pub mod event;
pub mod pattern;
pub mod server;
pub mod types;
