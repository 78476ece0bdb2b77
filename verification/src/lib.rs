//! The protocol core of a small IRC client: the channel store, the framing of
//! a received payload into lines, the classification of each line and the
//! change it makes to the store, and the lines the client sends.
//!
//! Nothing here touches a socket or a screen. A caller reads bytes, hands
//! them to [`irc::server::handler`], and writes back whatever replies it is
//! given; it draws from the [`state::State`] it owns.
//!
//! - [`state`]: the channel store, selection, lookups.
//! - [`irc::types`]: channels and messages.
//! - [`irc::pattern`]: the matching of a line against a row of anchors.
//! - [`irc::event`]: what a line says.
//! - [`irc::effect`]: what an event does to the store.
//! - [`irc::server`]: the handling of received bytes, and the lines to send.
//! - [`text`]: searching, replacing and splitting of character sequences.
//! - [`config`]: the settings, and the reading of the answers of the set-up.
//! - [`control`]: what the keys ask for and what the battery reading means.
//! - [`gfx`]: text as it is laid out, and the place of a pixel in the
//!   framebuffer.

pub mod config;
pub mod control;
pub mod gfx;
pub mod irc;
pub mod state;
pub mod text;
