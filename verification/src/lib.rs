//! Permission-gated administrative command subsystem for a chat bot.
//!
//! The crate owns the persistent store of "which roles may run admin
//! commands, per server", the authorization decision that gates the admin
//! commands, and the pure command logic behind `admin list|add|remove` and
//! `nuke`. Everything that touches the chat platform or the disk (sending
//! replies, fetching members and messages, reading and writing the
//! persistence file) lives outside, and hands this crate plain values.

pub mod auth;
pub mod codec;
pub mod command;
pub mod guard;
pub mod numtext;
pub mod registry;
