//! Verified core of a Discord community bot.
//!
//! The bot reposts messages that link to twitter.com with the link pointed at
//! a mirror whose embeds Discord renders, keeps an alphabetical off-topic
//! category, answers the "Leet" message command with the message's creation
//! time, and mirrors the presence of a TeamSpeak server into a Discord
//! channel. This crate holds the decisions and text formats behind those
//! features; the gateway, HTTP and TeamSpeak connections live in the
//! application around it.

pub mod decimal;
pub mod events;
pub mod leet;
pub mod offtopic;
pub mod owners;
pub mod pattern;
pub mod query;
pub mod teamspeak;
pub mod text;
pub mod twitter;
