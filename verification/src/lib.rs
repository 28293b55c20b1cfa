//! A headless client for a block game's network protocol: the wire codec,
//! the packet catalogs, the framing of a session, and the decisions of a bot
//! that fights, eats and stays awake on its player's behalf.
//!
//! The library moves no bytes and keeps no time. It turns packets into the
//! bytes to send and received bytes into packets, and it says, for each tick
//! and each packet, what the bot does; whoever runs the bot owns the
//! connection and the clock.
pub mod asyncio;
pub mod bot;
pub mod client;
pub mod datatypes;
pub mod endian;
pub mod ieee;
pub mod packets;
pub mod report;
