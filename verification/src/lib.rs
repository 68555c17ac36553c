//! Core of a real-time multiplayer storytelling card game server.
//!
//! The library holds the authoritative room state machine: membership,
//! moderation, the round protocol (choosing, voting, scoring), deck and
//! discard tracking, reconnection under name tokens, and the registry
//! helpers.  All state transitions are synchronous functions over plain
//! data; the surrounding process (sockets, timers, the HTTP surface)
//! feeds them events and delivers the outbound messages they return.

pub mod cards;
pub mod config;
pub mod engine;
pub mod handlers;
pub mod laws;
pub mod membership;
pub mod msgs;
pub mod names;
pub mod registry;
pub mod room;
pub mod rounds;
pub mod session;
pub mod sys;
pub mod tbl;
pub mod text;
pub mod view;
