//! Client-side controller for a distributed aerodrome ground-lighting
//! coordination network.
//!
//! The library keeps, per tracked aerodrome, the authoritative local view of
//! the dynamic lighting state: which stopbar nodes are lit, which routing
//! blocks are reserved, and which scenery elements a renderer should display.
//! Operator commands are applied optimistically and reconciled against server
//! patches; each tick yields an upstream patch and a derived scenery diff.

pub mod client;
pub mod codec;
pub mod config;
pub mod dual;
pub mod protocol;
