//! Events exchanged with the network layer.  The core only produces and
//! consumes the plain-data variants; payloads that carry simulation-rate
//! physics live outside the core and are converted at its edge.

use vstd::prelude::*;

verus! {

use crate::tile::Tile;

/// One already-deserialized network event.
#[derive(Debug, Clone)]
pub enum NetEvent {
    // Connection lifecycle.
    Connect,
    /// World width and height in chunks, and the player id granted.
    Accept(u16, u16, u64),
    Ping,
    Disconnect,
    Close,
    // To the server.
    RequestChunk(u16, u16),
    BreakForeground(u16, u16),
    BreakBackground(u16, u16),
    // To the client.
    UpdateForegroundTile(u16, u16, Tile),
    UpdateBackgroundTile(u16, u16, Tile),
    UpdateForegroundChunk(u16, u16, Vec<Tile>),
    UpdateBackgroundChunk(u16, u16, Vec<Tile>),
    // Chat.
    ChatMessage(String),
}

} // verus!
