//! Placeholder for a network session: an inert singleton resource with
//! its construction limits and a connected flag, and the message kinds a
//! session will exchange. Nothing is wired to a transport in this core.

use vstd::prelude::*;

use crate::ecs::ComponentType;

verus! {

/// Construction parameters of the networking singleton.
pub struct NetworkingCreationInfo {
    pub max_players: u16,
    pub max_synced_objects: u32,
    pub packet_per_frame_limit: u32,
}

impl Default for NetworkingCreationInfo {
    /// Defaults: 32 players, 1024 synced objects, 64 packets per frame.
    fn default() -> (r: Self)
        ensures
            r.max_players == 32,
            r.max_synced_objects == 1024,
            r.packet_per_frame_limit == 64,
    {
        NetworkingCreationInfo { max_players: 32, max_synced_objects: 1024, packet_per_frame_limit: 64 }
    }
}

/// The network-session singleton: limits copied from its creation info
/// and a connected flag, not yet wired to any transport.
pub struct Networking {
    pub max_players: u16,
    pub max_synced_objects: u32,
    pub packet_per_frame_limit: u32,
    pub connected: bool,
}

impl Networking {
    /// The resource-kind token the networking singleton registers under.
    pub fn get_component_type() -> (r: ComponentType)
        ensures
            r == 1,
    {
        1
    }

    pub fn new(info: NetworkingCreationInfo) -> (r: Networking)
        ensures
            r.max_players == info.max_players,
            r.max_synced_objects == info.max_synced_objects,
            r.packet_per_frame_limit == info.packet_per_frame_limit,
            !r.connected,
    {
        Networking {
            max_players: info.max_players,
            max_synced_objects: info.max_synced_objects,
            packet_per_frame_limit: info.packet_per_frame_limit,
            connected: false,
        }
    }

    /// Per-tick step of the placeholder session: nothing is wired, so
    /// the state is left exactly as it is.
    pub fn update(&mut self)
        ensures
            *final(self) == *old(self),
    {
    }
}

/// Kinds of messages the placeholder session will exchange.
#[derive(Clone, Copy, Debug, PartialEq, Eq, Structural)]
pub enum EventType {
    EntityCreate,
    EntityDelete,
    EntityUpdate,
    PlayerJoin,
    PlayerLeave,
    Event,
}

} // verus!
