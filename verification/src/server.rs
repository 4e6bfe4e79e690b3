use vstd::prelude::*;
use crate::{Alert, Room, RoomBrief, RoomId, UserBrief, UserId};

verus! {

/// Authority-to-connection vocabulary: every notification the host can push
/// toward a client.
#[derive(Debug, Clone, PartialEq)]
pub enum Message {
    Connected { user: UserBrief },
    Welcome { id: UserId, users: Vec<UserBrief>, rooms: Vec<RoomBrief> },
    Disconnected { id: UserId },
    Alert(Alert),
    Chat { from: UserId, text: String, whisper: bool },
    NewRoom { room: RoomBrief },
    DestroyRoom { room: RoomId },
    RoomDetail { room: Room },
    ReadyJoin { room: Room },
    RoomUpdate { room: Room },
}

} // verus!
