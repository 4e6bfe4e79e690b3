use vstd::prelude::*;
use crate::{RoomBrief, RoomId, UserId};

verus! {

/// Client-to-authority vocabulary: every request a connected client can issue.
#[derive(Debug, Clone, PartialEq)]
pub enum Message {
    Chat { text: String, to: Option<UserId> },
    CreateRoom { room: RoomBrief },
    GetRoomDetail { room: RoomId },
    JoinRoom { room: RoomId },
    QuitRoom,
}

} // verus!
