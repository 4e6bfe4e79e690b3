use vstd::prelude::*;

pub mod client;
pub mod front;
pub mod game;
pub mod handler;
pub mod server;

verus! {

/// Identity of one connected client session, assigned by the host.
pub type UserId = usize;

/// Identity of one chat room.
pub type RoomId = usize;

/// Minimal projection of a session: identity and display label.
#[derive(Debug, Clone, PartialEq)]
pub struct UserBrief {
    pub id: UserId,
    pub name: String,
}

/// Full record of a connected user.
#[derive(Debug, Clone, PartialEq)]
pub struct User {
    pub id: UserId,
    pub name: String,
}

/// Minimal projection of a room: identity and title.
#[derive(Debug, Clone, PartialEq)]
pub struct RoomBrief {
    pub id: RoomId,
    pub title: String,
}

/// Full record of a room: identity, title, owner and member identities.
#[derive(Debug, Clone, PartialEq)]
pub struct Room {
    pub id: RoomId,
    pub title: String,
    pub owner: UserId,
    pub members: Vec<UserId>,
}

/// Informational event surfaced to a client as system text, never an error.
#[derive(Debug, Clone, PartialEq)]
pub enum Alert {
    TargetNotFound,
    Join { user: UserId },
    Quit { user: UserId },
}

} // verus!
