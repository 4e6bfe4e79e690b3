use vstd::prelude::*;
use crate::{Alert, Room, RoomBrief, RoomId, UserBrief, UserId};

verus! {

/// Items of the lobby menu.
pub enum MenuItem {
    CreateRoom,
}

/// What the create-room dialog reports back.
pub enum MenuEvent {
    Cancel,
    CreateRoom(RoomBrief),
}

/// What the room view reports back.
pub enum RoomEvent {
    Quit,
    Join(RoomId),
}

/// One line of the chat transcript: an informational alert, a plain chat
/// line, or a whisper.
#[derive(Debug, Clone, PartialEq)]
pub enum Chat {
    Alert(Alert),
    Chat(String, UserId),
    Whisper(String, UserId),
}

/// Some listed user carries identity `id`.
pub open spec fn has_user(us: Seq<UserBrief>, id: UserId) -> bool {
    exists|i: int| 0 <= i < us.len() && (#[trigger] us[i]).id == id
}

/// Index of the listed user with identity `id`; meaningful under
/// `user_ids_unique`.
pub open spec fn user_pos(us: Seq<UserBrief>, id: UserId) -> int {
    choose|i: int| 0 <= i < us.len() && (#[trigger] us[i]).id == id
}

/// No two listed users share an identity.
pub open spec fn user_ids_unique(us: Seq<UserBrief>) -> bool {
    forall|i: int, j: int|
        0 <= i < j < us.len() ==> (#[trigger] us[i]).id != (#[trigger] us[j]).id
}

/// Some listed room carries identity `id`.
pub open spec fn has_brief(rs: Seq<RoomBrief>, id: RoomId) -> bool {
    exists|i: int| 0 <= i < rs.len() && (#[trigger] rs[i]).id == id
}

/// Index of the listed room with identity `id`; meaningful under
/// `brief_ids_unique`.
pub open spec fn brief_pos(rs: Seq<RoomBrief>, id: RoomId) -> int {
    choose|i: int| 0 <= i < rs.len() && (#[trigger] rs[i]).id == id
}

/// No two listed rooms share an identity.
pub open spec fn brief_ids_unique(rs: Seq<RoomBrief>) -> bool {
    forall|i: int, j: int|
        0 <= i < j < rs.len() ==> (#[trigger] rs[i]).id != (#[trigger] rs[j]).id
}

/// The user list after an entry arrives: it replaces the entry with the same
/// identity, or is appended when the identity is new.
pub open spec fn upserted_user(us: Seq<UserBrief>, b: UserBrief) -> Seq<UserBrief> {
    if has_user(us, b.id) {
        us.update(user_pos(us, b.id), b)
    } else {
        us.push(b)
    }
}

/// The user list after an identity goes away; unchanged when it was not
/// listed.
pub open spec fn removed_user(us: Seq<UserBrief>, id: UserId) -> Seq<UserBrief> {
    if has_user(us, id) {
        us.remove(user_pos(us, id))
    } else {
        us
    }
}

/// The room list after a brief arrives, by the same upsert rule.
pub open spec fn upserted_brief(rs: Seq<RoomBrief>, b: RoomBrief) -> Seq<RoomBrief> {
    if has_brief(rs, b.id) {
        rs.update(brief_pos(rs, b.id), b)
    } else {
        rs.push(b)
    }
}

/// The room list after a room goes away; unchanged when it was not listed.
pub open spec fn removed_brief(rs: Seq<RoomBrief>, id: RoomId) -> Seq<RoomBrief> {
    if has_brief(rs, id) {
        rs.remove(brief_pos(rs, id))
    } else {
        rs
    }
}

/// A user list folded in, entry by entry, first to last.
pub open spec fn upserted_users(us: Seq<UserBrief>, add: Seq<UserBrief>) -> Seq<UserBrief>
    decreases add.len(),
{
    if add.len() == 0 {
        us
    } else {
        upserted_user(upserted_users(us, add.drop_last()), add.last())
    }
}

/// A room list folded in, entry by entry, first to last.
pub open spec fn upserted_briefs(rs: Seq<RoomBrief>, add: Seq<RoomBrief>) -> Seq<RoomBrief>
    decreases add.len(),
{
    if add.len() == 0 {
        rs
    } else {
        upserted_brief(upserted_briefs(rs, add.drop_last()), add.last())
    }
}

/// The client-side mirror of the authority state, driven purely by the
/// authority-to-connection messages.
pub struct Client {
    pub id: UserId,
    pub room: Option<Room>,
    pub users: Vec<UserBrief>,
    pub rooms: Vec<RoomBrief>,
    pub chats: Vec<Chat>,
}

impl Client {
    /// The mirror lists identities without duplicates.
    pub open spec fn wf(&self) -> bool {
        &&& user_ids_unique(self.users@)
        &&& brief_ids_unique(self.rooms@)
    }
}

/// What the chat input box does on submit: a blank line is swallowed, any
/// other line is sent exactly as typed.
pub fn chat_submission(input: &String) -> (r: Option<String>)
    ensures
        match r {
            Some(t) => t@ == input@ && crate::game::trimmed(input@).len() != 0,
            None => crate::game::trimmed(input@).len() == 0,
        },
{
    let t = crate::game::trim_str(input);
    if t.as_str().is_empty() {
        None
    } else {
        Some(input.clone())
    }
}

fn find_user(us: &Vec<UserBrief>, id: UserId) -> (r: Option<usize>)
    ensures
        match r {
            Some(i) => i < us@.len() && us@[i as int].id == id,
            None => !has_user(us@, id),
        },
{
    let mut i: usize = 0;
    while i < us.len()
        invariant
            i <= us@.len(),
            forall|j: int| 0 <= j < i ==> (#[trigger] us@[j]).id != id,
        decreases us@.len() - i,
    {
        if us[i].id == id {
            return Some(i);
        }
        i += 1;
    }
    None
}

fn find_brief(rs: &Vec<RoomBrief>, id: RoomId) -> (r: Option<usize>)
    ensures
        match r {
            Some(i) => i < rs@.len() && rs@[i as int].id == id,
            None => !has_brief(rs@, id),
        },
{
    let mut i: usize = 0;
    while i < rs.len()
        invariant
            i <= rs@.len(),
            forall|j: int| 0 <= j < i ==> (#[trigger] rs@[j]).id != id,
        decreases rs@.len() - i,
    {
        if rs[i].id == id {
            return Some(i);
        }
        i += 1;
    }
    None
}

fn upsert_user(us: &mut Vec<UserBrief>, b: UserBrief)
    requires
        user_ids_unique(old(us)@),
    ensures
        final(us)@ == upserted_user(old(us)@, b),
        user_ids_unique(final(us)@),
{
    match find_user(us, b.id) {
        Some(i) => {
            proof {
                let p = user_pos(us@, b.id);
                assert(0 <= p < us@.len() && us@[p].id == b.id);
                if p < i as int {
                    assert(us@[p].id != us@[i as int].id);
                } else if p > i as int {
                    assert(us@[i as int].id != us@[p].id);
                }
            }
            us[i] = b;
        },
        None => {
            us.push(b);
            proof {
                assert forall|x: int, y: int| 0 <= x < y < us@.len() implies (
                #[trigger] us@[x]).id != (#[trigger] us@[y]).id by {
                    if y == us@.len() - 1 {
                        assert(has_user(old(us)@, us@[x].id));
                    }
                }
            }
        },
    }
}

fn remove_user(us: &mut Vec<UserBrief>, id: UserId)
    requires
        user_ids_unique(old(us)@),
    ensures
        final(us)@ == removed_user(old(us)@, id),
        user_ids_unique(final(us)@),
{
    match find_user(us, id) {
        Some(i) => {
            proof {
                let p = user_pos(us@, id);
                assert(0 <= p < us@.len() && us@[p].id == id);
                if p < i as int {
                    assert(us@[p].id != us@[i as int].id);
                } else if p > i as int {
                    assert(us@[i as int].id != us@[p].id);
                }
            }
            us.remove(i);
            proof {
                assert forall|x: int, y: int| 0 <= x < y < us@.len() implies (
                #[trigger] us@[x]).id != (#[trigger] us@[y]).id by {
                    let x2 = if x < i as int { x } else { x + 1 };
                    let y2 = if y < i as int { y } else { y + 1 };
                    assert(us@[x] == old(us)@[x2] && us@[y] == old(us)@[y2]);
                }
            }
        },
        None => {},
    }
}

fn upsert_brief(rs: &mut Vec<RoomBrief>, b: RoomBrief)
    requires
        brief_ids_unique(old(rs)@),
    ensures
        final(rs)@ == upserted_brief(old(rs)@, b),
        brief_ids_unique(final(rs)@),
{
    match find_brief(rs, b.id) {
        Some(i) => {
            proof {
                let p = brief_pos(rs@, b.id);
                assert(0 <= p < rs@.len() && rs@[p].id == b.id);
                if p < i as int {
                    assert(rs@[p].id != rs@[i as int].id);
                } else if p > i as int {
                    assert(rs@[i as int].id != rs@[p].id);
                }
            }
            rs[i] = b;
        },
        None => {
            rs.push(b);
            proof {
                assert forall|x: int, y: int| 0 <= x < y < rs@.len() implies (
                #[trigger] rs@[x]).id != (#[trigger] rs@[y]).id by {
                    if y == rs@.len() - 1 {
                        assert(has_brief(old(rs)@, rs@[x].id));
                    }
                }
            }
        },
    }
}

fn remove_brief(rs: &mut Vec<RoomBrief>, id: RoomId)
    requires
        brief_ids_unique(old(rs)@),
    ensures
        final(rs)@ == removed_brief(old(rs)@, id),
        brief_ids_unique(final(rs)@),
{
    match find_brief(rs, id) {
        Some(i) => {
            proof {
                let p = brief_pos(rs@, id);
                assert(0 <= p < rs@.len() && rs@[p].id == id);
                if p < i as int {
                    assert(rs@[p].id != rs@[i as int].id);
                } else if p > i as int {
                    assert(rs@[i as int].id != rs@[p].id);
                }
            }
            rs.remove(i);
            proof {
                assert forall|x: int, y: int| 0 <= x < y < rs@.len() implies (
                #[trigger] rs@[x]).id != (#[trigger] rs@[y]).id by {
                    let x2 = if x < i as int { x } else { x + 1 };
                    let y2 = if y < i as int { y } else { y + 1 };
                    assert(rs@[x] == old(rs)@[x2] && rs@[y] == old(rs)@[y2]);
                }
            }
        },
        None => {},
    }
}

impl Client {
    /// The mirror a welcome message establishes: the assigned identity, the
    /// announced user and room lists folded in entry by entry, no current
    /// room and an empty transcript.
    pub fn from_welcome(id: UserId, users: Vec<UserBrief>, rooms: Vec<RoomBrief>) -> (c: Client)
        ensures
            c.wf(),
            c.id == id,
            c.room is None,
            c.chats@.len() == 0,
            c.users@ == upserted_users(Seq::<UserBrief>::empty(), users@),
            c.rooms@ == upserted_briefs(Seq::<RoomBrief>::empty(), rooms@),
    {
        let mut us: Vec<UserBrief> = Vec::new();
        let mut i: usize = 0;
        while i < users.len()
            invariant
                i <= users@.len(),
                user_ids_unique(us@),
                us@ == upserted_users(Seq::<UserBrief>::empty(), users@.take(i as int)),
            decreases users@.len() - i,
        {
            let b = UserBrief { id: users[i].id, name: users[i].name.clone() };
            upsert_user(&mut us, b);
            i += 1;
            proof {
                assert(users@.take(i as int).drop_last() =~= users@.take(i as int - 1));
                assert(users@.take(i as int).last() == users@[i as int - 1]);
            }
        }
        proof {
            assert(users@.take(users@.len() as int) =~= users@);
        }
        let mut rs: Vec<RoomBrief> = Vec::new();
        let mut j: usize = 0;
        while j < rooms.len()
            invariant
                j <= rooms@.len(),
                brief_ids_unique(rs@),
                rs@ == upserted_briefs(Seq::<RoomBrief>::empty(), rooms@.take(j as int)),
            decreases rooms@.len() - j,
        {
            let b = RoomBrief { id: rooms[j].id, title: rooms[j].title.clone() };
            upsert_brief(&mut rs, b);
            j += 1;
            proof {
                assert(rooms@.take(j as int).drop_last() =~= rooms@.take(j as int - 1));
                assert(rooms@.take(j as int).last() == rooms@[j as int - 1]);
            }
        }
        proof {
            assert(rooms@.take(rooms@.len() as int) =~= rooms@);
        }
        Client { id, room: None, users: us, rooms: rs, chats: Vec::new() }
    }

    /// Fold one authority message into the mirror and report whether the
    /// view must re-render. A room list change re-renders only in the lobby;
    /// an unsolicited room detail is tolerated and ignored.
    pub fn apply(&mut self, m: crate::server::Message) -> (render: bool)
        requires
            old(self).wf(),
        ensures
            final(self).wf(),
            match m {
                crate::server::Message::Connected { user } => final(self).users@
                    == upserted_user(old(self).users@, user) && final(self).rooms@ == old(self).rooms@ && final(self).chats@ == old(self).chats@ && final(self).room == old(self).room && final(self).id == old(self).id && render,
                crate::server::Message::Welcome { id, users, rooms } => final(self).id == id
                    && final(self).room is None && final(self).chats@.len() == 0 && final(self).users@ == upserted_users(Seq::<UserBrief>::empty(), users@) && final(self).rooms@ == upserted_briefs(Seq::<RoomBrief>::empty(), rooms@) && render,
                crate::server::Message::Disconnected { id } => final(self).users@
                    == removed_user(old(self).users@, id) && final(self).rooms@ == old(self).rooms@ && final(self).chats@ == old(self).chats@ && final(self).room == old(self).room && final(self).id == old(self).id && render,
                crate::server::Message::Alert(a) => final(self).chats@ == old(self).chats@.push(Chat::Alert(a)) && final(self).users@ == old(self).users@ && final(self).rooms@ == old(self).rooms@ && final(self).room == old(self).room && final(self).id == old(self).id && render,
                crate::server::Message::Chat { from, text, whisper } => final(self).chats@
                    == old(self).chats@.push(
                    if whisper {
                        Chat::Whisper(text, from)
                    } else {
                        Chat::Chat(text, from)
                    },
                ) && final(self).users@ == old(self).users@ && final(self).rooms@ == old(self).rooms@ && final(self).room == old(self).room && final(self).id == old(self).id && render,
                crate::server::Message::NewRoom { room } => final(self).rooms@ == upserted_brief(
                    old(self).rooms@,
                    room,
                ) && final(self).users@ == old(self).users@ && final(self).chats@ == old(self).chats@ && final(self).room == old(self).room && final(self).id == old(self).id && render == (old(self).room is None),
                crate::server::Message::DestroyRoom { room } => final(self).rooms@
                    == removed_brief(old(self).rooms@, room) && final(self).users@ == old(self).users@ && final(self).chats@ == old(self).chats@ && final(self).room == old(self).room && final(self).id == old(self).id && render == (old(self).room is None),
                crate::server::Message::RoomDetail { room } => *final(self) == *old(self)
                    && !render,
                crate::server::Message::ReadyJoin { room } => final(self).room == Some(room)
                    && final(self).users@ == old(self).users@ && final(self).rooms@ == old(self).rooms@ && final(self).chats@ == old(self).chats@ && final(self).id == old(self).id && render,
                crate::server::Message::RoomUpdate { room } => final(self).room == Some(room)
                    && final(self).users@ == old(self).users@ && final(self).rooms@ == old(self).rooms@ && final(self).chats@ == old(self).chats@ && final(self).id == old(self).id && render,
            },
    {
        match m {
            crate::server::Message::Connected { user } => {
                upsert_user(&mut self.users, user);
                true
            },
            crate::server::Message::Welcome { id, users, rooms } => {
                let fresh = Client::from_welcome(id, users, rooms);
                *self = fresh;
                true
            },
            crate::server::Message::Disconnected { id } => {
                remove_user(&mut self.users, id);
                true
            },
            crate::server::Message::Alert(a) => {
                self.chats.push(Chat::Alert(a));
                true
            },
            crate::server::Message::Chat { from, text, whisper } => {
                if whisper {
                    self.chats.push(Chat::Whisper(text, from));
                } else {
                    self.chats.push(Chat::Chat(text, from));
                }
                true
            },
            crate::server::Message::NewRoom { room } => {
                let lobby = self.room.is_none();
                upsert_brief(&mut self.rooms, room);
                lobby
            },
            crate::server::Message::DestroyRoom { room } => {
                let lobby = self.room.is_none();
                remove_brief(&mut self.rooms, room);
                lobby
            },
            crate::server::Message::RoomDetail { room: _ } => false,
            crate::server::Message::ReadyJoin { room } => {
                self.room = Some(room);
                true
            },
            crate::server::Message::RoomUpdate { room } => {
                self.room = Some(room);
                true
            },
        }
    }
}

} // verus!
