use vstd::prelude::*;
use vstd::seq_lib::*;
use vstd::set_lib::*;
use crate::{Alert, RoomBrief, RoomId, UserBrief, UserId};

verus! {

/// User identities are drawn from this many values; a guest display name is
/// the base-62 rendering of the identity modulo this bound.
pub const ID_SPACE: usize = 62 * 62 * 62 * 62;

/// Room identities are drawn from this many values.
pub const ROOM_LIMIT: RoomId = 1000;

/// Server-side record of one connected client: display name and the room it
/// currently sits in, if any.
pub struct Session {
    pub id: UserId,
    pub name: String,
    pub room: Option<RoomId>,
}

/// A named broadcast scope: an ordered member list whose first survivor
/// inherits ownership, and which is destroyed the moment it empties.
pub struct Room {
    pub id: RoomId,
    pub title: String,
    pub owner: UserId,
    pub members: Vec<UserId>,
}

/// The single authority owning all session and room state.
pub struct Host {
    pub sessions: Vec<Session>,
    pub rooms: Vec<Room>,
}

/// One outbound notification, routed to the session with identity `to`.
/// Delivery is fire-and-forget: the transport layer pushes the message toward
/// that connection and drops it silently if the connection is gone.
#[derive(Debug, Clone, PartialEq)]
pub struct Delivery {
    pub to: UserId,
    pub msg: crate::server::Message,
}

/// Registration request of a freshly accepted connection.
#[derive(Debug, Clone, PartialEq)]
pub struct Connect {}

/// Synchronous reply to `Connect`: the identity the host assigned.
#[derive(Debug, Clone, PartialEq)]
pub struct Welcome {
    pub id: UserId,
}

/// A connection went away (timeout or explicit close).
#[derive(Debug, Clone, PartialEq)]
pub struct Disconnect {
    pub id: UserId,
}

/// A chat line from session `id`; `to` selects a whisper target.
#[derive(Debug, Clone, PartialEq)]
pub struct Chat {
    pub id: UserId,
    pub text: String,
    pub to: Option<UserId>,
}

/// Session `id` asks for a new room with the given title.
#[derive(Debug, Clone, PartialEq)]
pub struct CreateRoom {
    pub id: UserId,
    pub room: RoomBrief,
}

/// Session `id` asks for the full record of a room.
#[derive(Debug, Clone, PartialEq)]
pub struct GetRoomDetail {
    pub id: UserId,
    pub room: RoomId,
}

/// Session `id` asks to join an existing room.
#[derive(Debug, Clone, PartialEq)]
pub struct JoinRoom {
    pub id: UserId,
    pub room: RoomId,
}

/// Session `id` leaves its current room, if it has one.
#[derive(Debug, Clone, PartialEq)]
pub struct QuitRoom {
    pub id: UserId,
}

/// Some session in `ss` has identity `id`.
pub open spec fn has_sess(ss: Seq<Session>, id: UserId) -> bool {
    exists|i: int| 0 <= i < ss.len() && (#[trigger] ss[i]).id == id
}

/// Index of the session with identity `id`; meaningful under `sess_ids_unique`.
pub open spec fn sess_pos(ss: Seq<Session>, id: UserId) -> int {
    choose|i: int| 0 <= i < ss.len() && (#[trigger] ss[i]).id == id
}

/// The session with identity `id`; meaningful under `sess_ids_unique`.
pub open spec fn sess_at(ss: Seq<Session>, id: UserId) -> Session {
    ss[sess_pos(ss, id)]
}

/// Some room in `rs` has identity `id`.
pub open spec fn has_room(rs: Seq<Room>, id: RoomId) -> bool {
    exists|j: int| 0 <= j < rs.len() && (#[trigger] rs[j]).id == id
}

/// Index of the room with identity `id`; meaningful under `room_ids_unique`.
pub open spec fn room_pos(rs: Seq<Room>, id: RoomId) -> int {
    choose|j: int| 0 <= j < rs.len() && (#[trigger] rs[j]).id == id
}

/// The room with identity `id`; meaningful under `room_ids_unique`.
pub open spec fn room_at(rs: Seq<Room>, id: RoomId) -> Room {
    rs[room_pos(rs, id)]
}

/// No two sessions share an identity.
pub open spec fn sess_ids_unique(ss: Seq<Session>) -> bool {
    forall|i: int, j: int|
        0 <= i < j < ss.len() ==> (#[trigger] ss[i]).id != (#[trigger] ss[j]).id
}

/// No two rooms share an identity.
pub open spec fn room_ids_unique(rs: Seq<Room>) -> bool {
    forall|i: int, j: int|
        0 <= i < j < rs.len() ==> (#[trigger] rs[i]).id != (#[trigger] rs[j]).id
}

/// Identity `m` belongs to a session whose room reference is `rid`.
pub open spec fn member_linked(ss: Seq<Session>, m: UserId, rid: RoomId) -> bool {
    exists|i: int|
        0 <= i < ss.len() && (#[trigger] ss[i]).id == m && ss[i].room == Some(rid)
}

/// A room is well formed against the session list: it is never empty, its
/// owner is a member, members are distinct, and every member's session points
/// back at this room.
pub open spec fn room_ok(ss: Seq<Session>, r: Room) -> bool {
    &&& r.members@.len() >= 1
    &&& r.members@.no_duplicates()
    &&& r.members@.contains(r.owner)
    &&& forall|k: int|
        0 <= k < r.members@.len() ==> member_linked(ss, #[trigger] r.members@[k], r.id)
}

/// A session's room reference, if present, names an existing room that lists
/// the session among its members.
pub open spec fn sess_ok(rs: Seq<Room>, s: Session) -> bool {
    s.room matches Some(rid) ==> exists|j: int|
        0 <= j < rs.len() && (#[trigger] rs[j]).id == rid && rs[j].members@.contains(s.id)
}

impl Host {
    /// The authority invariant: identities are unique and session room
    /// references and room member lists agree in both directions.
    pub open spec fn wf(&self) -> bool {
        &&& sess_ids_unique(self.sessions@)
        &&& room_ids_unique(self.rooms@)
        &&& forall|j: int|
            0 <= j < self.rooms@.len() ==> room_ok(self.sessions@, #[trigger] self.rooms@[j])
        &&& forall|i: int|
            0 <= i < self.sessions@.len() ==> sess_ok(self.rooms@, #[trigger] self.sessions@[i])
    }
}

/// A list of distinct identities that contains every value below `n` has at
/// least `n` elements.
proof fn lemma_distinct_ids_cover(ids: Seq<usize>, n: int)
    requires
        ids.no_duplicates(),
        0 <= n <= usize::MAX as int + 1,
        forall|c: int| 0 <= c < n ==> ids.contains(#[trigger] (c as usize)),
    ensures
        ids.len() >= n,
{
    let ids_int = Seq::new(ids.len(), |i: int| ids[i] as int);
    assert(ids_int.no_duplicates()) by {
        assert forall|i: int, j: int|
            0 <= i < ids_int.len() && 0 <= j < ids_int.len() && i != j implies ids_int[i]
            != ids_int[j] by {
            assert(ids[i] != ids[j]);
        }
    }
    ids_int.unique_seq_to_set();
    assert(set_int_range(0, n).subset_of(ids_int.to_set())) by {
        assert forall|c: int| set_int_range(0, n).contains(c) implies ids_int.to_set().contains(
            c,
        ) by {
            assert(ids.contains(c as usize));
            let i = choose|i: int| 0 <= i < ids.len() && ids[i] == (c as usize);
            assert(ids_int[i] == c);
            assert(ids_int.contains(c));
        }
    }
    lemma_int_range(0, n);
    lemma_len_subset(set_int_range(0, n), ids_int.to_set());
}

/// Relies on rand::random_range: draws a value from the given range with the
/// thread-local generator; on a non-empty range it returns a member of it.
#[verifier::external_body]
fn rand_below(bound: usize) -> (r: usize)
    requires
        bound >= 1,
    ensures
        r < bound,
{
    rand::random_range(0..bound)
}

/// Relies on String::push: appends the given character to the end.
pub assume_specification [String::push] (s: &mut String, ch: char)
    ensures
        final(s)@ == old(s)@.push(ch),
;

/// The base-62 digit alphabet: decimal digits, then upper case, then lower
/// case letters.
pub open spec fn guest_char(d: int) -> char {
    if d < 10 {
        (48 + d) as char
    } else if d < 36 {
        (55 + d) as char
    } else {
        (61 + d) as char
    }
}

/// A guest display name: the fixed prefix followed by the four base-62 digits
/// of the identity, least significant first.
pub open spec fn guest_name(id: int) -> Seq<char> {
    "GUEST_"@ + seq![
        guest_char(id % 62),
        guest_char((id / 62) % 62),
        guest_char((id / 3844) % 62),
        guest_char((id / 238328) % 62),
    ]
}

fn guest_char_exec(d: usize) -> (c: char)
    requires
        d < 62,
    ensures
        c == guest_char(d as int),
{
    let b: u8 = if d < 10 {
        48 + (d as u8)
    } else if d < 36 {
        55 + (d as u8)
    } else {
        61 + (d as u8)
    };
    b as char
}

#[verifier::rlimit(60)]
fn make_guest_name(id: usize) -> (name: String)
    ensures
        name@ == guest_name(id as int),
{
    let mut name = "GUEST_".to_owned();
    let mut rest = id;
    let c0 = guest_char_exec(rest % 62);
    name.push(c0);
    rest = rest / 62;
    let c1 = guest_char_exec(rest % 62);
    name.push(c1);
    rest = rest / 62;
    let c2 = guest_char_exec(rest % 62);
    name.push(c2);
    rest = rest / 62;
    let c3 = guest_char_exec(rest % 62);
    name.push(c3);
    proof {
        vstd::arithmetic::div_mod::lemma_div_denominator(id as int, 62, 62);
        vstd::arithmetic::div_mod::lemma_div_denominator(id as int, 3844, 62);
        assert(name@ =~= guest_name(id as int));
    }
    name
}

impl Default for Host {
    /// An empty authority: no sessions, no rooms.
    fn default() -> (h: Host)
        ensures
            h.wf(),
            h.sessions@.len() == 0,
            h.rooms@.len() == 0,
    {
        Host { sessions: Vec::new(), rooms: Vec::new() }
    }
}

impl Host {
    /// An empty authority: no sessions, no rooms.
    pub fn new() -> (h: Host)
        ensures
            h.wf(),
            h.sessions@.len() == 0,
            h.rooms@.len() == 0,
    {
        Host { sessions: Vec::new(), rooms: Vec::new() }
    }

    fn find_session(&self, id: UserId) -> (r: Option<usize>)
        ensures
            match r {
                Some(i) => i < self.sessions@.len() && self.sessions@[i as int].id == id,
                None => !has_sess(self.sessions@, id),
            },
    {
        let mut i: usize = 0;
        while i < self.sessions.len()
            invariant
                i <= self.sessions@.len(),
                forall|j: int| 0 <= j < i ==> (#[trigger] self.sessions@[j]).id != id,
            decreases self.sessions@.len() - i,
        {
            if self.sessions[i].id == id {
                return Some(i);
            }
            i += 1;
        }
        None
    }

    fn find_room(&self, id: RoomId) -> (r: Option<usize>)
        ensures
            match r {
                Some(j) => j < self.rooms@.len() && self.rooms@[j as int].id == id,
                None => !has_room(self.rooms@, id),
            },
    {
        let mut j: usize = 0;
        while j < self.rooms.len()
            invariant
                j <= self.rooms@.len(),
                forall|k: int| 0 <= k < j ==> (#[trigger] self.rooms@[k]).id != id,
            decreases self.rooms@.len() - j,
        {
            if self.rooms[j].id == id {
                return Some(j);
            }
            j += 1;
        }
        None
    }

    /// An identity no current session carries: normally the random draw
    /// itself, with a deterministic probe as collision fallback. While the
    /// identity space has room left, the result stays inside it.
    fn fresh_user_id(&self) -> (id: UserId)
        requires
            sess_ids_unique(self.sessions@),
        ensures
            !has_sess(self.sessions@, id),
            self.sessions@.len() < ID_SPACE ==> id < ID_SPACE,
    {
        let draw = rand_below(ID_SPACE);
        if self.find_session(draw).is_none() {
            return draw;
        }
        for c in 0..ID_SPACE
            invariant
                forall|t: int| 0 <= t < c ==> has_sess(self.sessions@, #[trigger] (t as usize)),
        {
            if self.find_session(c).is_none() {
                return c;
            }
        }
        // the whole identity space is taken, so at least that many sessions
        // exist and the bound clause holds of whatever comes next
        proof {
            let ids = Seq::new(self.sessions@.len(), |i: int| self.sessions@[i].id);
            assert(ids.no_duplicates());
            assert forall|c: int| 0 <= c < ID_SPACE implies ids.contains(
                #[trigger] (c as usize),
            ) by {
                assert(has_sess(self.sessions@, c as usize));
                let i = choose|i: int|
                    0 <= i < self.sessions@.len() && self.sessions@[i].id == (c as usize);
                assert(ids[i] == c as usize);
            }
            lemma_distinct_ids_cover(ids, ID_SPACE as int);
        }
        let n = self.sessions.len();
        for c in 0..n
            invariant
                self.sessions@.len() >= ID_SPACE,
                forall|t: int| 0 <= t < c ==> has_sess(self.sessions@, #[trigger] (t as usize)),
        {
            if self.find_session(c).is_none() {
                return c;
            }
        }
        proof {
            if has_sess(self.sessions@, n) {
                let ids = Seq::new(self.sessions@.len(), |i: int| self.sessions@[i].id);
                assert(ids.no_duplicates());
                assert forall|c: int| 0 <= c < n + 1 implies ids.contains(
                    #[trigger] (c as usize),
                ) by {
                    assert(has_sess(self.sessions@, c as usize));
                    let i = choose|i: int|
                        0 <= i < self.sessions@.len() && self.sessions@[i].id == (c as usize);
                    assert(ids[i] == c as usize);
                }
                lemma_distinct_ids_cover(ids, n as int + 1);
            }
        }
        n
    }

    /// A room identity no current room carries: normally the random draw
    /// itself, with a deterministic probe as collision fallback. While the
    /// identity space has room left, the result stays inside it.
    fn fresh_room_id(&self) -> (id: RoomId)
        requires
            room_ids_unique(self.rooms@),
        ensures
            !has_room(self.rooms@, id),
            self.rooms@.len() < ROOM_LIMIT ==> id < ROOM_LIMIT,
    {
        let draw = rand_below(ROOM_LIMIT);
        if self.find_room(draw).is_none() {
            return draw;
        }
        for c in 0..ROOM_LIMIT
            invariant
                forall|t: int| 0 <= t < c ==> has_room(self.rooms@, #[trigger] (t as usize)),
        {
            if self.find_room(c).is_none() {
                return c;
            }
        }
        // the whole identity space is taken, so at least that many rooms
        // exist and the bound clause holds of whatever comes next
        proof {
            let ids = Seq::new(self.rooms@.len(), |i: int| self.rooms@[i].id);
            assert(ids.no_duplicates());
            assert forall|c: int| 0 <= c < ROOM_LIMIT implies ids.contains(
                #[trigger] (c as usize),
            ) by {
                assert(has_room(self.rooms@, c as usize));
                let i = choose|i: int|
                    0 <= i < self.rooms@.len() && self.rooms@[i].id == (c as usize);
                assert(ids[i] == c as usize);
            }
            lemma_distinct_ids_cover(ids, ROOM_LIMIT as int);
        }
        let n = self.rooms.len();
        for c in 0..n
            invariant
                self.rooms@.len() >= ROOM_LIMIT,
                forall|t: int| 0 <= t < c ==> has_room(self.rooms@, #[trigger] (t as usize)),
        {
            if self.find_room(c).is_none() {
                return c;
            }
        }
        proof {
            if has_room(self.rooms@, n) {
                let ids = Seq::new(self.rooms@.len(), |i: int| self.rooms@[i].id);
                assert(ids.no_duplicates());
                assert forall|c: int| 0 <= c < n + 1 implies ids.contains(
                    #[trigger] (c as usize),
                ) by {
                    assert(has_room(self.rooms@, c as usize));
                    let i = choose|i: int|
                        0 <= i < self.rooms@.len() && self.rooms@[i].id == (c as usize);
                    assert(ids[i] == c as usize);
                }
                lemma_distinct_ids_cover(ids, n as int + 1);
            }
        }
        n
    }
}

/// A valid index answers the id-lookup spec functions exactly, when ids are
/// unique.
proof fn lemma_sess_at_index(ss: Seq<Session>, i: int)
    requires
        sess_ids_unique(ss),
        0 <= i < ss.len(),
    ensures
        has_sess(ss, ss[i].id),
        sess_pos(ss, ss[i].id) == i,
        sess_at(ss, ss[i].id) == ss[i],
{
    assert(0 <= i < ss.len() && ss[i].id == ss[i].id);
    let j = sess_pos(ss, ss[i].id);
    assert(0 <= j < ss.len() && ss[j].id == ss[i].id);
    if j < i {
        assert(ss[j].id != ss[i].id);
    } else if i < j {
        assert(ss[i].id != ss[j].id);
    }
}

/// A valid index answers the room-lookup spec functions exactly, when ids are
/// unique.
proof fn lemma_room_at_index(rs: Seq<Room>, j: int)
    requires
        room_ids_unique(rs),
        0 <= j < rs.len(),
    ensures
        has_room(rs, rs[j].id),
        room_pos(rs, rs[j].id) == j,
        room_at(rs, rs[j].id) == rs[j],
{
    assert(0 <= j < rs.len() && rs[j].id == rs[j].id);
    let k = room_pos(rs, rs[j].id);
    assert(0 <= k < rs.len() && rs[k].id == rs[j].id);
    if k < j {
        assert(rs[k].id != rs[j].id);
    } else if j < k {
        assert(rs[j].id != rs[k].id);
    }
}

fn copy_ids(v: &Vec<UserId>) -> (r: Vec<UserId>)
    ensures
        r@ == v@,
{
    let mut r: Vec<UserId> = Vec::new();
    let mut i: usize = 0;
    while i < v.len()
        invariant
            i <= v@.len(),
            r@ == v@.subrange(0, i as int),
        decreases v@.len() - i,
    {
        r.push(v[i]);
        i += 1;
        proof {
            assert(r@ =~= v@.subrange(0, i as int));
        }
    }
    proof {
        assert(r@ =~= v@);
    }
    r
}

/// The full record of a room, as the wire schema carries it.
pub open spec fn full_of(r: Room, f: crate::Room) -> bool {
    &&& f.id == r.id
    &&& f.title@ == r.title@
    &&& f.owner == r.owner
    &&& f.members@ == r.members@
}

/// The brief of a room: identity and title.
pub open spec fn room_brief_of(r: Room, b: RoomBrief) -> bool {
    &&& b.id == r.id
    &&& b.title@ == r.title@
}

/// The brief of a session: identity and display name.
pub open spec fn user_brief_of(s: Session, b: UserBrief) -> bool {
    &&& b.id == s.id
    &&& b.name@ == s.name@
}

fn full_room(r: &Room) -> (f: crate::Room)
    ensures
        full_of(*r, f),
{
    crate::Room { id: r.id, title: r.title.clone(), owner: r.owner, members: copy_ids(&r.members) }
}

impl Host {
    fn session_briefs(&self) -> (us: Vec<UserBrief>)
        ensures
            us@.len() == self.sessions@.len(),
            forall|k: int|
                0 <= k < us@.len() ==> user_brief_of(self.sessions@[k], #[trigger] us@[k]),
    {
        let mut us: Vec<UserBrief> = Vec::new();
        let mut i: usize = 0;
        while i < self.sessions.len()
            invariant
                i <= self.sessions@.len(),
                us@.len() == i,
                forall|k: int|
                    0 <= k < i ==> user_brief_of(self.sessions@[k], #[trigger] us@[k]),
            decreases self.sessions@.len() - i,
        {
            let s = &self.sessions[i];
            us.push(UserBrief { id: s.id, name: s.name.clone() });
            i += 1;
        }
        us
    }

    fn room_briefs(&self) -> (rs: Vec<RoomBrief>)
        ensures
            rs@.len() == self.rooms@.len(),
            forall|k: int|
                0 <= k < rs@.len() ==> room_brief_of(self.rooms@[k], #[trigger] rs@[k]),
    {
        let mut rs: Vec<RoomBrief> = Vec::new();
        let mut j: usize = 0;
        while j < self.rooms.len()
            invariant
                j <= self.rooms@.len(),
                rs@.len() == j,
                forall|k: int|
                    0 <= k < j ==> room_brief_of(self.rooms@[k], #[trigger] rs@[k]),
            decreases self.rooms@.len() - j,
        {
            let r = &self.rooms[j];
            rs.push(RoomBrief { id: r.id, title: r.title.clone() });
            j += 1;
        }
        rs
    }

    /// A fresh identity and the guest display name derived from it.
    fn generate_guest(&self) -> (r: (UserId, String))
        requires
            self.wf(),
        ensures
            !has_sess(self.sessions@, r.0),
            self.sessions@.len() < ID_SPACE ==> r.0 < ID_SPACE,
            r.1@ == guest_name(r.0 as int),
    {
        let id = self.fresh_user_id();
        let name = make_guest_name(id);
        (id, name)
    }

    /// Register a fresh connection: assign a fresh identity and a guest name,
    /// welcome the newcomer with the current user and room lists, insert the
    /// session, and announce it to every connected session, the newcomer
    /// included.
    pub fn connect(&mut self, _req: Connect) -> (r: (Welcome, Vec<Delivery>))
        requires
            old(self).wf(),
        ensures
            final(self).wf(),
            !has_sess(old(self).sessions@, r.0.id),
            old(self).sessions@.len() < ID_SPACE ==> r.0.id < ID_SPACE,
            final(self).rooms@ == old(self).rooms@,
            final(self).sessions@.len() == old(self).sessions@.len() + 1,
            forall|i: int|
                0 <= i < old(self).sessions@.len()
                    ==> final(self).sessions@[i] == old(self).sessions@[i],
            final(self).sessions@.last().id == r.0.id,
            final(self).sessions@.last().name@ == guest_name(r.0.id as int),
            final(self).sessions@.last().room is None,
            forall|u: UserId|
                has_sess(final(self).sessions@, u) <==> (has_sess(old(self).sessions@, u) || u
                    == r.0.id),
            r.1@.len() == 1 + final(self).sessions@.len(),
            r.1@[0].to == r.0.id,
            (r.1@[0].msg matches crate::server::Message::Welcome { id, users, rooms }
                && id == r.0.id && users@.len() == old(self).sessions@.len() && (forall|k: int|
                0 <= k < users@.len() ==> user_brief_of(
                    old(self).sessions@[k],
                    #[trigger] users@[k],
                )) && rooms@.len() == old(self).rooms@.len() && (forall|k: int|
                0 <= k < rooms@.len() ==> room_brief_of(
                    old(self).rooms@[k],
                    #[trigger] rooms@[k],
                ))),
            forall|k: int|
                0 <= k < final(self).sessions@.len()
                    ==> (#[trigger] r.1@[1 + k]).to == final(self).sessions@[k].id && (r.1@[1
                    + k].msg
                    matches crate::server::Message::Connected { user } && user.id == r.0.id
                    && user.name@ == guest_name(r.0.id as int)),
    {
        let (id, name) = self.generate_guest();
        let users = self.session_briefs();
        let rooms = self.room_briefs();
        let mut ds: Vec<Delivery> = Vec::new();
        ds.push(
            Delivery { to: id, msg: crate::server::Message::Welcome { id, users, rooms } },
        );
        let ghost pre = *self;
        self.sessions.push(Session { id, name: name.clone(), room: None });
        proof {
            assert forall|u: UserId|
                has_sess(self.sessions@, u) <==> (has_sess(pre.sessions@, u) || u == id) by {
                if has_sess(self.sessions@, u) {
                    let i = choose|i: int|
                        0 <= i < self.sessions@.len() && self.sessions@[i].id == u;
                    if i < pre.sessions@.len() {
                        assert(pre.sessions@[i].id == u);
                    }
                }
                if has_sess(pre.sessions@, u) {
                    let i = choose|i: int|
                        0 <= i < pre.sessions@.len() && pre.sessions@[i].id == u;
                    assert(self.sessions@[i].id == u);
                }
                if u == id {
                    assert(self.sessions@.last().id == u);
                    assert(has_sess(self.sessions@, u));
                }
            }
            assert(self.wf()) by {
                assert forall|j: int| 0 <= j < self.rooms@.len() implies room_ok(
                    self.sessions@,
                    #[trigger] self.rooms@[j],
                ) by {
                    let r = self.rooms@[j];
                    assert(room_ok(pre.sessions@, r));
                    assert forall|k: int| 0 <= k < r.members@.len() implies member_linked(
                        self.sessions@,
                        #[trigger] r.members@[k],
                        r.id,
                    ) by {
                        let m = r.members@[k];
                        assert(member_linked(pre.sessions@, m, r.id));
                        let i = choose|i: int|
                            0 <= i < pre.sessions@.len() && pre.sessions@[i].id == m
                                && pre.sessions@[i].room == Some(r.id);
                        assert(self.sessions@[i].id == m && self.sessions@[i].room == Some(
                            r.id,
                        ));
                    }
                }
            }
        }
        let n = self.sessions.len();
        let mut k: usize = 0;
        while k < n
            invariant
                n == self.sessions@.len(),
                k <= n,
                ds@.len() == 1 + k,
                ds@[0].to == id,
                (ds@[0].msg matches crate::server::Message::Welcome { id: wid, users, rooms }
                    && wid == id && users@.len() == pre.sessions@.len() && (forall|t: int|
                    0 <= t < users@.len() ==> user_brief_of(
                        pre.sessions@[t],
                        #[trigger] users@[t],
                    )) && rooms@.len() == pre.rooms@.len() && (forall|t: int|
                    0 <= t < rooms@.len() ==> room_brief_of(
                        pre.rooms@[t],
                        #[trigger] rooms@[t],
                    ))),
                forall|t: int|
                    0 <= t < k ==> (#[trigger] ds@[1 + t]).to == self.sessions@[t].id && (ds@[1
                        + t].msg matches crate::server::Message::Connected { user } && user.id
                        == id && user.name@ == guest_name(id as int)),
                name@ == guest_name(id as int),
            decreases n - k,
        {
            let to = self.sessions[k].id;
            ds.push(
                Delivery {
                    to,
                    msg: crate::server::Message::Connected {
                        user: UserBrief { id, name: name.clone() },
                    },
                },
            );
            k += 1;
        }
        (Welcome { id }, ds)
    }
}

/// What `str::trim` leaves of a string: the characters without leading and
/// trailing whitespace. The result depends on the characters alone.
pub uninterp spec fn trimmed(s: Seq<char>) -> Seq<char>;

/// Relies on str::trim: returns the string with leading and trailing
/// whitespace removed, a function of the characters alone.
#[verifier::external_body]
pub(crate) fn trim_str(s: &String) -> (r: String)
    ensures
        r@ == trimmed(s@),
{
    s.trim().to_owned()
}

/// The room the session currently sits in, if the session exists and has one.
pub open spec fn current_room(ss: Seq<Session>, id: UserId) -> Option<RoomId> {
    if has_sess(ss, id) {
        sess_at(ss, id).room
    } else {
        None
    }
}

/// Who a non-whisper chat line from `id` reaches: the sender's room members
/// if the sender sits in a room, every connected session otherwise.
pub open spec fn broadcast_targets(h: Host, id: UserId) -> Seq<UserId> {
    match current_room(h.sessions@, id) {
        Some(rid) => room_at(h.rooms@, rid).members@,
        None => Seq::new(h.sessions@.len(), |i: int| h.sessions@[i].id),
    }
}

/// Exactly which deliveries a chat request produces: nothing for blank text;
/// a whisper to an existing target; a target-not-found alert back to a known
/// sender; otherwise a broadcast scoped by the sender's room.
pub open spec fn chat_deliveries(h: Host, req: Chat, ds: Seq<Delivery>) -> bool {
    let text = trimmed(req.text@);
    if text.len() == 0 {
        ds.len() == 0
    } else {
        match req.to {
            Some(t) => {
                if has_sess(h.sessions@, t) {
                    &&& ds.len() == 1
                    &&& ds[0].to == t
                    &&& (ds[0].msg matches crate::server::Message::Chat { from, text: tx, whisper }
                        && from == req.id && tx@ == text && whisper == true)
                } else if has_sess(h.sessions@, req.id) {
                    &&& ds.len() == 1
                    &&& ds[0].to == req.id
                    &&& ds[0].msg == crate::server::Message::Alert(Alert::TargetNotFound)
                } else {
                    ds.len() == 0
                }
            },
            None => {
                let targets = broadcast_targets(h, req.id);
                &&& ds.len() == targets.len()
                &&& forall|k: int|
                    0 <= k < ds.len() ==> (#[trigger] ds[k]).to == targets[k] && (ds[k].msg
                        matches crate::server::Message::Chat { from, text: tx, whisper } && from
                        == req.id && tx@ == text && whisper == false)
            },
        }
    }
}

/// Exactly which deliveries a room-detail request produces: the full record
/// of the room back to the requester when both exist, nothing otherwise.
pub open spec fn detail_deliveries(h: Host, req: GetRoomDetail, ds: Seq<Delivery>) -> bool {
    if has_sess(h.sessions@, req.id) && has_room(h.rooms@, req.room) {
        &&& ds.len() == 1
        &&& ds[0].to == req.id
        &&& (ds[0].msg matches crate::server::Message::RoomDetail { room } && full_of(
            room_at(h.rooms@, req.room),
            room,
        ))
    } else {
        ds.len() == 0
    }
}

impl Host {
    /// Route one chat line. Text is trimmed and blank lines are dropped; a
    /// whisper goes to its target alone, or bounces back as an alert when the
    /// target is unknown; plain chat reaches the sender's room, or everyone
    /// when the sender sits in no room. State never changes.
    pub fn chat(&self, req: Chat) -> (ds: Vec<Delivery>)
        requires
            self.wf(),
        ensures
            chat_deliveries(*self, req, ds@),
    {
        let mut ds: Vec<Delivery> = Vec::new();
        let text = trim_str(&req.text);
        if text.as_str().is_empty() {
            return ds;
        }
        let from = req.id;
        if let Some(t) = req.to {
            if self.find_session(t).is_some() {
                ds.push(
                    Delivery {
                        to: t,
                        msg: crate::server::Message::Chat { from, text, whisper: true },
                    },
                );
            } else if self.find_session(from).is_some() {
                ds.push(
                    Delivery {
                        to: from,
                        msg: crate::server::Message::Alert(Alert::TargetNotFound),
                    },
                );
            }
            return ds;
        }
        let sender = self.find_session(from);
        let mut room_idx: Option<usize> = None;
        if let Some(i) = sender {
            proof {
                lemma_sess_at_index(self.sessions@, i as int);
            }
            if let Some(rid) = self.sessions[i].room {
                let j = self.find_room(rid).unwrap();
                room_idx = Some(j);
                proof {
                    lemma_room_at_index(self.rooms@, j as int);
                }
            }
        }
        if let Some(j) = room_idx {
            let ghost targets = broadcast_targets(*self, from);
            let n = self.rooms[j].members.len();
            let mut k: usize = 0;
            while k < n
                invariant
                    j < self.rooms@.len(),
                    n == self.rooms@[j as int].members@.len(),
                    targets == self.rooms@[j as int].members@,
                    k <= n,
                    ds@.len() == k,
                    forall|t: int|
                        0 <= t < k ==> (#[trigger] ds@[t]).to == targets[t] && (ds@[t].msg
                            matches crate::server::Message::Chat { from: f, text: tx, whisper }
                            && f == from && tx@ == trimmed(req.text@) && whisper == false),
                    text@ == trimmed(req.text@),
                decreases n - k,
            {
                let to = self.rooms[j].members[k];
                ds.push(
                    Delivery {
                        to,
                        msg: crate::server::Message::Chat {
                            from,
                            text: text.clone(),
                            whisper: false,
                        },
                    },
                );
                k += 1;
            }
        } else {
            let ghost targets = broadcast_targets(*self, from);
            proof {
                if has_sess(self.sessions@, from) {
                    assert(sess_at(self.sessions@, from).room is None);
                }
            }
            let n = self.sessions.len();
            let mut k: usize = 0;
            while k < n
                invariant
                    n == self.sessions@.len(),
                    targets == Seq::new(
                        self.sessions@.len(),
                        |i: int| self.sessions@[i].id,
                    ),
                    k <= n,
                    ds@.len() == k,
                    forall|t: int|
                        0 <= t < k ==> (#[trigger] ds@[t]).to == targets[t] && (ds@[t].msg
                            matches crate::server::Message::Chat { from: f, text: tx, whisper }
                            && f == from && tx@ == trimmed(req.text@) && whisper == false),
                    text@ == trimmed(req.text@),
                decreases n - k,
            {
                let to = self.sessions[k].id;
                ds.push(
                    Delivery {
                        to,
                        msg: crate::server::Message::Chat {
                            from,
                            text: text.clone(),
                            whisper: false,
                        },
                    },
                );
                k += 1;
            }
        }
        ds
    }

    /// Send the full record of an existing room back to a known requester;
    /// silently do nothing otherwise. State never changes.
    pub fn get_room_detail(&self, req: GetRoomDetail) -> (ds: Vec<Delivery>)
        requires
            self.wf(),
        ensures
            detail_deliveries(*self, req, ds@),
    {
        let mut ds: Vec<Delivery> = Vec::new();
        if self.find_session(req.id).is_some() {
            if let Some(j) = self.find_room(req.room) {
                proof {
                    lemma_room_at_index(self.rooms@, j as int);
                }
                let room = full_room(&self.rooms[j]);
                ds.push(Delivery { to: req.id, msg: crate::server::Message::RoomDetail { room } });
            }
        }
        ds
    }
}

/// Exactly what a create-room request does. It is rejected outright — no
/// state change, no message — when the sender is unknown, already sits in a
/// room, or offers a blank title. Otherwise a fresh room appears with the
/// sender as sole member and owner, the sender is told it may join, and
/// everyone is told of the new room.
pub open spec fn create_effect(pre: Host, post: Host, req: CreateRoom, ds: Seq<Delivery>) -> bool {
    if !has_sess(pre.sessions@, req.id) || current_room(pre.sessions@, req.id) is Some || trimmed(
        req.room.title@,
    ).len() == 0 {
        &&& post.sessions@ == pre.sessions@
        &&& post.rooms@ == pre.rooms@
        &&& ds.len() == 0
    } else {
        let i = sess_pos(pre.sessions@, req.id);
        let r = post.rooms@.last();
        &&& post.rooms@.len() == pre.rooms@.len() + 1
        &&& (forall|t: int| 0 <= t < pre.rooms@.len() ==> post.rooms@[t] == pre.rooms@[t])
        &&& !has_room(pre.rooms@, r.id)
        &&& (pre.rooms@.len() < ROOM_LIMIT ==> r.id < ROOM_LIMIT)
        &&& r.title@ == trimmed(req.room.title@)
        &&& r.owner == req.id
        &&& r.members@ == seq![req.id]
        &&& post.sessions@.len() == pre.sessions@.len()
        &&& (forall|t: int|
            0 <= t < pre.sessions@.len() && t != i ==> post.sessions@[t] == pre.sessions@[t])
        &&& post.sessions@[i].id == req.id
        &&& post.sessions@[i].name == pre.sessions@[i].name
        &&& post.sessions@[i].room == Some(r.id)
        &&& ds.len() == 1 + pre.sessions@.len()
        &&& ds[0].to == req.id
        &&& (ds[0].msg matches crate::server::Message::ReadyJoin { room } && full_of(r, room))
        &&& (forall|k: int|
            0 <= k < pre.sessions@.len() ==> (#[trigger] ds[1 + k]).to == pre.sessions@[k].id && (
            ds[1 + k].msg matches crate::server::Message::NewRoom { room } && room_brief_of(
                r,
                room,
            )))
    }
}

impl Host {
    /// Create a room for the sender, rejecting the request silently when the
    /// sender is unknown, already sits in a room, or offers a blank title.
    pub fn create_room(&mut self, req: CreateRoom) -> (ds: Vec<Delivery>)
        requires
            old(self).wf(),
        ensures
            final(self).wf(),
            create_effect(*old(self), *final(self), req, ds@),
    {
        let ghost pre = *self;
        let mut ds: Vec<Delivery> = Vec::new();
        let i = match self.find_session(req.id) {
            Some(i) => i,
            None => {
                return ds;
            },
        };
        proof {
            lemma_sess_at_index(self.sessions@, i as int);
        }
        if self.sessions[i].room.is_some() {
            return ds;
        }
        let title = trim_str(&req.room.title);
        if title.as_str().is_empty() {
            return ds;
        }
        let room_id = self.fresh_room_id();
        let mut members: Vec<UserId> = Vec::new();
        members.push(req.id);
        let room = Room { id: room_id, title, owner: req.id, members };
        let ready = full_room(&room);
        ds.push(Delivery { to: req.id, msg: crate::server::Message::ReadyJoin { room: ready } });
        self.sessions[i].room = Some(room_id);
        self.rooms.push(room);
        proof {
            let ss = self.sessions@;
            let rs = self.rooms@;
            let r = rs.last();
            assert(r.members@ =~= seq![req.id]);
            assert(self.wf()) by {
                assert(sess_ids_unique(ss));
                assert(room_ids_unique(rs)) by {
                    assert forall|a: int, b: int| 0 <= a < b < rs.len() implies (
                    #[trigger] rs[a]).id != (#[trigger] rs[b]).id by {
                        if b == rs.len() - 1 {
                            assert(rs[a] == pre.rooms@[a]);
                            if rs[a].id == room_id {
                                assert(has_room(pre.rooms@, room_id));
                            }
                        }
                    }
                }
                assert forall|j: int| 0 <= j < rs.len() implies room_ok(ss, #[trigger] rs[j]) by {
                    if j < rs.len() - 1 {
                        assert(rs[j] == pre.rooms@[j]);
                        assert(room_ok(pre.sessions@, rs[j]));
                        assert forall|k: int| 0 <= k < rs[j].members@.len() implies member_linked(
                            ss,
                            #[trigger] rs[j].members@[k],
                            rs[j].id,
                        ) by {
                            let m = rs[j].members@[k];
                            let p = choose|p: int|
                                0 <= p < pre.sessions@.len() && pre.sessions@[p].id == m
                                    && pre.sessions@[p].room == Some(rs[j].id);
                            assert(p != i);
                            assert(ss[p].id == m && ss[p].room == Some(rs[j].id));
                        }
                    } else {
                        assert(rs[j] == r);
                        assert(ss[i as int].id == req.id && ss[i as int].room == Some(r.id));
                        assert(member_linked(ss, req.id, r.id));
                        assert(r.members@[0] == req.id);
                        assert(r.members@.contains(req.id));
                    }
                }
                assert forall|t: int| 0 <= t < ss.len() implies sess_ok(rs, #[trigger] ss[t]) by {
                    if t == i {
                        assert(rs[rs.len() - 1].id == room_id && rs[rs.len()
                            - 1].members@.contains(req.id));
                    } else {
                        assert(ss[t] == pre.sessions@[t]);
                        assert(sess_ok(pre.rooms@, ss[t]));
                        if ss[t].room is Some {
                            let rid2 = ss[t].room->0;
                            let j2 = choose|j2: int|
                                0 <= j2 < pre.rooms@.len() && pre.rooms@[j2].id == rid2
                                    && pre.rooms@[j2].members@.contains(ss[t].id);
                            assert(rs[j2] == pre.rooms@[j2]);
                        }
                    }
                }
            }
        }
        let n = self.sessions.len();
        let mut k: usize = 0;
        while k < n
            invariant
                n == self.sessions@.len(),
                n == pre.sessions@.len(),
                k <= n,
                ds@.len() == 1 + k,
                ds@[0].to == req.id,
                (ds@[0].msg matches crate::server::Message::ReadyJoin { room } && full_of(
                    self.rooms@.last(),
                    room,
                )),
                self.rooms@.len() >= 1,
                self.rooms@.last().title@ == trimmed(req.room.title@),
                forall|t: int|
                    0 <= t < k ==> (#[trigger] ds@[1 + t]).to == pre.sessions@[t].id && (ds@[1
                        + t].msg matches crate::server::Message::NewRoom { room }
                        && room_brief_of(self.rooms@.last(), room)),
                forall|t: int|
                    0 <= t < n && t != i ==> self.sessions@[t] == pre.sessions@[t],
                i < n,
                self.sessions@[i as int].id == req.id,
                pre.sessions@[i as int].id == req.id,
            decreases n - k,
        {
            let to = self.sessions[k].id;
            let j_last = self.rooms.len() - 1;
            proof {
                assert(self.rooms@[j_last as int] == self.rooms@.last());
            }
            let brief = RoomBrief { id: self.rooms[j_last].id, title: self.rooms[j_last].title.clone() };
            ds.push(Delivery { to, msg: crate::server::Message::NewRoom { room: brief } });
            k += 1;
            proof {
                assert((ds@[1 + (k - 1)].msg matches crate::server::Message::NewRoom { room }
                    && room_brief_of(self.rooms@.last(), room)));
            }
        }
        ds
    }
}

/// Exactly what a join request does. It is rejected outright — no state
/// change, no message — when the sender is unknown, already sits in a room,
/// or names a room that does not exist. Otherwise the sender is appended to
/// the member list, told it may join, and every member (the newcomer
/// included) receives a join alert followed by the updated room record.
pub open spec fn join_effect(pre: Host, post: Host, req: JoinRoom, ds: Seq<Delivery>) -> bool {
    if !has_sess(pre.sessions@, req.id) || current_room(pre.sessions@, req.id) is Some || !has_room(
        pre.rooms@,
        req.room,
    ) {
        &&& post.sessions@ == pre.sessions@
        &&& post.rooms@ == pre.rooms@
        &&& ds.len() == 0
    } else {
        let i = sess_pos(pre.sessions@, req.id);
        let j = room_pos(pre.rooms@, req.room);
        let m2 = pre.rooms@[j].members@.push(req.id);
        &&& post.rooms@.len() == pre.rooms@.len()
        &&& (forall|t: int| 0 <= t < pre.rooms@.len() && t != j ==> post.rooms@[t] == pre.rooms@[t])
        &&& post.rooms@[j].id == req.room
        &&& post.rooms@[j].title == pre.rooms@[j].title
        &&& post.rooms@[j].owner == pre.rooms@[j].owner
        &&& post.rooms@[j].members@ == m2
        &&& post.sessions@.len() == pre.sessions@.len()
        &&& (forall|t: int|
            0 <= t < pre.sessions@.len() && t != i ==> post.sessions@[t] == pre.sessions@[t])
        &&& post.sessions@[i].id == req.id
        &&& post.sessions@[i].name == pre.sessions@[i].name
        &&& post.sessions@[i].room == Some(req.room)
        &&& ds.len() == 1 + 2 * m2.len()
        &&& ds[0].to == req.id
        &&& (ds[0].msg matches crate::server::Message::ReadyJoin { room } && full_of(
            post.rooms@[j],
            room,
        ))
        &&& (forall|u: int|
            1 <= u < ds.len() ==> (#[trigger] ds[u]).to == m2[(u - 1) / 2] && (if (u - 1) % 2
                == 0 {
                ds[u].msg == crate::server::Message::Alert(Alert::Join { user: req.id })
            } else {
                ds[u].msg matches crate::server::Message::RoomUpdate { room } && full_of(
                    post.rooms@[j],
                    room,
                )
            }))
    }
}

impl Host {
    /// Join the sender to an existing room, rejecting the request silently
    /// when the sender is unknown, already sits in a room, or the room does
    /// not exist.
    pub fn join_room(&mut self, req: JoinRoom) -> (ds: Vec<Delivery>)
        requires
            old(self).wf(),
        ensures
            final(self).wf(),
            join_effect(*old(self), *final(self), req, ds@),
    {
        let ghost pre = *self;
        let mut ds: Vec<Delivery> = Vec::new();
        let i = match self.find_session(req.id) {
            Some(i) => i,
            None => {
                return ds;
            },
        };
        proof {
            lemma_sess_at_index(self.sessions@, i as int);
        }
        if self.sessions[i].room.is_some() {
            return ds;
        }
        let j = match self.find_room(req.room) {
            Some(j) => j,
            None => {
                return ds;
            },
        };
        proof {
            lemma_room_at_index(self.rooms@, j as int);
        }
        self.sessions[i].room = Some(req.room);
        self.rooms[j].members.push(req.id);
        proof {
            let ss = self.sessions@;
            let rs = self.rooms@;
            let m2 = pre.rooms@[j as int].members@.push(req.id);
            assert(rs[j as int].members@ == m2);
            // the sender was in no room, so it was not already a member
            assert(!pre.rooms@[j as int].members@.contains(req.id)) by {
                if pre.rooms@[j as int].members@.contains(req.id) {
                    let k = choose|k: int|
                        0 <= k < pre.rooms@[j as int].members@.len()
                            && pre.rooms@[j as int].members@[k] == req.id;
                    assert(member_linked(pre.sessions@, req.id, pre.rooms@[j as int].id));
                    let p = choose|p: int|
                        0 <= p < pre.sessions@.len() && pre.sessions@[p].id == req.id
                            && pre.sessions@[p].room == Some(pre.rooms@[j as int].id);
                    assert(p == i);
                }
            }
            assert(self.wf()) by {
                assert(sess_ids_unique(ss));
                assert(room_ids_unique(rs));
                assert forall|t: int| 0 <= t < rs.len() implies room_ok(ss, #[trigger] rs[t]) by {
                    assert(room_ok(pre.sessions@, pre.rooms@[t]));
                    if t != j {
                        assert(rs[t] == pre.rooms@[t]);
                        assert forall|k: int| 0 <= k < rs[t].members@.len() implies member_linked(
                            ss,
                            #[trigger] rs[t].members@[k],
                            rs[t].id,
                        ) by {
                            let m = rs[t].members@[k];
                            let p = choose|p: int|
                                0 <= p < pre.sessions@.len() && pre.sessions@[p].id == m
                                    && pre.sessions@[p].room == Some(rs[t].id);
                            assert(p != i);
                            assert(ss[p].id == m && ss[p].room == Some(rs[t].id));
                        }
                    } else {
                        assert(rs[t].members@ == m2);
                        assert(m2.no_duplicates()) by {
                            assert(pre.rooms@[t].members@.no_duplicates());
                            assert(!pre.rooms@[t].members@.contains(req.id));
                            assert forall|a: int, b: int|
                                0 <= a < m2.len() && 0 <= b < m2.len() && a != b implies m2[a]
                                != m2[b] by {
                                if a < m2.len() - 1 && b < m2.len() - 1 {
                                } else if a == m2.len() - 1 {
                                    assert(m2[b] == pre.rooms@[t].members@[b]);
                                    assert(pre.rooms@[t].members@.contains(m2[b]));
                                } else if b == m2.len() - 1 {
                                    assert(m2[a] == pre.rooms@[t].members@[a]);
                                    assert(pre.rooms@[t].members@.contains(m2[a]));
                                }
                            }
                        }
                        assert(m2.contains(rs[t].owner)) by {
                            let k = choose|k: int|
                                0 <= k < pre.rooms@[t].members@.len() && pre.rooms@[t].members@[k]
                                    == pre.rooms@[t].owner;
                            assert(m2[k] == rs[t].owner);
                        }
                        assert forall|k: int| 0 <= k < m2.len() implies member_linked(
                            ss,
                            #[trigger] m2[k],
                            rs[t].id,
                        ) by {
                            if k < m2.len() - 1 {
                                let m = m2[k];
                                assert(member_linked(pre.sessions@, m, pre.rooms@[t].id));
                                let p = choose|p: int|
                                    0 <= p < pre.sessions@.len() && pre.sessions@[p].id == m
                                        && pre.sessions@[p].room == Some(pre.rooms@[t].id);
                                assert(p != i);
                                assert(ss[p].id == m && ss[p].room == Some(rs[t].id));
                            } else {
                                assert(m2[k] == req.id);
                                assert(ss[i as int].id == req.id && ss[i as int].room == Some(
                                    rs[t].id,
                                ));
                            }
                        }
                    }
                }
                assert forall|t: int| 0 <= t < ss.len() implies sess_ok(rs, #[trigger] ss[t]) by {
                    if t == i {
                        assert(rs[j as int].id == req.room);
                        assert(m2[m2.len() - 1] == req.id);
                        assert(rs[j as int].members@.contains(req.id));
                    } else {
                        assert(ss[t] == pre.sessions@[t]);
                        assert(sess_ok(pre.rooms@, ss[t]));
                        if ss[t].room is Some {
                            let rid2 = ss[t].room->0;
                            let j2 = choose|j2: int|
                                0 <= j2 < pre.rooms@.len() && pre.rooms@[j2].id == rid2
                                    && pre.rooms@[j2].members@.contains(ss[t].id);
                            if j2 == j {
                                let k = choose|k: int|
                                    0 <= k < pre.rooms@[j2].members@.len()
                                        && pre.rooms@[j2].members@[k] == ss[t].id;
                                assert(m2[k] == ss[t].id);
                                assert(rs[j2].members@.contains(ss[t].id));
                            } else {
                                assert(rs[j2] == pre.rooms@[j2]);
                            }
                        }
                    }
                }
            }
        }
        let ready = full_room(&self.rooms[j]);
        ds.push(Delivery { to: req.id, msg: crate::server::Message::ReadyJoin { room: ready } });
        let n = self.rooms[j].members.len();
        let mut k: usize = 0;
        while k < n
            invariant
                j < self.rooms@.len(),
                n == self.rooms@[j as int].members@.len(),
                k <= n,
                ds@.len() == 1 + 2 * k,
                ds@[0].to == req.id,
                (ds@[0].msg matches crate::server::Message::ReadyJoin { room } && full_of(
                    self.rooms@[j as int],
                    room,
                )),
                forall|u: int|
                    1 <= u < ds@.len() ==> (#[trigger] ds@[u]).to == self.rooms@[j as int].members@[
                        (u - 1) / 2
                    ] && (if (u - 1) % 2 == 0 {
                        ds@[u].msg == crate::server::Message::Alert(Alert::Join { user: req.id })
                    } else {
                        ds@[u].msg matches crate::server::Message::RoomUpdate { room } && full_of(
                            self.rooms@[j as int],
                            room,
                        )
                    }),
            decreases n - k,
        {
            let to = self.rooms[j].members[k];
            ds.push(Delivery { to, msg: crate::server::Message::Alert(Alert::Join { user: req.id }) });
            let update = full_room(&self.rooms[j]);
            ds.push(Delivery { to, msg: crate::server::Message::RoomUpdate { room: update } });
            k += 1;
        }
        ds
    }
}

/// Index of `id` in a member list; meaningful when the list has no
/// duplicates and contains `id`.
pub open spec fn mem_pos(ms: Seq<UserId>, id: UserId) -> int {
    choose|k: int| 0 <= k < ms.len() && ms[k] == id
}

/// What leaving room `rid` does to the room list, and which messages it
/// produces, when session `id` departs. If `id` was the last member the room
/// is destroyed and every connected session is told exactly once; otherwise
/// the member list shrinks, ownership passes to the first remaining member if
/// the owner left, and each remaining member receives a quit alert followed
/// by the updated room record.
pub open spec fn departure_ok(
    pre: Host,
    post_rooms: Seq<Room>,
    id: UserId,
    rid: RoomId,
    ds: Seq<Delivery>,
) -> bool {
    let j = room_pos(pre.rooms@, rid);
    let r = room_at(pre.rooms@, rid);
    if r.members@.len() <= 1 {
        &&& post_rooms == pre.rooms@.remove(j)
        &&& ds.len() == pre.sessions@.len()
        &&& (forall|k: int|
            0 <= k < ds.len() ==> (#[trigger] ds[k]).to == pre.sessions@[k].id && ds[k].msg
                == crate::server::Message::DestroyRoom { room: rid })
    } else {
        let k0 = mem_pos(r.members@, id);
        let m2 = r.members@.remove(k0);
        &&& post_rooms.len() == pre.rooms@.len()
        &&& (forall|t: int| 0 <= t < pre.rooms@.len() && t != j ==> post_rooms[t] == pre.rooms@[t])
        &&& post_rooms[j].id == rid
        &&& post_rooms[j].title == r.title
        &&& post_rooms[j].owner == (if r.owner == id {
            m2[0]
        } else {
            r.owner
        })
        &&& post_rooms[j].members@ == m2
        &&& ds.len() == 2 * m2.len()
        &&& (forall|u: int|
            0 <= u < ds.len() ==> (#[trigger] ds[u]).to == m2[u / 2] && (if u % 2 == 0 {
                ds[u].msg == crate::server::Message::Alert(Alert::Quit { user: id })
            } else {
                ds[u].msg matches crate::server::Message::RoomUpdate { room } && full_of(
                    post_rooms[j],
                    room,
                )
            }))
    }
}

/// Exactly what a quit-room request does: nothing at all when the sender is
/// unknown or sits in no room; otherwise the sender's room reference is
/// cleared and the room side follows `departure_ok`.
pub open spec fn quit_effect(pre: Host, post: Host, id: UserId, ds: Seq<Delivery>) -> bool {
    match current_room(pre.sessions@, id) {
        None => {
            &&& post.sessions@ == pre.sessions@
            &&& post.rooms@ == pre.rooms@
            &&& ds.len() == 0
        },
        Some(rid) => {
            let i = sess_pos(pre.sessions@, id);
            &&& post.sessions@.len() == pre.sessions@.len()
            &&& (forall|t: int|
                0 <= t < pre.sessions@.len() && t != i ==> post.sessions@[t]
                    == pre.sessions@[t])
            &&& post.sessions@[i].id == id
            &&& post.sessions@[i].name == pre.sessions@[i].name
            &&& post.sessions@[i].room is None
            &&& departure_ok(pre, post.rooms@, id, rid, ds)
        },
    }
}

/// Exactly what a disconnect does: nothing at all for an identity that is
/// not (or no longer) connected; otherwise the quit-room step runs first,
/// then the session is removed and every remaining session is told exactly
/// once.
pub open spec fn disconnect_effect(pre: Host, post: Host, id: UserId, ds: Seq<Delivery>) -> bool {
    if !has_sess(pre.sessions@, id) {
        &&& post.sessions@ == pre.sessions@
        &&& post.rooms@ == pre.rooms@
        &&& ds.len() == 0
    } else {
        exists|mid: Host, ds1: Seq<Delivery>|
            {
                &&& #[trigger] quit_effect(pre, mid, id, ds1)
                &&& post.rooms@ == mid.rooms@
                &&& post.sessions@ == mid.sessions@.remove(sess_pos(mid.sessions@, id))
                &&& ds.len() == ds1.len() + post.sessions@.len()
                &&& ds.subrange(0, ds1.len() as int) == ds1
                &&& (forall|k: int|
                    ds1.len() <= k < ds.len() ==> (#[trigger] ds[k]).to == post.sessions@[k
                        - ds1.len()].id && ds[k].msg == (crate::server::Message::Disconnected {
                        id,
                    }))
            }
    }
}

fn find_member(ms: &Vec<UserId>, id: UserId) -> (r: Option<usize>)
    ensures
        match r {
            Some(k) => k < ms@.len() && ms@[k as int] == id,
            None => !ms@.contains(id),
        },
{
    let mut k: usize = 0;
    while k < ms.len()
        invariant
            k <= ms@.len(),
            forall|t: int| 0 <= t < k ==> ms@[t] != id,
        decreases ms@.len() - k,
    {
        if ms[k] == id {
            return Some(k);
        }
        k += 1;
    }
    None
}

impl Host {
    /// Remove the sender from its current room, if it has one: the room is
    /// destroyed when it empties, ownership passes to the first remaining
    /// member when the owner leaves, and the affected sessions are notified.
    #[verifier::rlimit(100)]
    pub fn quit_room(&mut self, req: QuitRoom) -> (ds: Vec<Delivery>)
        requires
            old(self).wf(),
        ensures
            final(self).wf(),
            quit_effect(*old(self), *final(self), req.id, ds@),
    {
        let ghost pre = *self;
        let mut ds: Vec<Delivery> = Vec::new();
        let i = match self.find_session(req.id) {
            Some(i) => i,
            None => {
                return ds;
            },
        };
        proof {
            lemma_sess_at_index(pre.sessions@, i as int);
        }
        let rid = match self.sessions[i].room {
            Some(rid) => rid,
            None => {
                return ds;
            },
        };
        proof {
            assert(current_room(pre.sessions@, req.id) == Some(rid));
            assert(sess_ok(pre.rooms@, pre.sessions@[i as int]));
        }
        self.sessions[i].room = None;
        let j = self.find_room(rid).unwrap();
        proof {
            lemma_room_at_index(pre.rooms@, j as int);
            assert(room_ok(pre.sessions@, pre.rooms@[j as int]));
        }
        let k0 = find_member(&self.rooms[j].members, req.id).unwrap();
        let ghost ms = pre.rooms@[j as int].members@;
        proof {
            // k0 is the one position of the sender in the member list
            assert(0 <= mem_pos(ms, req.id) < ms.len() && ms[mem_pos(ms, req.id)] == req.id);
            assert(mem_pos(ms, req.id) == k0 as int) by {
                let kp = mem_pos(ms, req.id);
                if kp < k0 as int {
                    assert(ms[kp] != ms[k0 as int]);
                } else if kp > k0 as int {
                    assert(ms[k0 as int] != ms[kp]);
                }
            }
        }
        self.rooms[j].members.remove(k0);
        let ghost m2 = ms.remove(k0 as int);
        proof {
            ms.remove_ensures(k0 as int);
            // every remaining member is someone else
            assert forall|t: int| 0 <= t < m2.len() implies m2[t] != req.id by {
                if t < k0 as int {
                    assert(m2[t] == ms[t]);
                    assert(ms[t] != ms[k0 as int]);
                } else {
                    assert(m2[t] == ms[t + 1]);
                    assert(ms[t + 1] != ms[k0 as int]);
                }
            }
            assert(m2.no_duplicates()) by {
                assert forall|a: int, b: int|
                    0 <= a < m2.len() && 0 <= b < m2.len() && a != b implies m2[a] != m2[b] by {
                    let a2 = if a < k0 as int { a } else { a + 1 };
                    let b2 = if b < k0 as int { b } else { b + 1 };
                    assert(m2[a] == ms[a2] && m2[b] == ms[b2]);
                    assert(ms[a2] != ms[b2]);
                }
            }
        }
        if self.rooms[j].members.len() == 0 {
            // the room emptied: destroy it and tell everyone
            proof {
                assert(ms.len() == 1);
            }
            self.rooms.remove(j);
            proof {
                let ss = self.sessions@;
                let rs = self.rooms@;
                assert(rs == pre.rooms@.remove(j as int));
                pre.rooms@.remove_ensures(j as int);
                assert(self.wf()) by {
                    assert(sess_ids_unique(ss));
                    assert(room_ids_unique(rs)) by {
                        assert forall|a: int, b: int| 0 <= a < b < rs.len() implies (
                        #[trigger] rs[a]).id != (#[trigger] rs[b]).id by {
                            let a2 = if a < j as int { a } else { a + 1 };
                            let b2 = if b < j as int { b } else { b + 1 };
                            assert(rs[a] == pre.rooms@[a2] && rs[b] == pre.rooms@[b2]);
                        }
                    }
                    assert forall|t: int| 0 <= t < rs.len() implies room_ok(
                        ss,
                        #[trigger] rs[t],
                    ) by {
                        let t2 = if t < j as int { t } else { t + 1 };
                        assert(rs[t] == pre.rooms@[t2]);
                        assert(room_ok(pre.sessions@, pre.rooms@[t2]));
                        assert(rs[t].id != rid) by {
                            if t2 < j as int {
                                assert(pre.rooms@[t2].id != pre.rooms@[j as int].id);
                            } else {
                                assert(pre.rooms@[j as int].id != pre.rooms@[t2].id);
                            }
                        }
                        assert forall|k: int| 0 <= k < rs[t].members@.len() implies member_linked(
                            ss,
                            #[trigger] rs[t].members@[k],
                            rs[t].id,
                        ) by {
                            let m = rs[t].members@[k];
                            let p = choose|p: int|
                                0 <= p < pre.sessions@.len() && pre.sessions@[p].id == m
                                    && pre.sessions@[p].room == Some(rs[t].id);
                            assert(p != i);
                            assert(ss[p].id == m && ss[p].room == Some(rs[t].id));
                        }
                    }
                    assert forall|t: int| 0 <= t < ss.len() implies sess_ok(
                        rs,
                        #[trigger] ss[t],
                    ) by {
                        if t != i {
                            assert(ss[t] == pre.sessions@[t]);
                            assert(sess_ok(pre.rooms@, pre.sessions@[t]));
                            if ss[t].room is Some {
                                let rid2 = ss[t].room->0;
                                let j2 = choose|j2: int|
                                    0 <= j2 < pre.rooms@.len() && pre.rooms@[j2].id == rid2
                                        && pre.rooms@[j2].members@.contains(ss[t].id);
                                assert(j2 != j as int) by {
                                    if j2 == j as int {
                                        let k = choose|k: int|
                                            0 <= k < ms.len() && ms[k] == ss[t].id;
                                        assert(k == 0);
                                        assert(ss[t].id == req.id);
                                        assert(pre.sessions@[t].id == pre.sessions@[i as int].id);
                                        if t < i as int {
                                            assert(pre.sessions@[t].id != pre.sessions@[i as int].id);
                                        } else {
                                            assert(pre.sessions@[i as int].id != pre.sessions@[t].id);
                                        }
                                    }
                                }
                                let j3 = if j2 < j as int { j2 } else { j2 - 1 };
                                assert(rs[j3] == pre.rooms@[j2]);
                            }
                        }
                    }
                }
            }
            let n = self.sessions.len();
            let mut k: usize = 0;
            while k < n
                invariant
                    n == self.sessions@.len(),
                    n == pre.sessions@.len(),
                    forall|t: int|
                        0 <= t < n ==> (#[trigger] self.sessions@[t]).id == pre.sessions@[t].id,
                    k <= n,
                    ds@.len() == k,
                    forall|t: int|
                        0 <= t < k ==> (#[trigger] ds@[t]).to == pre.sessions@[t].id && ds@[t].msg
                            == (crate::server::Message::DestroyRoom { room: rid }),
                decreases n - k,
            {
                let to = self.sessions[k].id;
                ds.push(Delivery { to, msg: crate::server::Message::DestroyRoom { room: rid } });
                k += 1;
            }
            proof {
                assert(departure_ok(pre, self.rooms@, req.id, rid, ds@));
            }
        } else {
            // the room survives: transfer ownership if the owner left
            if self.rooms[j].owner == req.id {
                let new_owner = self.rooms[j].members[0];
                self.rooms[j].owner = new_owner;
            }
            proof {
                let ss = self.sessions@;
                let rs = self.rooms@;
                assert(rs[j as int].members@ == m2);
                assert(self.wf()) by {
                    assert(sess_ids_unique(ss));
                    assert(room_ids_unique(rs));
                    assert forall|t: int| 0 <= t < rs.len() implies room_ok(
                        ss,
                        #[trigger] rs[t],
                    ) by {
                        assert(room_ok(pre.sessions@, pre.rooms@[t]));
                        if t != j as int {
                            assert(rs[t] == pre.rooms@[t]);
                            assert(rs[t].id != rid) by {
                                if t < j as int {
                                    assert(pre.rooms@[t].id != pre.rooms@[j as int].id);
                                } else {
                                    assert(pre.rooms@[j as int].id != pre.rooms@[t].id);
                                }
                            }
                            assert forall|k: int|
                                0 <= k < rs[t].members@.len() implies member_linked(
                                ss,
                                #[trigger] rs[t].members@[k],
                                rs[t].id,
                            ) by {
                                let m = rs[t].members@[k];
                                assert(member_linked(pre.sessions@, m, pre.rooms@[t].id));
                                assert(pre.sessions@[i as int].room == Some(rid));
                                let p = choose|p: int|
                                    0 <= p < pre.sessions@.len() && pre.sessions@[p].id == m
                                        && pre.sessions@[p].room == Some(rs[t].id);
                                assert(p != i);
                                assert(ss[p].id == m && ss[p].room == Some(rs[t].id));
                            }
                        } else {
                            assert(rs[t].members@.len() >= 1);
                            assert(rs[t].members@.contains(rs[t].owner)) by {
                                if pre.rooms@[t].owner == req.id {
                                    assert(rs[t].owner == m2[0]);
                                    assert(m2.contains(m2[0]));
                                } else {
                                    let k = choose|k: int|
                                        0 <= k < ms.len() && ms[k] == pre.rooms@[t].owner;
                                    assert(k != k0 as int);
                                    let k2 = if k < k0 as int { k } else { k - 1 };
                                    assert(m2[k2] == ms[k]);
                                    assert(m2.contains(pre.rooms@[t].owner));
                                }
                            }
                            assert forall|k: int| 0 <= k < m2.len() implies member_linked(
                                ss,
                                #[trigger] m2[k],
                                rs[t].id,
                            ) by {
                                let m = m2[k];
                                assert(m != req.id);
                                assert(ms.contains(m)) by {
                                    let k2 = if k < k0 as int { k } else { k + 1 };
                                    assert(ms[k2] == m);
                                }
                                assert(member_linked(pre.sessions@, m, pre.rooms@[t].id));
                                let p = choose|p: int|
                                    0 <= p < pre.sessions@.len() && pre.sessions@[p].id == m
                                        && pre.sessions@[p].room == Some(pre.rooms@[t].id);
                                assert(p != i) by {
                                    if p == i {
                                        assert(pre.sessions@[i as int].id == req.id);
                                    }
                                }
                                assert(ss[p].id == m && ss[p].room == Some(rs[t].id));
                            }
                        }
                    }
                    assert forall|t: int| 0 <= t < ss.len() implies sess_ok(
                        rs,
                        #[trigger] ss[t],
                    ) by {
                        if t != i {
                            assert(ss[t] == pre.sessions@[t]);
                            assert(sess_ok(pre.rooms@, pre.sessions@[t]));
                            if ss[t].room is Some {
                                let rid2 = ss[t].room->0;
                                let j2 = choose|j2: int|
                                    0 <= j2 < pre.rooms@.len() && pre.rooms@[j2].id == rid2
                                        && pre.rooms@[j2].members@.contains(ss[t].id);
                                if j2 == j as int {
                                    assert(ss[t].id != req.id) by {
                                        if t < i as int {
                                            assert(pre.sessions@[t].id != pre.sessions@[i as int].id);
                                        } else {
                                            assert(pre.sessions@[i as int].id != pre.sessions@[t].id);
                                        }
                                    }
                                    let k = choose|k: int|
                                        0 <= k < ms.len() && ms[k] == ss[t].id;
                                    assert(k != k0 as int);
                                    let k2 = if k < k0 as int { k } else { k - 1 };
                                    assert(m2[k2] == ms[k]);
                                    assert(rs[j2].members@.contains(ss[t].id));
                                } else {
                                    assert(rs[j2] == pre.rooms@[j2]);
                                }
                            }
                        }
                    }
                }
            }
            let n = self.rooms[j].members.len();
            let mut t: usize = 0;
            while t < n
                invariant
                    j < self.rooms@.len(),
                    n == self.rooms@[j as int].members@.len(),
                    self.rooms@[j as int].members@ == m2,
                    t <= n,
                    ds@.len() == 2 * t,
                    forall|u: int|
                        0 <= u < ds@.len() ==> (#[trigger] ds@[u]).to == m2[u / 2] && (if u % 2
                            == 0 {
                            ds@[u].msg == crate::server::Message::Alert(
                                Alert::Quit { user: req.id },
                            )
                        } else {
                            ds@[u].msg matches crate::server::Message::RoomUpdate { room }
                                && full_of(self.rooms@[j as int], room)
                        }),
                decreases n - t,
            {
                let to = self.rooms[j].members[t];
                ds.push(
                    Delivery { to, msg: crate::server::Message::Alert(Alert::Quit { user: req.id }) },
                );
                let update = full_room(&self.rooms[j]);
                ds.push(Delivery { to, msg: crate::server::Message::RoomUpdate { room: update } });
                t += 1;
            }
            proof {
                assert(departure_ok(pre, self.rooms@, req.id, rid, ds@));
            }
        }
        ds
    }

    /// Tear a connection down: run the quit-room step for its session, then
    /// remove the session and tell every remaining session. A no-op for an
    /// identity that is not (or no longer) connected, so repeated disconnect
    /// notifications are harmless.
    #[verifier::rlimit(100)]
    pub fn disconnect(&mut self, req: Disconnect) -> (ds: Vec<Delivery>)
        requires
            old(self).wf(),
        ensures
            final(self).wf(),
            disconnect_effect(*old(self), *final(self), req.id, ds@),
            forall|u: UserId|
                has_sess(final(self).sessions@, u) <==> (has_sess(old(self).sessions@, u) && u
                    != req.id),
    {
        let ghost pre = *self;
        let mut ds = self.quit_room(QuitRoom { id: req.id });
        let ghost mid = *self;
        let ghost ds1 = ds@;
        // after the quit step the session set is what it was
        proof {
            assert forall|u: UserId|
                has_sess(mid.sessions@, u) == has_sess(pre.sessions@, u) by {
                match current_room(pre.sessions@, req.id) {
                    None => {},
                    Some(_) => {
                        let i0 = sess_pos(pre.sessions@, req.id);
                        assert forall|t: int|
                            0 <= t < pre.sessions@.len() implies (
                        #[trigger] mid.sessions@[t]).id == pre.sessions@[t].id by {
                            if t != i0 {
                                assert(mid.sessions@[t] == pre.sessions@[t]);
                            }
                        }
                        if has_sess(mid.sessions@, u) {
                            let p = choose|p: int|
                                0 <= p < mid.sessions@.len() && mid.sessions@[p].id == u;
                            assert(pre.sessions@[p].id == u);
                        }
                        if has_sess(pre.sessions@, u) {
                            let p = choose|p: int|
                                0 <= p < pre.sessions@.len() && pre.sessions@[p].id == u;
                            assert(mid.sessions@[p].id == u);
                        }
                    },
                }
            }
        }
        let i = match self.find_session(req.id) {
            Some(i) => i,
            None => {
                proof {
                    assert(!has_sess(pre.sessions@, req.id));
                    assert(current_room(pre.sessions@, req.id) is None);
                }
                return ds;
            },
        };
        proof {
            lemma_sess_at_index(mid.sessions@, i as int);
            // the departing session already has no room reference
            assert(mid.sessions@[i as int].room is None) by {
                match current_room(pre.sessions@, req.id) {
                    None => {
                        assert(has_sess(pre.sessions@, req.id));
                        assert(sess_at(pre.sessions@, req.id).room is None);
                        let i0 = sess_pos(pre.sessions@, req.id);
                        if i0 != i as int {
                            assert(mid.sessions@[i0].id == req.id);
                        }
                    },
                    Some(_) => {
                        let i0 = sess_pos(pre.sessions@, req.id);
                        assert(mid.sessions@[i0].id == req.id && mid.sessions@[i0].room is None);
                        if i0 != i as int {
                            assert(mid.sessions@[i0].id == mid.sessions@[i as int].id);
                        }
                    },
                }
            }
        }
        self.sessions.remove(i);
        proof {
            let ss = self.sessions@;
            let rs = self.rooms@;
            assert(ss == mid.sessions@.remove(i as int));
            mid.sessions@.remove_ensures(i as int);
            assert(rs == mid.rooms@);
            assert(self.wf()) by {
                assert(sess_ids_unique(ss)) by {
                    assert forall|a: int, b: int| 0 <= a < b < ss.len() implies (
                    #[trigger] ss[a]).id != (#[trigger] ss[b]).id by {
                        let a2 = if a < i as int { a } else { a + 1 };
                        let b2 = if b < i as int { b } else { b + 1 };
                        assert(ss[a] == mid.sessions@[a2] && ss[b] == mid.sessions@[b2]);
                    }
                }
                assert(room_ids_unique(rs));
                assert forall|t: int| 0 <= t < rs.len() implies room_ok(ss, #[trigger] rs[t]) by {
                    assert(room_ok(mid.sessions@, mid.rooms@[t]));
                    assert forall|k: int| 0 <= k < rs[t].members@.len() implies member_linked(
                        ss,
                        #[trigger] rs[t].members@[k],
                        rs[t].id,
                    ) by {
                        let m = rs[t].members@[k];
                        assert(member_linked(mid.sessions@, m, rs[t].id));
                        let p = choose|p: int|
                            0 <= p < mid.sessions@.len() && mid.sessions@[p].id == m
                                && mid.sessions@[p].room == Some(rs[t].id);
                        assert(p != i);
                        let p2 = if p < i as int { p } else { p - 1 };
                        assert(ss[p2] == mid.sessions@[p]);
                    }
                }
                assert forall|t: int| 0 <= t < ss.len() implies sess_ok(rs, #[trigger] ss[t]) by {
                    let t2 = if t < i as int { t } else { t + 1 };
                    assert(ss[t] == mid.sessions@[t2]);
                    assert(sess_ok(mid.rooms@, mid.sessions@[t2]));
                }
            }
            assert forall|u: UserId|
                has_sess(ss, u) <==> (has_sess(mid.sessions@, u) && u != req.id) by {
                if has_sess(ss, u) {
                    let p = choose|p: int| 0 <= p < ss.len() && ss[p].id == u;
                    let p2 = if p < i as int { p } else { p + 1 };
                    assert(mid.sessions@[p2].id == u);
                    assert(p2 != i as int);
                    if u == req.id {
                        assert(mid.sessions@[i as int].id == u);
                        if p2 < i as int {
                            assert(mid.sessions@[p2].id != mid.sessions@[i as int].id);
                        } else {
                            assert(mid.sessions@[i as int].id != mid.sessions@[p2].id);
                        }
                    }
                }
                if has_sess(mid.sessions@, u) && u != req.id {
                    let p = choose|p: int|
                        0 <= p < mid.sessions@.len() && mid.sessions@[p].id == u;
                    assert(p != i);
                    let p2 = if p < i as int { p } else { p - 1 };
                    assert(ss[p2].id == u);
                }
            }
        }
        let n = self.sessions.len();
        let mut k: usize = 0;
        while k < n
            invariant
                n == self.sessions@.len(),
                k <= n,
                ds@.len() == ds1.len() + k,
                ds@.subrange(0, ds1.len() as int) == ds1,
                forall|t: int|
                    ds1.len() <= t < ds@.len() ==> (#[trigger] ds@[t]).to == self.sessions@[t
                        - ds1.len()].id && ds@[t].msg == (crate::server::Message::Disconnected {
                        id: req.id,
                    }),
            decreases n - k,
        {
            let to = self.sessions[k].id;
            ds.push(
                Delivery { to, msg: crate::server::Message::Disconnected { id: req.id } },
            );
            k += 1;
            proof {
                assert(ds@.subrange(0, ds1.len() as int) =~= ds1);
            }
        }
        proof {
            assert(quit_effect(pre, mid, req.id, ds1));
            lemma_sess_at_index(mid.sessions@, i as int);
            assert(self.sessions@ == mid.sessions@.remove(sess_pos(mid.sessions@, req.id)));
            assert(disconnect_effect(pre, *self, req.id, ds@));
        }
        ds
    }
}

/// One client-originated request, tagged with the sender's identity: what a
/// connection handler forwards to the host.
#[derive(Debug, Clone, PartialEq)]
pub enum Request {
    Chat(Chat),
    CreateRoom(CreateRoom),
    GetRoomDetail(GetRoomDetail),
    JoinRoom(JoinRoom),
    QuitRoom(QuitRoom),
}

impl Host {
    /// Handle one forwarded client request to completion: the single
    /// serialization point that keeps the state consistent.
    pub fn handle(&mut self, req: Request) -> (ds: Vec<Delivery>)
        requires
            old(self).wf(),
        ensures
            final(self).wf(),
            match req {
                Request::Chat(c) => final(self).sessions@ == old(self).sessions@
                    && final(self).rooms@ == old(self).rooms@
                    && chat_deliveries(*old(self), c, ds@),
                Request::CreateRoom(c) => create_effect(*old(self), *final(self), c, ds@),
                Request::GetRoomDetail(g) => final(self).sessions@ == old(self).sessions@
                    && final(self).rooms@ == old(self).rooms@ && detail_deliveries(
                    *old(self),
                    g,
                    ds@,
                ),
                Request::JoinRoom(j) => join_effect(*old(self), *final(self), j, ds@),
                Request::QuitRoom(q) => quit_effect(*old(self), *final(self), q.id, ds@),
            },
    {
        match req {
            Request::Chat(c) => self.chat(c),
            Request::CreateRoom(c) => self.create_room(c),
            Request::GetRoomDetail(g) => self.get_room_detail(g),
            Request::JoinRoom(j) => self.join_room(j),
            Request::QuitRoom(q) => self.quit_room(q),
        }
    }
}

/// Disconnecting the same identity twice is a no-op the second time: the
/// state does not change again and nothing more is broadcast.
pub proof fn lemma_disconnect_idempotent(
    s0: Host,
    s1: Host,
    s2: Host,
    id: UserId,
    d1: Seq<Delivery>,
    d2: Seq<Delivery>,
)
    requires
        disconnect_effect(s0, s1, id, d1),
        disconnect_effect(s1, s2, id, d2),
        forall|u: UserId|
            has_sess(s1.sessions@, u) <==> (has_sess(s0.sessions@, u) && u != id),
    ensures
        s2.sessions@ == s1.sessions@,
        s2.rooms@ == s1.rooms@,
        d2.len() == 0,
{
    assert(!has_sess(s1.sessions@, id));
}

/// One connection event, as the session book-keeping sees it.
pub enum SessionEvent {
    Joined(UserId),
    Left(UserId),
}

/// The set of identities connected after a trace of connection events,
/// starting from an empty authority.
pub open spec fn ids_after(evs: Seq<SessionEvent>) -> Set<UserId>
    decreases evs.len(),
{
    if evs.len() == 0 {
        Set::empty()
    } else {
        match evs.last() {
            SessionEvent::Joined(id) => ids_after(evs.drop_last()).insert(id),
            SessionEvent::Left(id) => ids_after(evs.drop_last()).remove(id),
        }
    }
}

/// Identity `u` connected at some point and never disconnected afterwards.
pub open spec fn live_after(evs: Seq<SessionEvent>, u: UserId) -> bool {
    exists|i: int|
        0 <= i < evs.len() && (#[trigger] evs[i]) == SessionEvent::Joined(u) && (forall|j: int|
            i < j < evs.len() ==> (#[trigger] evs[j]) != SessionEvent::Left(u))
}

/// The set of identities of the connected sessions.
pub open spec fn sess_id_set(ss: Seq<Session>) -> Set<UserId> {
    Set::new(|u: UserId| has_sess(ss, u))
}

/// For every trace of connect and disconnect events, the session identity
/// set contains exactly the identities that connected and have not
/// disconnected since.
pub proof fn lemma_ids_after_trace(evs: Seq<SessionEvent>, u: UserId)
    ensures
        ids_after(evs).contains(u) <==> live_after(evs, u),
    decreases evs.len(),
{
    if evs.len() == 0 {
        assert(!live_after(evs, u));
    } else {
        let prev = evs.drop_last();
        let n = evs.len() - 1;
        lemma_ids_after_trace(prev, u);
        assert(forall|j: int| 0 <= j < n ==> prev[j] == evs[j]);
        match evs.last() {
            SessionEvent::Joined(id) => {
                if id == u {
                    assert(evs[n] == SessionEvent::Joined(u));
                    assert(forall|j: int| n < j < evs.len() ==> evs[j] != SessionEvent::Left(u));
                    assert(live_after(evs, u));
                    assert(ids_after(evs).contains(u));
                } else {
                    if live_after(prev, u) {
                        let i = choose|i: int|
                            0 <= i < prev.len() && prev[i] == SessionEvent::Joined(u) && (forall|
                                j: int,
                            | i < j < prev.len() ==> prev[j] != SessionEvent::Left(u));
                        assert(evs[i] == SessionEvent::Joined(u));
                        assert forall|j: int| i < j < evs.len() implies (#[trigger] evs[j])
                            != SessionEvent::Left(u) by {
                            if j < n {
                                assert(prev[j] != SessionEvent::Left(u));
                            }
                        }
                        assert(live_after(evs, u));
                    }
                    if live_after(evs, u) {
                        let i = choose|i: int|
                            0 <= i < evs.len() && evs[i] == SessionEvent::Joined(u) && (forall|
                                j: int,
                            | i < j < evs.len() ==> evs[j] != SessionEvent::Left(u));
                        assert(i != n);
                        assert(prev[i] == SessionEvent::Joined(u));
                        assert(live_after(prev, u));
                    }
                }
            },
            SessionEvent::Left(id) => {
                if id == u {
                    assert(!ids_after(evs).contains(u));
                    assert(!live_after(evs, u)) by {
                        if live_after(evs, u) {
                            let i = choose|i: int|
                                0 <= i < evs.len() && evs[i] == SessionEvent::Joined(u) && (
                                forall|j: int|
                                    i < j < evs.len() ==> evs[j] != SessionEvent::Left(u));
                            assert(i != n);
                            assert(evs[n] != SessionEvent::Left(u));
                        }
                    }
                } else {
                    if live_after(prev, u) {
                        let i = choose|i: int|
                            0 <= i < prev.len() && prev[i] == SessionEvent::Joined(u) && (forall|
                                j: int,
                            | i < j < prev.len() ==> prev[j] != SessionEvent::Left(u));
                        assert(evs[i] == SessionEvent::Joined(u));
                        assert forall|j: int| i < j < evs.len() implies (#[trigger] evs[j])
                            != SessionEvent::Left(u) by {
                            if j < n {
                                assert(prev[j] != SessionEvent::Left(u));
                            }
                        }
                        assert(live_after(evs, u));
                    }
                    if live_after(evs, u) {
                        let i = choose|i: int|
                            0 <= i < evs.len() && evs[i] == SessionEvent::Joined(u) && (forall|
                                j: int,
                            | i < j < evs.len() ==> evs[j] != SessionEvent::Left(u));
                        assert(i != n);
                        assert(prev[i] == SessionEvent::Joined(u));
                        assert(live_after(prev, u));
                    }
                }
            },
        }
    }
}

/// A connect step moves the session identity set exactly as recording a
/// `Joined` event does.
pub proof fn lemma_connect_step(pre: Host, post: Host, id: UserId, evs: Seq<SessionEvent>)
    requires
        sess_id_set(pre.sessions@) == ids_after(evs),
        forall|u: UserId|
            has_sess(post.sessions@, u) <==> (has_sess(pre.sessions@, u) || u == id),
    ensures
        sess_id_set(post.sessions@) == ids_after(evs.push(SessionEvent::Joined(id))),
{
    let evs2 = evs.push(SessionEvent::Joined(id));
    assert(evs2.drop_last() =~= evs);
    assert(evs2.last() == SessionEvent::Joined(id));
    assert(sess_id_set(post.sessions@) =~= ids_after(evs).insert(id));
}

/// A disconnect step moves the session identity set exactly as recording a
/// `Left` event does.
pub proof fn lemma_disconnect_step(pre: Host, post: Host, id: UserId, evs: Seq<SessionEvent>)
    requires
        sess_id_set(pre.sessions@) == ids_after(evs),
        forall|u: UserId|
            has_sess(post.sessions@, u) <==> (has_sess(pre.sessions@, u) && u != id),
    ensures
        sess_id_set(post.sessions@) == ids_after(evs.push(SessionEvent::Left(id))),
{
    let evs2 = evs.push(SessionEvent::Left(id));
    assert(evs2.drop_last() =~= evs);
    assert(evs2.last() == SessionEvent::Left(id));
    assert(sess_id_set(post.sessions@) =~= ids_after(evs).remove(id));
}

} // verus!
