use kiwitu::game::{Chat, Connect, CreateRoom, Delivery, Disconnect, GetRoomDetail, Host, JoinRoom, QuitRoom, Request};
use kiwitu::server::Message;
use kiwitu::{Alert, RoomBrief, RoomId, UserId};

const ALPHABET: &str = "0123456789ABCDEFGHIJKLMNOPQRSTUVWXYZabcdefghijklmnopqrstuvwxyz";

fn expected_guest_name(id: usize) -> String {
    let chars: Vec<char> = ALPHABET.chars().collect();
    let mut name = String::from("GUEST_");
    let mut rest = id;
    for _ in 0..4 {
        name.push(chars[rest % 62]);
        rest /= 62;
    }
    name
}

fn connect(h: &mut Host) -> UserId {
    let (welcome, _) = h.connect(Connect {});
    welcome.id
}

fn make_room(h: &mut Host, owner: UserId, title: &str) -> RoomId {
    let before: Vec<RoomId> = h.rooms.iter().map(|r| r.id).collect();
    let ds = h.create_room(CreateRoom {
        id: owner,
        room: RoomBrief { id: 0, title: String::from(title) },
    });
    assert!(!ds.is_empty(), "room creation was rejected");
    h.rooms
        .iter()
        .map(|r| r.id)
        .find(|rid| !before.contains(rid))
        .expect("a new room id")
}

fn count_to(ds: &[Delivery], to: UserId) -> usize {
    ds.iter().filter(|d| d.to == to).count()
}

#[test]
fn connect_assigns_fresh_identity_and_welcomes() {
    let mut h = Host::new();
    let (w1, ds1) = h.connect(Connect {});
    assert_eq!(ds1.len(), 2);
    assert_eq!(ds1[0].to, w1.id);
    match &ds1[0].msg {
        Message::Welcome { id, users, rooms } => {
            assert_eq!(*id, w1.id);
            assert!(users.is_empty());
            assert!(rooms.is_empty());
        }
        other => panic!("expected a welcome, got {:?}", other),
    }
    let (w2, ds2) = h.connect(Connect {});
    assert_ne!(w1.id, w2.id);
    assert_eq!(ds2.len(), 3);
    match &ds2[0].msg {
        Message::Welcome { id, users, rooms } => {
            assert_eq!(*id, w2.id);
            assert_eq!(users.len(), 1);
            assert_eq!(users[0].id, w1.id);
            assert_eq!(users[0].name, expected_guest_name(w1.id));
            assert!(rooms.is_empty());
        }
        other => panic!("expected a welcome, got {:?}", other),
    }
}

#[test]
fn connect_broadcast_includes_newcomer() {
    let mut h = Host::new();
    let a = connect(&mut h);
    let (w2, ds2) = h.connect(Connect {});
    let connected: Vec<&Delivery> = ds2
        .iter()
        .filter(|d| matches!(d.msg, Message::Connected { .. }))
        .collect();
    assert_eq!(connected.len(), 2);
    assert!(connected.iter().any(|d| d.to == a));
    assert!(connected.iter().any(|d| d.to == w2.id));
    for d in connected {
        match &d.msg {
            Message::Connected { user } => {
                assert_eq!(user.id, w2.id);
                assert_eq!(user.name, expected_guest_name(w2.id));
            }
            _ => unreachable!(),
        }
    }
}

#[test]
fn guest_name_follows_identity_digits() {
    let mut h = Host::new();
    let id = connect(&mut h);
    assert!(id < 62 * 62 * 62 * 62);
    assert_eq!(h.sessions.len(), 1);
    assert_eq!(h.sessions[0].id, id);
    assert_eq!(h.sessions[0].name, expected_guest_name(id));
    assert!(h.sessions[0].room.is_none());
}

#[test]
fn chat_global_broadcast_trims_text() {
    let mut h = Host::new();
    let a = connect(&mut h);
    let b = connect(&mut h);
    let ds = h.chat(Chat { id: a, text: String::from("  hi  "), to: None });
    assert_eq!(ds.len(), 2);
    assert_eq!(count_to(&ds, a), 1);
    assert_eq!(count_to(&ds, b), 1);
    for d in &ds {
        assert_eq!(
            d.msg,
            Message::Chat { from: a, text: String::from("hi"), whisper: false }
        );
    }
}

#[test]
fn blank_chat_is_dropped() {
    let mut h = Host::new();
    let a = connect(&mut h);
    let _b = connect(&mut h);
    let ds = h.chat(Chat { id: a, text: String::from("   \t  "), to: None });
    assert!(ds.is_empty());
}

#[test]
fn whisper_reaches_target_only() {
    let mut h = Host::new();
    let a = connect(&mut h);
    let b = connect(&mut h);
    let _c = connect(&mut h);
    let ds = h.chat(Chat { id: a, text: String::from("psst"), to: Some(b) });
    assert_eq!(ds.len(), 1);
    assert_eq!(ds[0].to, b);
    assert_eq!(
        ds[0].msg,
        Message::Chat { from: a, text: String::from("psst"), whisper: true }
    );
}

#[test]
fn whisper_to_unknown_target_alerts_sender() {
    let mut h = Host::new();
    let a = connect(&mut h);
    let b = connect(&mut h);
    let stranger = a.wrapping_add(b).wrapping_add(17);
    assert!(h.sessions.iter().all(|s| s.id != stranger));
    let ds = h.chat(Chat { id: a, text: String::from("hi"), to: Some(stranger) });
    assert_eq!(ds.len(), 1);
    assert_eq!(ds[0].to, a);
    assert_eq!(ds[0].msg, Message::Alert(Alert::TargetNotFound));
}

#[test]
fn create_room_announces_and_links_session() {
    let mut h = Host::new();
    let a = connect(&mut h);
    let b = connect(&mut h);
    let ds = h.create_room(CreateRoom {
        id: a,
        room: RoomBrief { id: 0, title: String::from("  the lobby  ") },
    });
    assert_eq!(h.rooms.len(), 1);
    let room = &h.rooms[0];
    assert!(room.id < 1000);
    assert_eq!(room.title, "the lobby");
    assert_eq!(room.owner, a);
    assert_eq!(room.members, vec![a]);
    assert_eq!(h.sessions.iter().find(|s| s.id == a).unwrap().room, Some(room.id));
    assert_eq!(ds.len(), 3);
    assert_eq!(ds[0].to, a);
    match &ds[0].msg {
        Message::ReadyJoin { room: full } => {
            assert_eq!(full.id, room.id);
            assert_eq!(full.title, "the lobby");
            assert_eq!(full.owner, a);
            assert_eq!(full.members, vec![a]);
        }
        other => panic!("expected ready-join, got {:?}", other),
    }
    for d in &ds[1..] {
        match &d.msg {
            Message::NewRoom { room: brief } => {
                assert_eq!(brief.id, room.id);
                assert_eq!(brief.title, "the lobby");
            }
            other => panic!("expected new-room, got {:?}", other),
        }
    }
    assert_eq!(count_to(&ds[1..], a), 1);
    assert_eq!(count_to(&ds[1..], b), 1);
}

#[test]
fn create_room_rejected_inside_room() {
    let mut h = Host::new();
    let a = connect(&mut h);
    let _rid = make_room(&mut h, a, "first");
    let ds = h.create_room(CreateRoom {
        id: a,
        room: RoomBrief { id: 0, title: String::from("second") },
    });
    assert!(ds.is_empty());
    assert_eq!(h.rooms.len(), 1);
}

#[test]
fn create_room_rejected_blank_title() {
    let mut h = Host::new();
    let a = connect(&mut h);
    let ds = h.create_room(CreateRoom {
        id: a,
        room: RoomBrief { id: 0, title: String::from("   ") },
    });
    assert!(ds.is_empty());
    assert!(h.rooms.is_empty());
}

#[test]
fn join_room_updates_members_and_notifies() {
    let mut h = Host::new();
    let a = connect(&mut h);
    let b = connect(&mut h);
    let rid = make_room(&mut h, a, "spot");
    let ds = h.join_room(JoinRoom { id: b, room: rid });
    assert_eq!(h.rooms[0].members, vec![a, b]);
    assert_eq!(h.rooms[0].owner, a);
    assert_eq!(h.sessions.iter().find(|s| s.id == b).unwrap().room, Some(rid));
    assert_eq!(ds.len(), 5);
    assert!(matches!(&ds[0].msg, Message::ReadyJoin { .. }));
    assert_eq!(ds[0].to, b);
    // each member gets a join alert followed by the updated record
    for (k, member) in [a, b].iter().enumerate() {
        assert_eq!(ds[1 + 2 * k].to, *member);
        assert_eq!(ds[1 + 2 * k].msg, Message::Alert(Alert::Join { user: b }));
        assert_eq!(ds[2 + 2 * k].to, *member);
        match &ds[2 + 2 * k].msg {
            Message::RoomUpdate { room } => assert_eq!(room.members, vec![a, b]),
            other => panic!("expected room-update, got {:?}", other),
        }
    }
}

#[test]
fn join_room_rejected_when_absent_or_inside() {
    let mut h = Host::new();
    let a = connect(&mut h);
    let b = connect(&mut h);
    let rid = make_room(&mut h, a, "spot");
    let missing = rid.wrapping_add(1);
    assert!(h.rooms.iter().all(|r| r.id != missing));
    assert!(h.join_room(JoinRoom { id: b, room: missing }).is_empty());
    assert!(!h.join_room(JoinRoom { id: b, room: rid }).is_empty());
    // already inside: rejected
    assert!(h.join_room(JoinRoom { id: b, room: rid }).is_empty());
    assert_eq!(h.rooms[0].members, vec![a, b]);
}

#[test]
fn scoped_broadcast_stays_in_room() {
    let mut h = Host::new();
    let s = connect(&mut h);
    let t = connect(&mut h);
    let u = connect(&mut h);
    let rid = make_room(&mut h, s, "scope");
    h.join_room(JoinRoom { id: t, room: rid });
    let ds = h.chat(Chat { id: s, text: String::from("inside"), to: None });
    assert_eq!(ds.len(), 2);
    assert_eq!(count_to(&ds, s), 1);
    assert_eq!(count_to(&ds, t), 1);
    assert_eq!(count_to(&ds, u), 0);
}

#[test]
fn quit_transfers_ownership_to_first_remaining() {
    let mut h = Host::new();
    let a = connect(&mut h);
    let b = connect(&mut h);
    let c = connect(&mut h);
    let rid = make_room(&mut h, a, "trio");
    h.join_room(JoinRoom { id: b, room: rid });
    h.join_room(JoinRoom { id: c, room: rid });
    let ds = h.quit_room(QuitRoom { id: a });
    assert_eq!(h.rooms.len(), 1);
    assert_eq!(h.rooms[0].owner, b);
    assert_eq!(h.rooms[0].members, vec![b, c]);
    assert!(h.sessions.iter().find(|s| s.id == a).unwrap().room.is_none());
    assert_eq!(ds.len(), 4);
    for (k, member) in [b, c].iter().enumerate() {
        assert_eq!(ds[2 * k].to, *member);
        assert_eq!(ds[2 * k].msg, Message::Alert(Alert::Quit { user: a }));
        assert_eq!(ds[2 * k + 1].to, *member);
        match &ds[2 * k + 1].msg {
            Message::RoomUpdate { room } => {
                assert_eq!(room.owner, b);
                assert_eq!(room.members, vec![b, c]);
            }
            other => panic!("expected room-update, got {:?}", other),
        }
    }
}

#[test]
fn quit_last_member_destroys_room() {
    let mut h = Host::new();
    let a = connect(&mut h);
    let b = connect(&mut h);
    let rid = make_room(&mut h, a, "brief");
    let ds = h.quit_room(QuitRoom { id: a });
    assert!(h.rooms.is_empty());
    assert!(h.sessions.iter().find(|s| s.id == a).unwrap().room.is_none());
    // every connected session receives exactly one destroy notice
    assert_eq!(ds.len(), 2);
    for who in [a, b] {
        let destroys = ds
            .iter()
            .filter(|d| d.to == who && d.msg == Message::DestroyRoom { room: rid })
            .count();
        assert_eq!(destroys, 1);
    }
}

#[test]
fn quit_without_room_is_noop() {
    let mut h = Host::new();
    let a = connect(&mut h);
    let ds = h.quit_room(QuitRoom { id: a });
    assert!(ds.is_empty());
    assert_eq!(h.sessions.len(), 1);
}

#[test]
fn disconnect_removes_session_and_notifies() {
    let mut h = Host::new();
    let a = connect(&mut h);
    let b = connect(&mut h);
    let ds = h.disconnect(Disconnect { id: a });
    assert_eq!(h.sessions.len(), 1);
    assert_eq!(h.sessions[0].id, b);
    assert_eq!(ds.len(), 1);
    assert_eq!(ds[0].to, b);
    assert_eq!(ds[0].msg, Message::Disconnected { id: a });
}

#[test]
fn disconnect_twice_is_noop() {
    let mut h = Host::new();
    let a = connect(&mut h);
    let b = connect(&mut h);
    let first = h.disconnect(Disconnect { id: a });
    assert_eq!(first.len(), 1);
    let sessions_after: Vec<UserId> = h.sessions.iter().map(|s| s.id).collect();
    let rooms_after = h.rooms.len();
    let second = h.disconnect(Disconnect { id: a });
    assert!(second.is_empty());
    assert_eq!(h.sessions.iter().map(|s| s.id).collect::<Vec<_>>(), sessions_after);
    assert_eq!(h.rooms.len(), rooms_after);
    assert_eq!(h.sessions[0].id, b);
}

#[test]
fn disconnect_runs_quit_first() {
    let mut h = Host::new();
    let a = connect(&mut h);
    let b = connect(&mut h);
    let rid = make_room(&mut h, a, "pair");
    h.join_room(JoinRoom { id: b, room: rid });
    let ds = h.disconnect(Disconnect { id: a });
    // the room survives under the remaining member
    assert_eq!(h.rooms.len(), 1);
    assert_eq!(h.rooms[0].owner, b);
    assert_eq!(h.rooms[0].members, vec![b]);
    // quit notices first, then the disconnect broadcast to the survivor
    assert_eq!(ds.len(), 3);
    assert_eq!(ds[0].msg, Message::Alert(Alert::Quit { user: a }));
    assert!(matches!(&ds[1].msg, Message::RoomUpdate { .. }));
    assert_eq!(ds[2].to, b);
    assert_eq!(ds[2].msg, Message::Disconnected { id: a });
}

#[test]
fn room_detail_answers_requester_only() {
    let mut h = Host::new();
    let a = connect(&mut h);
    let b = connect(&mut h);
    let rid = make_room(&mut h, a, "inspect");
    let ds = h.get_room_detail(GetRoomDetail { id: b, room: rid });
    assert_eq!(ds.len(), 1);
    assert_eq!(ds[0].to, b);
    match &ds[0].msg {
        Message::RoomDetail { room } => {
            assert_eq!(room.id, rid);
            assert_eq!(room.title, "inspect");
            assert_eq!(room.owner, a);
            assert_eq!(room.members, vec![a]);
        }
        other => panic!("expected room-detail, got {:?}", other),
    }
    let missing = rid.wrapping_add(1);
    assert!(h.rooms.iter().all(|r| r.id != missing));
    assert!(h.get_room_detail(GetRoomDetail { id: b, room: missing }).is_empty());
}

#[test]
fn handle_dispatches_requests() {
    let mut h = Host::new();
    let a = connect(&mut h);
    let b = connect(&mut h);
    let ds = h.handle(Request::Chat(Chat { id: a, text: String::from("via handle"), to: Some(b) }));
    assert_eq!(ds.len(), 1);
    assert_eq!(ds[0].to, b);
    let ds = h.handle(Request::CreateRoom(CreateRoom {
        id: a,
        room: RoomBrief { id: 0, title: String::from("dispatched") },
    }));
    assert!(!ds.is_empty());
    assert_eq!(h.rooms.len(), 1);
    let rid = h.rooms[0].id;
    let ds = h.handle(Request::JoinRoom(JoinRoom { id: b, room: rid }));
    assert!(!ds.is_empty());
    let ds = h.handle(Request::GetRoomDetail(GetRoomDetail { id: b, room: rid }));
    assert_eq!(ds.len(), 1);
    let ds = h.handle(Request::QuitRoom(QuitRoom { id: b }));
    assert!(!ds.is_empty());
    assert_eq!(h.rooms[0].members, vec![a]);
}

#[test]
fn state_agrees_in_both_directions() {
    let mut h = Host::new();
    let a = connect(&mut h);
    let b = connect(&mut h);
    let c = connect(&mut h);
    let rid = make_room(&mut h, a, "one");
    h.join_room(JoinRoom { id: b, room: rid });
    let rid2 = make_room(&mut h, c, "two");
    h.quit_room(QuitRoom { id: a });
    h.disconnect(Disconnect { id: c });
    // every room is non-empty, owned by a member, and every member's session
    // points back at it; every session room reference names a listed room
    for room in &h.rooms {
        assert!(!room.members.is_empty());
        assert!(room.members.contains(&room.owner));
        for m in &room.members {
            let s = h.sessions.iter().find(|s| s.id == *m).expect("member session");
            assert_eq!(s.room, Some(room.id));
        }
    }
    for s in &h.sessions {
        if let Some(r) = s.room {
            let room = h.rooms.iter().find(|room| room.id == r).expect("referenced room");
            assert!(room.members.contains(&s.id));
        }
    }
    let _ = rid2;
}
