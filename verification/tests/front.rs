use kiwitu::front::{chat_submission, Chat, Client, MenuEvent, MenuItem, RoomEvent};
use kiwitu::server::Message;
use kiwitu::{Alert, Room, RoomBrief, UserBrief};

fn user(id: usize, name: &str) -> UserBrief {
    UserBrief { id, name: String::from(name) }
}

fn brief(id: usize, title: &str) -> RoomBrief {
    RoomBrief { id, title: String::from(title) }
}

fn full(id: usize, title: &str, owner: usize, members: Vec<usize>) -> Room {
    Room { id, title: String::from(title), owner, members }
}

#[test]
fn welcome_builds_mirror_and_dedups() {
    // a later entry with the same identity replaces the earlier one
    let c = Client::from_welcome(
        9,
        vec![user(1, "ann"), user(2, "bob"), user(1, "ann2")],
        vec![brief(5, "den"), brief(5, "den2")],
    );
    assert_eq!(c.id, 9);
    assert!(c.room.is_none());
    assert!(c.chats.is_empty());
    assert_eq!(c.users, vec![user(1, "ann2"), user(2, "bob")]);
    assert_eq!(c.rooms, vec![brief(5, "den2")]);
}

#[test]
fn apply_welcome_resets_mirror() {
    let mut c = Client::from_welcome(9, vec![user(1, "ann")], vec![]);
    c.apply(Message::Alert(Alert::TargetNotFound));
    let render = c.apply(Message::Welcome { id: 12, users: vec![user(3, "cyd")], rooms: vec![] });
    assert!(render);
    assert_eq!(c.id, 12);
    assert_eq!(c.users, vec![user(3, "cyd")]);
    assert!(c.chats.is_empty());
}

#[test]
fn apply_connected_and_disconnected() {
    let mut c = Client::from_welcome(9, vec![user(1, "ann")], vec![]);
    assert!(c.apply(Message::Connected { user: user(2, "bob") }));
    assert_eq!(c.users, vec![user(1, "ann"), user(2, "bob")]);
    assert!(c.apply(Message::Disconnected { id: 1 }));
    assert_eq!(c.users, vec![user(2, "bob")]);
    // an unknown identity leaves the list alone
    assert!(c.apply(Message::Disconnected { id: 7 }));
    assert_eq!(c.users, vec![user(2, "bob")]);
}

#[test]
fn apply_chat_appends_transcript() {
    let mut c = Client::from_welcome(9, vec![], vec![]);
    assert!(c.apply(Message::Chat { from: 4, text: String::from("hey"), whisper: false }));
    assert!(c.apply(Message::Chat { from: 5, text: String::from("shh"), whisper: true }));
    assert!(c.apply(Message::Alert(Alert::Join { user: 4 })));
    assert_eq!(
        c.chats,
        vec![
            Chat::Chat(String::from("hey"), 4),
            Chat::Whisper(String::from("shh"), 5),
            Chat::Alert(Alert::Join { user: 4 }),
        ]
    );
}

#[test]
fn room_list_changes_render_only_in_lobby() {
    let mut c = Client::from_welcome(9, vec![], vec![]);
    assert!(c.apply(Message::NewRoom { room: brief(5, "den") }));
    assert!(c.apply(Message::ReadyJoin { room: full(5, "den", 9, vec![9]) }));
    assert_eq!(c.room, Some(full(5, "den", 9, vec![9])));
    // inside a room the lobby list still updates, without re-rendering
    assert!(!c.apply(Message::NewRoom { room: brief(6, "attic") }));
    assert_eq!(c.rooms, vec![brief(5, "den"), brief(6, "attic")]);
    assert!(!c.apply(Message::DestroyRoom { room: 6 }));
    assert_eq!(c.rooms, vec![brief(5, "den")]);
}

#[test]
fn room_update_replaces_current_room() {
    let mut c = Client::from_welcome(9, vec![], vec![]);
    c.apply(Message::ReadyJoin { room: full(5, "den", 9, vec![9]) });
    assert!(c.apply(Message::RoomUpdate { room: full(5, "den", 9, vec![9, 11]) }));
    assert_eq!(c.room, Some(full(5, "den", 9, vec![9, 11])));
}

#[test]
fn unsolicited_room_detail_is_tolerated() {
    let mut c = Client::from_welcome(9, vec![user(1, "ann")], vec![brief(5, "den")]);
    let render = c.apply(Message::RoomDetail { room: full(5, "den", 1, vec![1]) });
    assert!(!render);
    assert_eq!(c.users, vec![user(1, "ann")]);
    assert_eq!(c.rooms, vec![brief(5, "den")]);
    assert!(c.room.is_none());
}

#[test]
fn chat_submission_swallows_blank_lines() {
    assert_eq!(chat_submission(&String::from("   \t ")), None);
    assert_eq!(chat_submission(&String::from("")), None);
    // a real line is sent exactly as typed, untrimmed
    assert_eq!(chat_submission(&String::from(" hi ")), Some(String::from(" hi ")));
}

#[test]
fn menu_and_room_events_carry_their_payloads() {
    let item = MenuItem::CreateRoom;
    assert!(matches!(item, MenuItem::CreateRoom));
    let ev = MenuEvent::CreateRoom(brief(0, "new den"));
    match ev {
        MenuEvent::CreateRoom(b) => assert_eq!(b.title, "new den"),
        MenuEvent::Cancel => panic!("expected a create-room event"),
    }
    let ev = RoomEvent::Join(5);
    assert!(matches!(ev, RoomEvent::Join(5)));
    assert!(matches!(RoomEvent::Quit, RoomEvent::Quit));
}
