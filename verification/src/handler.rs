use vstd::prelude::*;
use crate::{client, game, UserId};

verus! {

/// Time units between liveness probes.
pub const HEARTBEAT_INTERVAL: u64 = 5;

/// Time units of silence after which a connection is considered dead.
pub const CLIENT_TIMEOUT: u64 = 10;

/// The decision state of one connection handler: the session identity the
/// host assigned, the time of the last sign of life, and whether the
/// connection is still open. `open` drops exactly once, in `stopping`, which
/// is how the host is told of the disconnect exactly once however many
/// teardown triggers fire.
pub struct WsSession {
    pub id: UserId,
    pub last_beat: u64,
    pub open: bool,
}

/// One inbound frame after transport decoding: a liveness probe, a probe
/// response, a schema message (or a payload that did not decode), a close
/// signal, an unexpected text frame, or nothing.
pub enum Frame {
    Ping,
    Pong,
    Binary(Option<client::Message>),
    Close,
    Text,
    Nop,
}

/// What the transport layer must do after a liveness tick.
#[derive(Debug, Clone, PartialEq)]
pub enum TickAction {
    /// Emit a probe frame.
    Ping,
    /// The quiet period exceeded the timeout: stop the stream; teardown
    /// follows through `stopping`.
    Stop,
}

/// What the transport layer must do after an inbound frame.
#[derive(Debug, Clone, PartialEq)]
pub enum FrameAction {
    /// Answer the probe.
    Pong,
    /// Forward this request to the host.
    Forward(game::Request),
    /// Nothing: the frame only updated liveness, did not decode, or was an
    /// unexpected text frame.
    Ignore,
    /// Stop the stream; teardown follows through `stopping`.
    Stop,
}

/// The request a schema message from session `id` turns into.
pub open spec fn request_of(id: UserId, m: client::Message) -> game::Request {
    match m {
        client::Message::Chat { text, to } => game::Request::Chat(
            game::Chat { id, text, to },
        ),
        client::Message::CreateRoom { room } => game::Request::CreateRoom(
            game::CreateRoom { id, room },
        ),
        client::Message::GetRoomDetail { room } => game::Request::GetRoomDetail(
            game::GetRoomDetail { id, room },
        ),
        client::Message::JoinRoom { room } => game::Request::JoinRoom(
            game::JoinRoom { id, room },
        ),
        client::Message::QuitRoom => game::Request::QuitRoom(game::QuitRoom { id }),
    }
}

/// One run of the teardown path: it reports whether the host must still be
/// told, and closes the handler so a second run reports nothing.
pub open spec fn teardown_step(pre: WsSession, post: WsSession, notify: bool) -> bool {
    &&& notify == pre.open
    &&& !post.open
    &&& post.id == pre.id
    &&& post.last_beat == pre.last_beat
}

impl WsSession {
    /// A handler for a freshly accepted stream, before registration: no
    /// identity yet, the clock started at `now`.
    pub fn new(now: u64) -> (s: WsSession)
        ensures
            s.id == 0,
            s.last_beat == now,
            s.open,
    {
        WsSession { id: 0, last_beat: now, open: true }
    }

    /// Adopt the identity the host assigned, or report that registration
    /// failed and the stream must be torn down.
    pub fn on_registered(&mut self, reply: Option<UserId>) -> (stay: bool)
        requires
            old(self).open,
        ensures
            final(self).open,
            final(self).last_beat == old(self).last_beat,
            match reply {
                Some(id) => stay && final(self).id == id,
                None => !stay && final(self).id == old(self).id,
            },
    {
        match reply {
            Some(id) => {
                self.id = id;
                true
            },
            None => false,
        }
    }

    /// One liveness tick: stop the stream once the quiet period exceeds the
    /// timeout, otherwise emit a probe.
    pub fn on_tick(&mut self, now: u64) -> (a: TickAction)
        requires
            old(self).open,
            now >= old(self).last_beat,
        ensures
            *final(self) == *old(self),
            a == (if now - old(self).last_beat > CLIENT_TIMEOUT {
                TickAction::Stop
            } else {
                TickAction::Ping
            }),
    {
        if now - self.last_beat > CLIENT_TIMEOUT {
            TickAction::Stop
        } else {
            TickAction::Ping
        }
    }

    /// Handle one inbound frame. Any arriving frame is a sign of life and
    /// refreshes the liveness clock; a decoded schema message is forwarded
    /// under this session's identity, an undecodable payload or a text frame
    /// is dropped, and a close frame stops the stream.
    pub fn on_frame(&mut self, frame: Frame, now: u64) -> (a: FrameAction)
        requires
            old(self).open,
        ensures
            final(self).open,
            final(self).id == old(self).id,
            final(self).last_beat == now,
            a == (match frame {
                Frame::Ping => FrameAction::Pong,
                Frame::Pong => FrameAction::Ignore,
                Frame::Binary(m) => (match m {
                    Some(msg) => FrameAction::Forward(request_of(old(self).id, msg)),
                    None => FrameAction::Ignore,
                }),
                Frame::Close => FrameAction::Stop,
                Frame::Text => FrameAction::Ignore,
                Frame::Nop => FrameAction::Ignore,
            }),
    {
        self.last_beat = now;
        match frame {
            Frame::Ping => FrameAction::Pong,
            Frame::Pong => FrameAction::Ignore,
            Frame::Binary(m) => {
                match m {
                    Some(msg) => {
                        let id = self.id;
                        match msg {
                            client::Message::Chat { text, to } => FrameAction::Forward(
                                game::Request::Chat(game::Chat { id, text, to }),
                            ),
                            client::Message::CreateRoom { room } => FrameAction::Forward(
                                game::Request::CreateRoom(game::CreateRoom { id, room }),
                            ),
                            client::Message::GetRoomDetail { room } => FrameAction::Forward(
                                game::Request::GetRoomDetail(game::GetRoomDetail { id, room }),
                            ),
                            client::Message::JoinRoom { room } => FrameAction::Forward(
                                game::Request::JoinRoom(game::JoinRoom { id, room }),
                            ),
                            client::Message::QuitRoom => FrameAction::Forward(
                                game::Request::QuitRoom(game::QuitRoom { id }),
                            ),
                        }
                    },
                    None => FrameAction::Ignore,
                }
            },
            Frame::Close => FrameAction::Stop,
            Frame::Text => FrameAction::Ignore,
            Frame::Nop => FrameAction::Ignore,
        }
    }

    /// Tear the connection down. Whatever stopped the stream — timeout,
    /// close frame, write failure — and however many times this runs, it
    /// reports `true` exactly once, and the host is told of the disconnect
    /// exactly that once.
    pub fn stopping(&mut self) -> (notify: bool)
        ensures
            teardown_step(*old(self), *final(self), notify),
    {
        let notify = self.open;
        self.open = false;
        notify
    }
}

/// However many times the teardown path runs on an open connection, only
/// its first run reports that the host must be told: the disconnect
/// notification is produced exactly once.
pub proof fn lemma_single_disconnect_notice(
    s0: WsSession,
    s1: WsSession,
    s2: WsSession,
    n1: bool,
    n2: bool,
)
    requires
        s0.open,
        teardown_step(s0, s1, n1),
        teardown_step(s1, s2, n2),
    ensures
        n1,
        !n2,
{
}

} // verus!
