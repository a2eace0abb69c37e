//! What the two ends of a link say to each other, and when a link is over.

use crate::error::{Error, Result};
use crate::payload::contents;
use crate::proto::{Frame, Message, SESSION_ID_LEN};
use crate::session::{chunks_of, payloads_of, Chunk, Session, SessionState};
use bytes::Bytes;
use vstd::prelude::*;

verus! {

/// How a link ended.
#[derive(Debug, Clone, Copy, PartialEq, Eq)]
pub enum LinkEnd {
    /// The peer finished sending; the session can end cleanly.
    PeerFin,
    /// The transport failed; the session should resume on a new connection.
    Disconnected,
}

/// `getrandom::fill` on a fresh buffer: random bytes, or `None` where the
/// system's source of randomness failed. Nothing is said of the bytes.
#[verifier::external_body]
fn random_id() -> (id: Option<[u8; SESSION_ID_LEN]>) {
    let mut id = [0u8; SESSION_ID_LEN];
    match getrandom::fill(&mut id) {
        Ok(()) => Some(id),
        Err(_) => None,
    }
}

/// The session id for what the source of randomness gave: zero if it failed.
pub open spec fn id_from(random: Option<Seq<u8>>) -> Seq<u8> {
    match random {
        Some(bytes) => bytes,
        None => Seq::new(SESSION_ID_LEN as nat, |i: int| 0u8),
    }
}

/// Different draws of 16 random bytes give different session ids, which are the
/// bytes drawn, and a source of randomness that failed gives 16 zero bytes.
pub proof fn law_session_ids(one: Seq<u8>, other: Seq<u8>, i: int)
    requires
        one.len() == 16,
        other.len() == 16,
        0 <= i < 16,
    ensures
        id_from(Some(one)).len() == 16,
        id_from(Some(one))[i] == one[i],
        id_from(Some(one)) == id_from(Some(other)) ==> one == other,
        id_from(None).len() == 16,
        id_from(None)[i] == 0,
{
}

/// The session id for what the source of randomness gave: zero if it failed.
pub fn session_id_from(random: Option<[u8; SESSION_ID_LEN]>) -> (id: [u8; SESSION_ID_LEN])
    ensures
        match random {
            Some(bytes) => id@ == bytes@ && id@ == id_from(Some(bytes@)),
            None => id@ == Seq::new(SESSION_ID_LEN as nat, |i: int| 0u8) && id@ == id_from(None),
        },
{
    match random {
        Some(bytes) => bytes,
        None => {
            let id: [u8; SESSION_ID_LEN] = [0u8; SESSION_ID_LEN];
            assert(id@ =~= Seq::new(SESSION_ID_LEN as nat, |i: int| 0u8));
            id
        },
    }
}

/// A new session id: random, or zero if the OS RNG is unavailable, which is
/// unreachable on the platforms this tool supports.
pub fn new_session_id() -> (id: [u8; SESSION_ID_LEN])
    ensures
        id@.len() == SESSION_ID_LEN,
{
    session_id_from(random_id())
}

/// What to do after a frame was read while waiting for the answer to a hello.
#[derive(Debug, Clone, Copy, PartialEq, Eq)]
pub enum Handshake {
    /// The peer answered; the link is up.
    Done,
    /// Not an answer: read on.
    Wait,
}

/// A place where the link waits for one of several things to happen.
#[derive(Debug)]
pub enum LinkEvent {
    /// A frame was read.
    Frame(Frame),
    /// The stream ended or failed, or the connection was closed.
    Lost,
    /// The local side has something to send, or will send no more.
    SendReady,
}

impl LinkEvent {
    /// What reading from the stream came to: a frame, or the loss of the link,
    /// whether the stream ended, could not be read or held no frame.
    pub fn received<E>(read: std::result::Result<Option<Frame>, E>) -> (event: LinkEvent)
        ensures
            match read {
                Ok(Some(frame)) => event == LinkEvent::Frame(frame),
                _ => event == LinkEvent::Lost,
            },
    {
        match read {
            Ok(Some(frame)) => LinkEvent::Frame(frame),
            _ => LinkEvent::Lost,
        }
    }
}

/// What a [`LinkEvent`] says.
pub enum Happened {
    Frame(Message),
    Lost,
    SendReady,
}

impl View for LinkEvent {
    type V = Happened;

    open spec fn view(&self) -> Happened {
        match *self {
            LinkEvent::Frame(frame) => Happened::Frame(frame@),
            LinkEvent::Lost => Happened::Lost,
            LinkEvent::SendReady => Happened::SendReady,
        }
    }
}

/// How long the last FIN has to reach the client before the connection is torn
/// down, in milliseconds.
pub const FIN_GRACE: u64 = 3_000;

/// What to do next on a link. What came of it goes to [`Link::acted`], except
/// for `Wait` and `End`.
#[derive(Debug)]
pub enum LinkAction {
    /// Wait for something to happen.
    Wait,
    /// Write the chunks to the local side, in order, and flush it.
    Deliver { chunks: Vec<Bytes> },
    /// Send the frames, in order.
    Send { frames: Vec<Frame> },
    /// Shut down writing to the local side: the peer is done writing.
    Shutdown,
    /// Flush the local side, then give the peer this many milliseconds to close
    /// the connection.
    Finish { linger: u64 },
    /// The link is over.
    End(LinkEnd),
}

/// What a [`LinkAction`] says.
#[verifier::ext_equal]
pub enum Next {
    Wait,
    Deliver { chunks: Seq<Seq<u8>> },
    Send { frames: Seq<Message> },
    Shutdown,
    Finish { linger: u64 },
    End(LinkEnd),
}

impl View for LinkAction {
    type V = Next;

    open spec fn view(&self) -> Next {
        match *self {
            LinkAction::Wait => Next::Wait,
            LinkAction::Deliver { chunks } => Next::Deliver { chunks: payloads_of(chunks@) },
            LinkAction::Send { frames } => Next::Send { frames: messages_of(frames@) },
            LinkAction::Shutdown => Next::Shutdown,
            LinkAction::Finish { linger } => Next::Finish { linger },
            LinkAction::End(end) => Next::End(end),
        }
    }
}

/// The action, by its view, or the error.
pub open spec fn next_of(r: Result<LinkAction>) -> Result<Next> {
    match r {
        Ok(action) => Ok(action@),
        Err(e) => Err(e),
    }
}

/// What came of an action.
#[derive(Debug)]
pub enum Outcome {
    /// All of it was done.
    Done,
    /// The local side failed.
    SinkFailed(std::io::Error),
    /// The transport failed.
    SendFailed,
}

/// What a link is at.
#[derive(Debug, Clone, Copy, PartialEq, Eq)]
pub enum Doing {
    /// Nothing has happened that is not dealt with.
    Waiting,
    /// The local side is given what arrived.
    Delivering,
    /// What the local side took is acknowledged.
    Acknowledging,
    /// What is pending is sent; `required` if the link is lost when that fails.
    Flushing { required: bool },
    /// The local side is told that there is no more.
    ShuttingDown,
    /// The session is over; the local side is flushed for the last time.
    Finishing,
    /// The link is over.
    Over,
}

/// The `Data` frames for `chunks`.
pub open spec fn data_frames(chunks: Seq<Chunk>) -> Seq<Message> {
    chunks.map_values(|c: Chunk| Message::Data { offset: c.offset as u64, payload: c.data })
}

pub open spec fn messages_of(frames: Seq<Frame>) -> Seq<Message> {
    frames.map_values(|f: Frame| f@)
}

/// The frames to send on a link that was handed everything below the send
/// cursor: what is past it, and a FIN once the local side has no more to send and
/// the peer applied everything.
pub open spec fn due_frames(session: Session) -> Seq<Message> {
    data_frames(session.send.pending()) + if session.fin && session.send.drained() {
        seq![Message::Fin]
    } else {
        Seq::empty()
    }
}

/// What a frame says, if there is one.
pub open spec fn message_of(frame: Option<Frame>) -> Option<Message> {
    match frame {
        Some(frame) => Some(frame@),
        None => None,
    }
}

/// The frame, by its view, or the error.
pub open spec fn message_read(r: Result<Frame>) -> Result<Message> {
    match r {
        Ok(frame) => Ok(frame@),
        Err(e) => Err(e),
    }
}

/// What the first frame that a server reads gives: the hello, or an error if it
/// is none or there is none.
pub open spec fn hello_read(first: Option<Message>) -> Result<Message> {
    match first {
        Some(hello) if hello is Hello => Ok(hello),
        _ => Err(Error::LinkClosed),
    }
}

/// What a server tells a client that it has applied.
pub open spec fn welcome(applied: u64) -> Message {
    Message::Welcome { applied }
}

/// What a client makes of a frame while it waits for the answer to its hello,
/// `None` for the end of the stream: its session then, and how the handshake
/// stands.
pub open spec fn answered(session: Session, frame: Option<Message>) -> (
    Session,
    Result<Handshake>,
) {
    match frame {
        None => (session, Err(Error::LinkClosed)),
        Some(Message::Welcome { applied }) => (
            session.resumed(applied as nat),
            Ok(Handshake::Done),
        ),
        Some(Message::Reject) => (session, Err(Error::SessionRejected)),
        Some(_) => (session, Ok(Handshake::Wait)),
    }
}

/// One QUIC connection carrying a session. After a link fails the caller
/// reconnects and handshakes again with the same [`SessionState`].
///
/// `exit_on_peer_fin` distinguishes the two roles. The client exits as soon
/// as the server finishes, since the server is the one that decides when a
/// request/response exchange is over. The server treats a client FIN as
/// "no more input" and keeps the link alive to deliver the remaining sshd
/// output before sending its own FIN.
#[derive(Debug, Clone, Copy, PartialEq, Eq)]
pub struct Link {
    pub exit_on_peer_fin: bool,
    pub peer_fin: bool,
    pub doing: Doing,
}

impl Link {
    pub fn new(exit_on_peer_fin: bool) -> (link: Link)
        ensures
            link == (Link { exit_on_peer_fin, peer_fin: false, doing: Doing::Waiting }),
    {
        Link { exit_on_peer_fin, peer_fin: false, doing: Doing::Waiting }
    }

    /// The first frame that a server reads must be a hello; `None` stands for
    /// the end of the stream.
    pub fn read_hello(frame: Option<Frame>) -> (r: Result<Frame>)
        ensures
            match frame {
                Some(hello) if hello is Hello => r == Ok::<Frame, Error>(hello),
                _ => r == Err::<Frame, Error>(Error::LinkClosed),
            },
            message_read(r) == hello_read(message_of(frame)),
    {
        match frame {
            Some(Frame::Hello { session_id, applied, resume }) => Ok(
                Frame::Hello { session_id, applied, resume },
            ),
            _ => Err(Error::LinkClosed),
        }
    }

    /// The hello that a client sends first: its session, what it applied of the
    /// inbound stream, and whether the session should exist already.
    pub fn hello(state: &SessionState, session_id: &[u8; SESSION_ID_LEN], resume: bool) -> (hello:
        Frame)
        ensures
            hello == (Frame::Hello {
                session_id: *session_id,
                applied: state@.recv.applied as u64,
                resume,
            }),
    {
        Frame::Hello { session_id: *session_id, applied: state.recv.applied(), resume }
    }

    /// Takes what a client read after its hello, `None` for the end of the
    /// stream. A welcome negotiates both resume points.
    pub fn client_handshake(state: &mut SessionState, frame: Option<Frame>) -> (r: Result<
        Handshake,
    >)
        requires
            old(state)@.wf(),
        ensures
            final(state)@.wf(),
            match frame {
                None => r == Err::<Handshake, Error>(Error::LinkClosed) && final(state)@ == old(
                    state,
                )@,
                Some(Frame::Welcome { applied }) => r == Ok::<Handshake, Error>(Handshake::Done)
                    && final(state)@ == old(state)@.resumed(applied as nat),
                Some(Frame::Reject) => r == Err::<Handshake, Error>(Error::SessionRejected)
                    && final(state)@ == old(state)@,
                Some(_) => r == Ok::<Handshake, Error>(Handshake::Wait) && final(state)@ == old(
                    state,
                )@,
            },
            (final(state)@, r) == answered(old(state)@, message_of(frame)),
    {
        match frame {
            None => Err(Error::LinkClosed),
            Some(Frame::Welcome { applied }) => {
                state.resume(applied);
                Ok(Handshake::Done)
            },
            Some(Frame::Reject) => Err(Error::SessionRejected),
            Some(_) => Ok(Handshake::Wait),
        }
    }

    /// Server side: reports the resume point for the inbound direction. The
    /// caller has already applied the client's resume point to its send queue.
    pub fn send_welcome(applied: u64) -> (frame: Frame)
        ensures
            frame == (Frame::Welcome { applied }),
            frame@ == welcome(applied),
    {
        Frame::Welcome { applied }
    }

    /// Server side: refuses a session that it does not know.
    pub fn send_reject() -> (frame: Frame)
        ensures
            frame == Frame::Reject,
    {
        Frame::Reject
    }

    /// The frames for everything that this link has not been handed yet, and the
    /// FIN if it is due.
    pub fn flush_send(state: &mut SessionState) -> (frames: Vec<Frame>)
        requires
            old(state)@.wf(),
        ensures
            messages_of(frames@) == due_frames(old(state)@),
            final(state)@ == (Session { send: old(state)@.send.after_take(), ..old(state)@ }),
            final(state)@.wf(),
    {
        let pending = state.send.take_pending();
        let mut frames: Vec<Frame> = Vec::new();
        let mut i: usize = 0;
        while i < pending.len()
            invariant
                0 <= i <= pending@.len(),
                frames@.len() == i,
                forall|k: int|
                    0 <= k < i ==> (#[trigger] frames@[k])@ == (Message::Data {
                        offset: pending@[k].0,
                        payload: contents(pending@[k].1),
                    }),
            decreases pending.len() - i,
        {
            frames.push(Frame::Data { offset: pending[i].0, payload: pending[i].1.clone() });
            i = i + 1;
        }
        assert(messages_of(frames@) =~= data_frames(chunks_of(pending@)));
        if state.fin && state.send.is_drained() {
            frames.push(Frame::Fin);
        }
        assert(messages_of(frames@) =~= due_frames(old(state)@));
        frames
    }

    /// The link once an event is dealt with: a server that is done finishes.
    pub open spec fn settled(self, session: Session) -> (Link, Next) {
        if self.complete(session) {
            (Link { doing: Doing::Finishing, ..self }, Next::Finish { linger: FIN_GRACE })
        } else {
            (Link { doing: Doing::Waiting, ..self }, Next::Wait)
        }
    }

    /// What the link, the session and the next action are after something happened.
    pub open spec fn after(self, session: Session, event: Happened) -> (Link, Session, Next) {
        match event {
            Happened::Lost => (
                Link { doing: Doing::Over, ..self },
                session,
                Next::End(LinkEnd::Disconnected),
            ),
            Happened::SendReady => (
                Link { doing: Doing::Flushing { required: true }, ..self },
                Session { send: session.send.after_take(), ..session },
                Next::Send { frames: due_frames(session) },
            ),
            Happened::Frame(Message::Data { offset, payload }) => {
                let (recv, chunks) = session.recv.accepting(offset, payload);
                (
                    Link { doing: Doing::Delivering, ..self },
                    Session { recv, ..session },
                    Next::Deliver { chunks },
                )
            },
            Happened::Frame(Message::Ack { offset }) => {
                let acked = Session { send: session.send.after_ack(offset as nat), ..session };
                (
                    Link { doing: Doing::Flushing { required: false }, ..self },
                    Session { send: acked.send.after_take(), ..session },
                    Next::Send { frames: due_frames(acked) },
                )
            },
            Happened::Frame(Message::Fin) => if self.exit_on_peer_fin {
                (
                    Link { peer_fin: true, doing: Doing::Finishing, ..self },
                    session,
                    Next::Finish { linger: 0 },
                )
            } else {
                (
                    Link { peer_fin: true, doing: Doing::ShuttingDown, ..self },
                    session,
                    Next::Shutdown,
                )
            },
            Happened::Frame(_) => {
                let (link, next) = self.settled(session);
                (link, session, next)
            },
        }
    }

    /// What the link and the next action are after an action was performed. A
    /// local side that fails is fatal, unless it was only to be shut down. A
    /// transport that fails ends the link, unless the send was not required.
    pub open spec fn resolved(self, session: Session, outcome: Outcome) -> (Link, Result<Next>) {
        let (link, next) = self.settled(session);
        let over = Link { doing: Doing::Over, ..self };
        match outcome {
            Outcome::SinkFailed(e) => if self.doing is ShuttingDown {
                (link, Ok(next))
            } else {
                (over, Err(Error::StdoutWrite(e)))
            },
            Outcome::SendFailed => if self.doing == (Doing::Flushing { required: false }) {
                (link, Ok(next))
            } else {
                (over, Ok(Next::End(LinkEnd::Disconnected)))
            },
            Outcome::Done => match self.doing {
                Doing::Delivering => (
                    Link { doing: Doing::Acknowledging, ..self },
                    Ok(
                        Next::Send {
                            frames: seq![Message::Ack { offset: session.recv.applied as u64 }],
                        },
                    ),
                ),
                Doing::Finishing => (over, Ok(Next::End(LinkEnd::PeerFin))),
                Doing::Over => (over, Ok(Next::End(LinkEnd::Disconnected))),
                _ => (link, Ok(next)),
            },
        }
    }

    fn settle(&mut self, state: &SessionState) -> (action: LinkAction)
        ensures
            (*final(self), action@) == old(self).settled(state@),
    {
        if self.is_complete(state) {
            self.doing = Doing::Finishing;
            LinkAction::Finish { linger: FIN_GRACE }
        } else {
            self.doing = Doing::Waiting;
            LinkAction::Wait
        }
    }

    /// Services the link: takes what happened and says what to do. The caller
    /// starts with [`LinkEvent::SendReady`], performs each action and hands its
    /// outcome to [`Self::acted`], and waits for the next event when told to.
    pub fn run(&mut self, state: &mut SessionState, event: LinkEvent) -> (action: LinkAction)
        requires
            old(state)@.wf(),
            event matches LinkEvent::Frame(Frame::Data { offset, payload }) ==> old(
                state,
            )@.recv.fits(offset, contents(payload)),
        ensures
            (*final(self), final(state)@, action@) == old(self).after(old(state)@, event@),
            final(state)@.wf(),
    {
        match event {
            LinkEvent::Lost => {
                self.doing = Doing::Over;
                LinkAction::End(LinkEnd::Disconnected)
            },
            LinkEvent::SendReady => {
                self.doing = Doing::Flushing { required: true };
                LinkAction::Send { frames: Self::flush_send(state) }
            },
            LinkEvent::Frame(Frame::Data { offset, payload }) => {
                self.doing = Doing::Delivering;
                let chunks = state.recv.accept(offset, payload);
                LinkAction::Deliver { chunks }
            },
            LinkEvent::Frame(Frame::Ack { offset }) => {
                self.doing = Doing::Flushing { required: false };
                state.send.ack(offset);
                LinkAction::Send { frames: Self::flush_send(state) }
            },
            LinkEvent::Frame(Frame::Fin) => {
                self.peer_fin = true;
                if self.exit_on_peer_fin {
                    self.doing = Doing::Finishing;
                    LinkAction::Finish { linger: 0 }
                } else {
                    self.doing = Doing::ShuttingDown;
                    LinkAction::Shutdown
                }
            },
            LinkEvent::Frame(_) => self.settle(state),
        }
    }

    /// Takes what came of the last action and says what to do next. An error is
    /// fatal to the session.
    pub fn acted(&mut self, state: &SessionState, outcome: Outcome) -> (r: Result<LinkAction>)
        ensures
            (*final(self), next_of(r)) == old(self).resolved(state@, outcome),
    {
        match outcome {
            Outcome::SinkFailed(e) => match self.doing {
                Doing::ShuttingDown => Ok(self.settle(state)),
                _ => {
                    self.doing = Doing::Over;
                    Err(Error::StdoutWrite(e))
                },
            },
            Outcome::SendFailed => match self.doing {
                Doing::Flushing { required: false } => Ok(self.settle(state)),
                _ => {
                    self.doing = Doing::Over;
                    Ok(LinkAction::End(LinkEnd::Disconnected))
                },
            },
            Outcome::Done => match self.doing {
                Doing::Delivering => {
                    self.doing = Doing::Acknowledging;
                    let mut frames: Vec<Frame> = Vec::new();
                    frames.push(Frame::Ack { offset: state.recv.applied() });
                    assert(messages_of(frames@) =~= seq![
                        Message::Ack { offset: state@.recv.applied as u64 },
                    ]);
                    Ok(LinkAction::Send { frames })
                },
                Doing::Finishing => {
                    self.doing = Doing::Over;
                    Ok(LinkAction::End(LinkEnd::PeerFin))
                },
                Doing::Over => Ok(LinkAction::End(LinkEnd::Disconnected)),
                _ => Ok(self.settle(state)),
            },
        }
    }

    pub open spec fn complete(self, session: Session) -> bool {
        &&& !self.exit_on_peer_fin
        &&& self.peer_fin
        &&& session.fin
        &&& session.send.drained()
    }

    /// Whether a server is done: its output is fully sent and acknowledged, and
    /// the client has signalled that it is done writing. Give the FIN time to
    /// reach the client before tearing the connection down, otherwise the client
    /// waits forever for a completion that never arrives.
    pub fn is_complete(&self, state: &SessionState) -> (complete: bool)
        ensures
            complete == self.complete(state@),
    {
        !self.exit_on_peer_fin && self.peer_fin && state.fin && state.send.is_drained()
    }

    /// The actions that follow from `next`, it included, if all of them are done,
    /// up to the one that waits or ends the link, or `most` of them.
    pub open spec fn driven(self, session: Session, next: Next, most: nat) -> (Link, Seq<Next>)
        decreases most,
    {
        if most == 0 || next is Wait || next is End {
            (self, seq![next])
        } else {
            match self.resolved(session, Outcome::Done) {
                (link, Ok(then)) => {
                    let (last, rest) = link.driven(session, then, (most - 1) as nat);
                    (last, seq![next] + rest)
                },
                (link, Err(_)) => (link, seq![next]),
            }
        }
    }

    /// A frame dealt with, if nothing fails: what was done, in order.
    pub open spec fn served(self, session: Session, message: Message) -> (
        Link,
        Session,
        Seq<Next>,
    ) {
        let (link, after, next) = self.after(session, Happened::Frame(message));
        let (link, actions) = link.driven(after, next, 3);
        (link, after, actions)
    }
}

/// What an event does. A link that is lost is over, and only such a link is. A
/// client finishes when the server did; a client's FIN does not end the server's
/// link. A FIN is never forgotten. Nothing but a `Data` frame touches the inbound
/// stream, nothing but an `Ack` moves what is acknowledged, and no event changes
/// whether the local side ended. No event is answered with an acknowledgement at
/// once. What is pending is sent just when there is something new to send or the
/// peer acknowledged something, whatever else has happened on the link.
pub proof fn law_link_events(link: Link, session: Session, event: Happened)
    ensures
        ({
            let (after, state, next) = link.after(session, event);
            let fin = event matches Happened::Frame(m) && m is Fin;
            &&& next is End <==> event is Lost
            &&& next is End ==> next == Next::End(LinkEnd::Disconnected)
            &&& fin && link.exit_on_peer_fin ==> next == (Next::Finish { linger: 0 })
            &&& fin && !link.exit_on_peer_fin ==> next == Next::Shutdown
            &&& after.exit_on_peer_fin == link.exit_on_peer_fin
            &&& after.peer_fin == (link.peer_fin || fin)
            &&& !(event matches Happened::Frame(m) && m is Data) ==> state.recv == session.recv
            &&& !(event matches Happened::Frame(m) && m is Ack) ==> state.send.acked
                == session.send.acked && state.send.chunks == session.send.chunks
            &&& !(event matches Happened::Frame(m) && m is Ack) && !(event is SendReady)
                ==> state.send == session.send
            &&& state.send.next_offset == session.send.next_offset
            &&& state.fin == session.fin
            &&& event is SendReady || (event matches Happened::Frame(m) && m is Ack) <==> next
                is Send
            &&& (event matches Happened::Frame(m) && m is Data) <==> next is Deliver
            &&& next is Wait ==> !(!link.exit_on_peer_fin && link.peer_fin && session.fin
                && session.send.acked == session.send.next_offset)
            &&& next is Shutdown <==> fin && !link.exit_on_peer_fin
            &&& next matches Next::Finish { linger } ==> !link.exit_on_peer_fin ==> linger == 3_000
                && link.peer_fin && session.fin && session.send.acked == session.send.next_offset
            &&& next is Finish && link.exit_on_peer_fin ==> fin
            &&& next matches Next::Send { frames } ==> forall|i: int|
                0 <= i < frames.len() ==> #[trigger] frames[i] is Data || frames[i] is Fin
        }),
{
}

/// What an outcome does. Servicing a link fails just when the local side did not
/// take what it was given, with that very error; whatever happens to the
/// transport, the link is at most disconnected. An acknowledgement is sent just
/// when a delivery was done, once, and of everything applied. Once an event is
/// dealt with the link waits for the next one, unless it is a server's, the peer
/// and the local side have ended and all output is acknowledged: then it
/// finishes, and gives the FIN three seconds to arrive.
pub proof fn law_link_outcomes(link: Link, session: Session, outcome: Outcome)
    ensures
        ({
            let (after, r) = link.resolved(session, outcome);
            let delivered = link.doing is Delivering && outcome is Done;
            &&& r is Err <==> outcome is SinkFailed && !(link.doing is ShuttingDown)
            &&& outcome matches Outcome::SinkFailed(e) ==> r is Err ==> r == Err::<Next, Error>(
                Error::StdoutWrite(e),
            )
            &&& outcome is SendFailed && link.doing != (Doing::Flushing { required: false })
                ==> r == Ok::<Next, Error>(Next::End(LinkEnd::Disconnected))
            &&& outcome is SendFailed && link.doing == (Doing::Flushing { required: false })
                ==> (r matches Ok(next) && (next is Wait || next is Finish))
            &&& (r matches Ok(next) && next is Send) <==> delivered
            &&& delivered ==> after.doing is Acknowledging && r == Ok::<Next, Error>(
                Next::Send {
                    frames: seq![Message::Ack { offset: session.recv.applied as u64 }],
                },
            )
            &&& link.doing is Finishing && outcome is Done ==> r == Ok::<Next, Error>(
                Next::End(LinkEnd::PeerFin),
            )
            &&& after.exit_on_peer_fin == link.exit_on_peer_fin
            &&& after.peer_fin == link.peer_fin
        }),
        ({
            let (after, r) = link.resolved(session, outcome);
            let done = !link.exit_on_peer_fin && link.peer_fin && session.fin && session.send.acked
                == session.send.next_offset;
            let dealt_with = match link.doing {
                Doing::Waiting => outcome is Done,
                Doing::Acknowledging => outcome is Done,
                Doing::Flushing { required } => outcome is Done || (outcome is SendFailed
                    && !required),
                Doing::ShuttingDown => !(outcome is SendFailed),
                _ => false,
            };
            &&& dealt_with && !done ==> r == Ok::<Next, Error>(Next::Wait) && after.doing
                is Waiting
            &&& dealt_with && done ==> r == Ok::<Next, Error>(Next::Finish { linger: 3_000 })
                && after.doing is Finishing
            &&& !dealt_with ==> !(r matches Ok(next) && (next is Wait || next is Finish))
        }),
{
}

impl Link {
    /// A link finishes only once the peer sent its FIN, and a server's only once
    /// its own output is drained too.
    pub open spec fn finishes_in_time(self, session: Session) -> bool {
        self.doing is Finishing ==> self.peer_fin && (self.exit_on_peer_fin || self.complete(
            session,
        ))
    }
}

/// A new link finishes in time, every event and every outcome keeps it so, and
/// only a link that was finishing ends because the peer finished.
pub proof fn law_link_finishes_in_time(
    exit_on_peer_fin: bool,
    link: Link,
    session: Session,
    event: Happened,
    outcome: Outcome,
)
    requires
        link.finishes_in_time(session),
    ensures
        (Link { exit_on_peer_fin, peer_fin: false, doing: Doing::Waiting }).finishes_in_time(
            session,
        ),
        ({
            let (after, state, next) = link.after(session, event);
            after.finishes_in_time(state) && next != Next::End(LinkEnd::PeerFin)
        }),
        ({
            let (after, r) = link.resolved(session, outcome);
            &&& after.finishes_in_time(session)
            &&& r == Ok::<Next, Error>(Next::End(LinkEnd::PeerFin)) ==> link.doing is Finishing
                && outcome is Done
        }),
{
}

/// One thing that happens while a link is up.
pub enum Step {
    /// Something happened on the link.
    Happened(Happened),
    /// An action was performed.
    Acted(Outcome),
    /// The local side gave bytes, or has no more.
    LocalRead(Option<Seq<u8>>),
}

/// The link and the session after a run of steps.
pub open spec fn stepped(link: Link, session: Session, steps: Seq<Step>) -> (Link, Session)
    decreases steps.len(),
{
    if steps.len() == 0 {
        (link, session)
    } else {
        let (link, session) = stepped(link, session, steps.drop_last());
        match steps.last() {
            Step::Happened(event) => {
                let (link, session, _) = link.after(session, event);
                (link, session)
            },
            Step::Acted(outcome) => (link.resolved(session, outcome).0, session),
            Step::LocalRead(read) => (link, session.after_local_read(read)),
        }
    }
}

/// The local side is not read any more once it has ended.
pub open spec fn reads_until_the_end(link: Link, session: Session, steps: Seq<Step>) -> bool
    decreases steps.len(),
{
    steps.len() > 0 ==> {
        &&& reads_until_the_end(link, session, steps.drop_last())
        &&& steps.last() is LocalRead ==> !stepped(link, session, steps.drop_last()).1.fin
    }
}

/// The step is the arrival of the peer's FIN.
pub open spec fn fin_arrives(step: Step) -> bool {
    step matches Step::Happened(Happened::Frame(m)) && m is Fin
}

/// Whatever happens on a link, and in whatever order, it ends because the peer
/// finished only if the peer's FIN arrived, and a server's link only if moreover
/// the local side has ended and the peer applied all of its output.
pub proof fn law_peer_fin_ends_the_link_in_time(
    exit_on_peer_fin: bool,
    session: Session,
    steps: Seq<Step>,
    event: Happened,
    outcome: Outcome,
)
    requires
        reads_until_the_end(
            Link { exit_on_peer_fin, peer_fin: false, doing: Doing::Waiting },
            session,
            steps,
        ),
    ensures
        ({
            let new = Link { exit_on_peer_fin, peer_fin: false, doing: Doing::Waiting };
            let (link, state) = stepped(new, session, steps);
            let arrived = exists|i: int| 0 <= i < steps.len() && fin_arrives(#[trigger] steps[i]);
            &&& link.exit_on_peer_fin == exit_on_peer_fin
            &&& link.peer_fin <==> arrived
            &&& link.finishes_in_time(state)
            &&& link.after(state, event).2 != Next::End(LinkEnd::PeerFin)
            &&& link.resolved(state, outcome).1 == Ok::<Next, Error>(Next::End(LinkEnd::PeerFin))
                ==> arrived && (exit_on_peer_fin || (state.fin && state.send.drained()))
        }),
    decreases steps.len(),
{
    let new = Link { exit_on_peer_fin, peer_fin: false, doing: Doing::Waiting };
    if steps.len() > 0 {
        let shorter = steps.drop_last();
        law_peer_fin_ends_the_link_in_time(exit_on_peer_fin, session, shorter, event, outcome);
        if exists|i: int| 0 <= i < shorter.len() && fin_arrives(#[trigger] shorter[i]) {
            let i = choose|i: int| 0 <= i < shorter.len() && fin_arrives(#[trigger] shorter[i]);
            assert(fin_arrives(steps[i]));
        }
        if exists|i: int| 0 <= i < steps.len() && fin_arrives(#[trigger] steps[i]) {
            let i = choose|i: int| 0 <= i < steps.len() && fin_arrives(#[trigger] steps[i]);
            if i < shorter.len() {
                assert(fin_arrives(shorter[i]));
            }
        }
        assert(steps[steps.len() - 1] == steps.last());
    }
}

/// Every `Data` frame, a duplicate or an early one too, is answered by exactly
/// one acknowledgement, of everything applied so far, and only once the local
/// side took what the frame made applicable. Then the link waits again, or
/// finishes if the server is done.
pub proof fn law_data_is_acknowledged_once(
    link: Link,
    session: Session,
    offset: u64,
    payload: Seq<u8>,
)
    ensures
        ({
            let (recv, chunks) = session.recv.accepting(offset, payload);
            let (after, state, actions) = link.served(session, Message::Data { offset, payload });
            let start = seq![
                Next::Deliver { chunks },
                Next::Send { frames: seq![Message::Ack { offset: recv.applied as u64 }] },
            ];
            &&& state == (Session { recv, ..session })
            &&& after.exit_on_peer_fin == link.exit_on_peer_fin
            &&& after.peer_fin == link.peer_fin
            &&& !link.complete(session) ==> actions == start.push(Next::Wait)
            &&& link.complete(session) ==> actions == start.push(
                Next::Finish { linger: FIN_GRACE },
            ).push(Next::End(LinkEnd::PeerFin))
        }),
{
    reveal_with_fuel(Link::driven, 4);
    let (recv, chunks) = session.recv.accepting(offset, payload);
    let (after, state, actions) = link.served(session, Message::Data { offset, payload });
    let start = seq![
        Next::Deliver { chunks },
        Next::Send { frames: seq![Message::Ack { offset: recv.applied as u64 }] },
    ];
    if link.complete(session) {
        assert(actions =~= start.push(Next::Finish { linger: FIN_GRACE }).push(
            Next::End(LinkEnd::PeerFin),
        ));
    } else {
        assert(actions =~= start.push(Next::Wait));
    }
}

} // verus!
