//! The sessions that a server keeps.

use crate::link::LinkEnd;
use crate::proto::SESSION_ID_LEN;
use crate::session::{Session, SessionState};
use crate::wire::{be_value, get_be, law_be_writes_back, lemma_be_limits};
use std::collections::hash_map::Entry;
use std::collections::HashMap;
use vstd::prelude::*;

verus! {

broadcast use vstd::std_specs::hash::group_hash_axioms;

/// Sessions keep sshd's TCP connection alive between QUIC links. After this
/// idle period, in nanoseconds, a disconnected session is reaped so reconnects
/// eventually fail cleanly instead of leaking sockets.
pub const SESSION_IDLE_TIMEOUT: u128 = 21_600_000_000_000;

/// What a server keeps of a session between and during its links. Times are
/// nanoseconds on a clock that never goes back.
pub struct ServerSession {
    pub state: SessionState,
    /// The link that carries the session now. When a new link takes over, the
    /// previous one is closed so its driver stops promptly even if the network
    /// dropped silently and the idle timeout has not fired yet.
    pub current: Option<u64>,
    /// When a link last started or ended.
    pub last_seen: u128,
    /// The session ran to its end.
    pub tcp_closed: bool,
}

/// What a new link does first.
#[derive(Debug, Clone, Copy, PartialEq, Eq)]
pub struct Attach {
    /// The link to close, because the new one takes over.
    pub superseded: Option<u64>,
    /// What to tell the client in a welcome; `None` if the session is over and
    /// the new link is to be closed.
    pub welcome: Option<u64>,
}

impl ServerSession {
    pub fn new(now: u128) -> (s: ServerSession)
        ensures
            s.state@ == Session::initial(),
            s.state@.wf(),
            s.current is None,
            s.last_seen == now,
            !s.tcp_closed,
    {
        ServerSession {
            state: SessionState::new(),
            current: None,
            last_seen: now,
            tcp_closed: false,
        }
    }

    /// How a session and the first step of a new link follow from the session before.
    pub open spec fn attaches(
        self,
        link: u64,
        client_applied: u64,
        now: u128,
        after: ServerSession,
        attach: Attach,
    ) -> bool {
        &&& after.last_seen == now
        &&& after.tcp_closed == self.tcp_closed
        &&& attach.superseded == self.current
        &&& after.current == Some(link)
        &&& if self.tcp_closed {
            &&& attach.welcome is None
            &&& after.state@ == self.state@
        } else {
            &&& attach.welcome == Some(self.state@.recv.applied as u64)
            &&& after.state@ == self.state@.resumed(client_applied as nat)
        }
    }

    /// Starts a link for a session. Installing this link as current preempts
    /// any previous link so a reconnect after a silent network drop takes over
    /// immediately instead of waiting for the old idle timeout. If the session
    /// ran to its end there is nothing to welcome the client to: the new link is
    /// to be closed and detached.
    pub fn attach(&mut self, link: u64, client_applied: u64, now: u128) -> (attach: Attach)
        requires
            old(self).state@.wf(),
        ensures
            final(self).state@.wf(),
            old(self).attaches(link, client_applied, now, *final(self), attach),
    {
        let superseded = self.current;
        self.current = Some(link);
        self.last_seen = now;
        if self.tcp_closed {
            // Client is gone for good; nothing left to resume.
            return Attach { superseded, welcome: None };
        }
        self.state.resume(client_applied);
        Attach { superseded, welcome: Some(self.state.recv.applied()) }
    }

    /// The session after a link ended. It has no link then, unless another one
    /// took over, and is over if the link was serviced to the peer's FIN.
    pub open spec fn detached(self, link: u64, end: Option<LinkEnd>, now: u128) -> ServerSession {
        ServerSession {
            current: if self.current == Some(link) {
                None
            } else {
                self.current
            },
            last_seen: now,
            tcp_closed: self.tcp_closed || end == Some(LinkEnd::PeerFin),
            ..self
        }
    }

    /// Ends a link. `end` is `None` if the link failed before it could be
    /// serviced to its end. On disconnect the session stays alive for the next
    /// link.
    pub fn detach(&mut self, link: u64, end: Option<LinkEnd>, now: u128)
        ensures
            *final(self) == old(self).detached(link, end, now),
    {
        self.last_seen = now;
        match self.current {
            Some(current) => {
                if current == link {
                    self.current = None;
                }
            },
            None => {},
        }
        match end {
            Some(LinkEnd::PeerFin) => {
                self.tcp_closed = true;
            },
            _ => {},
        }
    }

    /// The session is over and fully acknowledged, or was left without a link
    /// for longer than the idle period.
    pub open spec fn expired(self, now: u128) -> bool {
        ||| self.tcp_closed && self.state@.send.drained()
        ||| self.current is None && now - self.last_seen > SESSION_IDLE_TIMEOUT
    }

    pub fn is_expired(&self, now: u128) -> (expired: bool)
        ensures
            expired == self.expired(now),
    {
        let closed: bool = self.tcp_closed && self.state.send.is_drained();
        closed || (self.current.is_none() && now >= self.last_seen && now - self.last_seen
            > SESSION_IDLE_TIMEOUT)
    }
}

/// What to do with a hello.
#[derive(Debug, Clone, Copy, PartialEq, Eq)]
pub enum SessionChoice {
    /// The session exists: attach to it.
    Existing,
    /// Connect to sshd and create the session.
    Create,
    /// A resume request referenced an unknown session: reject the client.
    Reject,
}

/// What to answer to a hello.
#[derive(Debug, Clone, Copy, PartialEq, Eq)]
pub enum HelloReply {
    /// The link is attached to its session.
    Attached(Attach),
    /// Connect to sshd and add the session, then serve the hello again.
    Create,
    /// Reject the client.
    Reject,
}

/// The key of a session id: the number that it spells.
pub open spec fn key_of(id: Seq<u8>) -> u128 {
    be_value(id) as u128
}

/// Different session ids have different keys.
pub proof fn law_keys_differ(a: Seq<u8>, b: Seq<u8>)
    requires
        a.len() == SESSION_ID_LEN,
        b.len() == SESSION_ID_LEN,
        key_of(a) == key_of(b),
    ensures
        a == b,
{
    lemma_be_limits();
    crate::wire::lemma_be_value_bound(a);
    crate::wire::lemma_be_value_bound(b);
    law_be_writes_back(a);
    law_be_writes_back(b);
}

/// The key of a session id.
pub fn session_key(id: &[u8; SESSION_ID_LEN]) -> (key: u128)
    ensures
        key == key_of(id@),
{
    let key: u128 = get_be(id, 0, SESSION_ID_LEN);
    assert(id@.subrange(0, SESSION_ID_LEN as int) =~= id@);
    key
}

/// The sessions of a server, by id.
pub struct Sessions {
    sessions: HashMap<u128, ServerSession>,
}

impl View for Sessions {
    type V = Map<u128, ServerSession>;

    closed spec fn view(&self) -> Map<u128, ServerSession> {
        self.sessions@
    }
}

/// The sessions after one was added.
pub open spec fn inserted(
    before: Map<u128, ServerSession>,
    after: Map<u128, ServerSession>,
    id: Seq<u8>,
    now: u128,
) -> bool {
    let s = after[key_of(id)];
    &&& after == before.insert(key_of(id), s)
    &&& s.state@ == Session::initial()
    &&& s.current is None
    &&& s.last_seen == now
    &&& !s.tcp_closed
}

/// How the sessions and the reply to a hello follow from the sessions before.
pub open spec fn serves(
    before: Sessions,
    after: Sessions,
    id: Seq<u8>,
    client_applied: u64,
    resume: bool,
    link: u64,
    now: u128,
    reply: HelloReply,
) -> bool {
    let k = key_of(id);
    match before.chosen(id, resume) {
        SessionChoice::Existing => {
            &&& after@ == before@.insert(k, after@[k])
            &&& reply matches HelloReply::Attached(attach) && before@[k].attaches(
                link,
                client_applied,
                now,
                after@[k],
                attach,
            )
        },
        SessionChoice::Create => reply is Create && after@ == before@,
        SessionChoice::Reject => reply is Reject && after@ == before@,
    }
}

/// What of the sessions is not expired.
pub open spec fn unexpired(sessions: Map<u128, ServerSession>, now: u128) -> Map<
    u128,
    ServerSession,
> {
    sessions.restrict(Set::new(|k: u128| sessions.contains_key(k) && !sessions[k].expired(now)))
}

impl Sessions {
    pub open spec fn wf(self) -> bool {
        forall|k: u128| #[trigger] self@.contains_key(k) ==> self@[k].state@.wf()
    }

    pub fn new() -> (s: Sessions)
        ensures
            s@ == Map::<u128, ServerSession>::empty(),
            s.wf(),
    {
        Sessions { sessions: HashMap::new() }
    }

    pub open spec fn chosen(self, id: Seq<u8>, resume: bool) -> SessionChoice {
        if self@.contains_key(key_of(id)) {
            SessionChoice::Existing
        } else if resume {
            SessionChoice::Reject
        } else {
            SessionChoice::Create
        }
    }

    /// Decides what to do with a hello: the session is created (with its sshd
    /// connection) on first use.
    pub fn create_or_get_session(&self, id: &[u8; SESSION_ID_LEN], resume: bool) -> (choice:
        SessionChoice)
        ensures
            choice == self.chosen(id@, resume),
    {
        if self.sessions.contains_key(&session_key(id)) {
            SessionChoice::Existing
        } else if resume {
            SessionChoice::Reject
        } else {
            SessionChoice::Create
        }
    }

    /// Adds a new session, once sshd is connected.
    pub fn insert(&mut self, id: &[u8; SESSION_ID_LEN], now: u128)
        ensures
            inserted(old(self)@, final(self)@, id@, now),
            final(self)@.dom() == old(self)@.dom().insert(key_of(id@)),
            forall|k: u128| #[trigger]
                old(self)@.contains_key(k) && k != key_of(id@) ==> final(self)@[k] == old(
                    self,
                )@[k],
            ({
                let s = final(self)@[key_of(id@)];
                &&& s.state@ == Session::initial()
                &&& s.current is None
                &&& s.last_seen == now
                &&& !s.tcp_closed
            }),
            old(self).wf() ==> final(self).wf(),
    {
        self.sessions.insert(session_key(id), ServerSession::new(now));
        assert(self@ =~= old(self)@.insert(key_of(id@), self@[key_of(id@)]));
    }

    /// A session, to work on.
    pub fn session(&mut self, id: &[u8; SESSION_ID_LEN]) -> (found: Option<&mut ServerSession>)
        ensures
            match found {
                Some(s) => {
                    &&& old(self)@.contains_key(key_of(id@))
                    &&& *s == old(self)@[key_of(id@)]
                    &&& final(self)@ == old(self)@.insert(key_of(id@), *final(s))
                },
                None => !old(self)@.contains_key(key_of(id@)) && final(self)@ == old(self)@,
            },
    {
        match self.sessions.entry(session_key(id)) {
            Entry::Occupied(entry) => Some(entry.into_mut()),
            Entry::Vacant(_) => None,
        }
    }

    /// Serves a hello: attaches the link to its session, or says that the
    /// session is to be created first, or that the client is to be rejected.
    pub fn serve_link(
        &mut self,
        id: &[u8; SESSION_ID_LEN],
        client_applied: u64,
        resume: bool,
        link: u64,
        now: u128,
    ) -> (reply: HelloReply)
        requires
            old(self).wf(),
        ensures
            final(self).wf(),
            serves(*old(self), *final(self), id@, client_applied, resume, link, now, reply),
            match old(self).chosen(id@, resume) {
                SessionChoice::Existing => {
                    &&& reply is Attached
                    &&& final(self)@ == old(self)@.insert(
                        key_of(id@),
                        final(self)@[key_of(id@)],
                    )
                    &&& old(self)@[key_of(id@)].attaches(
                        link,
                        client_applied,
                        now,
                        final(self)@[key_of(id@)],
                        reply->Attached_0,
                    )
                },
                SessionChoice::Create => reply is Create && final(self)@ == old(self)@,
                SessionChoice::Reject => reply is Reject && final(self)@ == old(self)@,
            },
    {
        match self.create_or_get_session(id, resume) {
            SessionChoice::Reject => HelloReply::Reject,
            SessionChoice::Create => HelloReply::Create,
            SessionChoice::Existing => {
                match self.session(id) {
                    Some(session) => HelloReply::Attached(
                        session.attach(link, client_applied, now),
                    ),
                    None => HelloReply::Create,
                }
            },
        }
    }

    /// Removes the expired sessions and returns their keys.
    pub fn reap(&mut self, now: u128) -> (reaped: Vec<u128>)
        ensures
            final(self)@ == unexpired(old(self)@, now),
            old(self).wf() ==> final(self).wf(),
            reaped@.no_duplicates(),
            forall|k: u128| #[trigger]
                reaped@.contains(k) <==> old(self)@.contains_key(k) && old(self)@[k].expired(now),
    {
        let mut ids: Vec<u128> = Vec::new();
        for k in iter: self.sessions.keys()
            invariant
                *self == *old(self),
                iter.seq().unref().to_set() == self@.dom(),
                iter.seq().no_duplicates(),
                ids@ == iter.seq().unref().take(iter.index() as int),
                iter.seq().unref().take(iter.seq().len() as int) == iter.seq().unref(),
            ensures
                ids@.to_set() == self@.dom(),
                ids@.no_duplicates(),
        {
            ids.push(*k);
            assert(ids@ =~= iter.seq().unref().take(iter.index() + 1));
        }
        let mut reaped: Vec<u128> = Vec::new();
        let mut i: usize = 0;
        while i < ids.len()
            invariant
                0 <= i <= ids@.len(),
                ids@.no_duplicates(),
                ids@.to_set() == old(self)@.dom(),
                reaped@.no_duplicates(),
                forall|k: u128| #[trigger]
                    reaped@.contains(k) <==> ids@.take(i as int).contains(k) && old(
                        self,
                    )@[k].expired(now),
                forall|k: u128| #[trigger]
                    self@.contains_key(k) <==> old(self)@.contains_key(k) && !reaped@.contains(k),
                forall|k: u128| #[trigger]
                    self@.contains_key(k) ==> self@[k] == old(self)@[k],
            decreases ids.len() - i,
        {
            let id: u128 = ids[i];
            let ghost before = reaped@;
            let ghost done = ids@.take(i as int);
            proof {
                assert(ids@.to_set().contains(id));
                assert(ids@.take(i + 1) =~= done.push(id));
                lemma_push_contains(done, id);
                assert(!done.contains(id)) by {
                    if done.contains(id) {
                        let j = done.index_of(id);
                        assert(ids@[j] == ids@[i as int]);
                    }
                }
                assert(!before.contains(id));
                assert(self@.contains_key(id));
            }
            match self.sessions.get(&id) {
                Some(session) => {
                    if session.is_expired(now) {
                        self.sessions.remove(&id);
                        reaped.push(id);
                        proof {
                            lemma_push_contains(before, id);
                            assert forall|a: int, b: int|
                                0 <= a < b < reaped@.len() implies reaped@[a] != reaped@[b] by {
                                if b == before.len() {
                                    assert(before.contains(before[a]));
                                }
                            }
                        }
                    }
                },
                None => {},
            }
            i = i + 1;
            assert(ids@.take(i as int) == done.push(id));
        }
        proof {
            assert(ids@.take(ids@.len() as int) =~= ids@);
            assert forall|k: u128| #[trigger] reaped@.contains(k) <==> old(self)@.contains_key(k)
                && old(self)@[k].expired(now) by {
                assert(ids@.to_set().contains(k) <==> ids@.contains(k));
            }
            assert(self@ =~= unexpired(old(self)@, now));
        }
        reaped
    }
}

/// Reaping spares every session that has a link, and every one whose link
/// ended within the idle period, unless it ran to its end and the client has
/// everything; such a session is reaped, and so is one left without a link for
/// longer. A client that resumes a reaped session is rejected.
pub proof fn law_reaping(sessions: Map<u128, ServerSession>, now: u128, k: u128)
    requires
        sessions.contains_key(k),
    ensures
        ({
            let s = sessions[k];
            let over = s.tcp_closed && s.state@.send.drained();
            let idle = s.current is None && now - s.last_seen > SESSION_IDLE_TIMEOUT;
            &&& s.current is Some && !over ==> unexpired(sessions, now).contains_key(k)
            &&& !over && !idle ==> unexpired(sessions, now).contains_key(k) && unexpired(
                sessions,
                now,
            )[k] == s
            &&& over || idle ==> !unexpired(sessions, now).contains_key(k)
        }),
        forall|other: u128| #[trigger]
            unexpired(sessions, now).contains_key(other) ==> sessions.contains_key(other)
                && unexpired(sessions, now)[other] == sessions[other],
        forall|after: Sessions, id: Seq<u8>|
            after@ == unexpired(sessions, now) && key_of(id) == k && sessions[k].expired(now)
                ==> #[trigger] after.chosen(id, true) == SessionChoice::Reject,
{
}

/// The idle period runs from the end of the session's link, however the link
/// ended and however long it was up. Reaping spares the session, which was
/// `during` just before, up to the end of the period, unless it is over, and
/// removes it afterwards.
pub proof fn law_idle_period_starts_when_the_link_ends(
    sessions: Map<u128, ServerSession>,
    k: u128,
    during: ServerSession,
    link: u64,
    end: Option<LinkEnd>,
    ended: u128,
    now: u128,
)
    requires
        during.current == Some(link),
        sessions.contains_key(k),
        sessions[k] == during.detached(link, end, ended),
    ensures
        ({
            let s = sessions[k];
            let over = s.tcp_closed && s.state@.send.drained();
            &&& !over && now - ended <= SESSION_IDLE_TIMEOUT ==> unexpired(
                sessions,
                now,
            ).contains_key(k) && unexpired(sessions, now)[k] == s
            &&& now - ended > SESSION_IDLE_TIMEOUT ==> !unexpired(sessions, now).contains_key(k)
        }),
{
}

/// A new link preempts the one before it and is the session's current link from
/// then on, whether or not the session is over, and whatever link was there.
pub proof fn law_new_link_takes_over(
    before: ServerSession,
    attached: ServerSession,
    attach: Attach,
    link: u64,
    client_applied: u64,
    now: u128,
)
    requires
        before.attaches(link, client_applied, now, attached, attach),
    ensures
        attached.current == Some(link),
        attach.superseded == before.current,
        attach.welcome is None <==> before.tcp_closed,
{
}

/// A link that takes over is spared by reaping as long as it is up, and the
/// session is spared for the idle period once it ends, whatever the session does
/// in between, unless the session is over.
pub proof fn law_attached_session_is_spared(
    before: ServerSession,
    attached: ServerSession,
    attach: Attach,
    link: u64,
    client_applied: u64,
    start: u128,
    sessions: Map<u128, ServerSession>,
    k: u128,
    end: Option<LinkEnd>,
    ended: u128,
    now: u128,
)
    requires
        !before.tcp_closed,
        before.attaches(link, client_applied, start, attached, attach),
        sessions.contains_key(k),
    ensures
        sessions[k] == attached ==> unexpired(sessions, now).contains_key(k),
        sessions[k] == attached.detached(link, end, ended) && end != Some(LinkEnd::PeerFin) && now
            <= ended + SESSION_IDLE_TIMEOUT ==> unexpired(sessions, now).contains_key(k),
{
}

/// A session that was added is known from then on, under its own id alone: a hello
/// for it attaches, and is told that nothing was applied; nothing is pending in
/// it, and it is not over. Whether any other id is known, and its session, do not
/// change.
pub proof fn law_new_session_is_known(
    before: Sessions,
    after: Sessions,
    id: Seq<u8>,
    now: u128,
    other: Seq<u8>,
    resume: bool,
    link: u64,
    client_applied: u64,
    later: u128,
    attached: ServerSession,
    attach: Attach,
)
    requires
        inserted(before@, after@, id, now),
        id.len() == 16,
        other.len() == 16,
        other != id,
        after@[key_of(id)].attaches(link, client_applied, later, attached, attach),
    ensures
        after.chosen(id, resume) is Existing,
        after.chosen(other, resume) == before.chosen(other, resume),
        before@.contains_key(key_of(other)) ==> after@[key_of(other)] == before@[key_of(other)],
        attach.welcome == Some(0u64),
        attach.superseded is None,
        ({
            let s = after@[key_of(id)];
            &&& s.state@.send.next_offset == 0
            &&& s.state@.send.acked == 0
            &&& s.state@.send.sent == 0
            &&& s.state@.send.chunks.len() == 0
            &&& s.state@.recv.applied == 0
            &&& s.state@.recv.pending == Map::<u64, Seq<u8>>::empty()
            &&& !s.state@.fin
            &&& !s.tcp_closed
            &&& s.last_seen == now
            &&& s.current is None
        }),
{
    if key_of(id) == key_of(other) {
        law_keys_differ(id, other);
    }
}

/// What a hello comes to depends on the session table and on nothing else: a
/// session that is known is attached to; one that is not is created, unless the
/// client asks to resume it, which is rejected.
pub proof fn law_hello_is_answered(sessions: Sessions, id: Seq<u8>, resume: bool)
    ensures
        sessions.chosen(id, resume) is Existing <==> sessions@.contains_key(key_of(id)),
        sessions.chosen(id, resume) is Create <==> !sessions@.contains_key(key_of(id)) && !resume,
        sessions.chosen(id, resume) is Reject <==> !sessions@.contains_key(key_of(id)) && resume,
{
}

/// The end of a link takes that link off its session and no other, marks the time,
/// and ends the session just when the link was serviced to the peer's FIN; the
/// streams stay as they are.
pub proof fn law_link_is_taken_off(s: ServerSession, link: u64, end: Option<LinkEnd>, now: u128)
    ensures
        ({
            let after = s.detached(link, end, now);
            &&& after.state == s.state
            &&& s.current == Some(link) ==> after.current is None
            &&& s.current != Some(link) ==> after.current == s.current
            &&& after.last_seen == now
            &&& after.tcp_closed <==> s.tcp_closed || (end matches Some(e) && e is PeerFin)
        }),
{
}

/// sshd is connected once for a session: a hello for a session that exists
/// attaches to it, whether or not the client asks to resume, and leaves every
/// other session alone.
pub proof fn law_known_session_is_resumed(
    before: Sessions,
    after: Sessions,
    id: Seq<u8>,
    resume: bool,
    session: ServerSession,
    other: u128,
)
    requires
        before@.contains_key(key_of(id)),
        after@ == before@.insert(key_of(id), session),
        other != key_of(id),
    ensures
        before.chosen(id, resume) == SessionChoice::Existing,
        after.chosen(id, resume) == SessionChoice::Existing,
        after@.contains_key(other) <==> before@.contains_key(other),
        before@.contains_key(other) ==> after@[other] == before@[other],
{
}

proof fn lemma_push_contains(s: Seq<u128>, last: u128)
    ensures
        forall|k: u128| #[trigger] s.push(last).contains(k) <==> s.contains(k) || k == last,
{
    assert forall|k: u128| s.contains(k) || k == last implies #[trigger] s.push(last).contains(
        k,
    ) by {
        if s.contains(k) {
            let i = s.index_of(k);
            assert(s.push(last)[i] == k);
        } else {
            assert(s.push(last)[s.len() as int] == k);
        }
    }
}

} // verus!
