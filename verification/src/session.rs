//! Both directions of a session's byte stream.

use crate::payload::{contents, slice_from};
use bytes::Bytes;
use std::collections::{BTreeMap, VecDeque};
use vstd::prelude::*;

verus! {

broadcast use {vstd::laws_cmp::group_laws_cmp, vstd::std_specs::btree::group_btree_axioms};

/// A run of stream bytes and the absolute offset of the first of them.
#[verifier::ext_equal]
pub struct Chunk {
    pub offset: nat,
    pub data: Seq<u8>,
}

impl Chunk {
    /// The offset just past the chunk.
    pub open spec fn end(self) -> nat {
        self.offset + self.data.len()
    }
}

/// What a [`SendQueue`] holds.
#[verifier::ext_equal]
pub struct Outbound {
    /// Offset that the next pushed byte gets.
    pub next_offset: nat,
    /// The peer applied everything below this offset.
    pub acked: nat,
    /// The current link was handed everything below this offset.
    pub sent: nat,
    /// Chunks kept for replay, oldest first.
    pub chunks: Seq<Chunk>,
}

/// `chunks` without the leading ones that end at or below `upto`.
pub open spec fn trimmed(chunks: Seq<Chunk>, upto: nat) -> Seq<Chunk>
    decreases chunks.len(),
{
    if chunks.len() > 0 && chunks[0].end() <= upto {
        trimmed(chunks.skip(1), upto)
    } else {
        chunks
    }
}

/// What of `c` lies at or past `from`.
pub open spec fn remainder(c: Chunk, from: nat) -> Chunk {
    if c.offset >= from {
        c
    } else {
        Chunk { offset: from, data: c.data.skip(from - c.offset) }
    }
}

/// What of `chunks` lies at or past `from`, chunk by chunk; chunks that end at
/// or below `from` are left out.
pub open spec fn pending_from(chunks: Seq<Chunk>, from: nat) -> Seq<Chunk>
    decreases chunks.len(),
{
    if chunks.len() == 0 {
        Seq::empty()
    } else {
        let before = pending_from(chunks.drop_last(), from);
        if chunks.last().end() <= from {
            before
        } else {
            before.push(remainder(chunks.last(), from))
        }
    }
}

impl Outbound {
    /// The state before the first push.
    pub open spec fn initial() -> Outbound {
        Outbound { next_offset: 0, acked: 0, sent: 0, chunks: Seq::empty() }
    }

    /// The chunks follow each other without gaps up to the next offset, and
    /// whatever the peer has not acknowledged is among them.
    pub open spec fn wf(self) -> bool {
        &&& forall|i: int, j: int|
            0 <= i && j == i + 1 && j < self.chunks.len() ==> (#[trigger] self.chunks[i]).end() == (
            #[trigger] self.chunks[j]).offset
        &&& self.chunks.len() > 0 ==> self.chunks.last().end() == self.next_offset
            && self.chunks[0].offset <= self.acked
        &&& self.chunks.len() == 0 ==> self.next_offset <= self.acked
    }

    pub open spec fn after_push(self, data: Seq<u8>) -> Outbound {
        Outbound {
            next_offset: self.next_offset + data.len(),
            chunks: self.chunks.push(Chunk { offset: self.next_offset, data }),
            ..self
        }
    }

    pub open spec fn after_ack(self, offset: nat) -> Outbound {
        if offset <= self.acked {
            self
        } else {
            Outbound { acked: offset, chunks: trimmed(self.chunks, offset), ..self }
        }
    }

    pub open spec fn after_rewind(self) -> Outbound {
        Outbound { sent: self.acked, ..self }
    }

    /// What the current link has not been handed yet.
    pub open spec fn pending(self) -> Seq<Chunk> {
        pending_from(self.chunks, self.sent)
    }

    pub open spec fn after_take(self) -> Outbound {
        Outbound { sent: self.next_offset, ..self }
    }

    pub open spec fn drained(self) -> bool {
        self.acked == self.next_offset
    }
}

pub open spec fn chunk_of(c: (u64, Bytes)) -> Chunk {
    Chunk { offset: c.0 as nat, data: contents(c.1) }
}

pub open spec fn chunks_of(s: Seq<(u64, Bytes)>) -> Seq<Chunk> {
    s.map_values(|c: (u64, Bytes)| chunk_of(c))
}

/// Ends of chunks never exceed the next offset.
pub proof fn lemma_ends_bounded(v: Outbound, i: int)
    requires
        v.wf(),
        0 <= i < v.chunks.len(),
    ensures
        v.chunks[i].end() <= v.next_offset,
    decreases v.chunks.len() - i,
{
    if i < v.chunks.len() - 1 {
        lemma_ends_bounded(v, i + 1);
    }
}

/// Pushing keeps the queue well formed.
pub proof fn lemma_push_wf(v: Outbound, data: Seq<u8>)
    requires
        v.wf(),
    ensures
        v.after_push(data).wf(),
{
    let after = v.after_push(data);
    assert forall|i: int, j: int| 0 <= i && j == i + 1 && j < after.chunks.len() implies (
    #[trigger] after.chunks[i]).end() == (#[trigger] after.chunks[j]).offset by {
        assert(after.chunks[i] == v.chunks[i]);
        if j < v.chunks.len() {
            assert(after.chunks[j] == v.chunks[j]);
        }
    }
}

/// Trimming keeps the queue well formed.
pub proof fn lemma_trim_wf(v: Outbound, upto: nat)
    requires
        v.wf(),
        upto >= v.acked,
    ensures
        (Outbound { acked: upto, chunks: trimmed(v.chunks, upto), ..v }).wf(),
    decreases v.chunks.len(),
{
    if v.chunks.len() > 0 && v.chunks[0].end() <= upto {
        let rest = Outbound { acked: upto, chunks: v.chunks.skip(1), ..v };
        assert forall|i: int, j: int| 0 <= i && j == i + 1 && j < rest.chunks.len() implies (
        #[trigger] rest.chunks[i]).end() == (#[trigger] rest.chunks[j]).offset by {
            assert(rest.chunks[i] == v.chunks[i + 1]);
            assert(rest.chunks[j] == v.chunks[j + 1]);
        }
        if rest.chunks.len() > 0 {
            assert(v.chunks[0].end() == v.chunks[1].offset);
        }
        lemma_trim_wf(rest, upto);
    }
}

/// Tracks an outbound byte stream so it can be replayed after a reconnect.
///
/// Every chunk pulled from the local side is tagged with its absolute offset
/// in the stream. Chunks stay buffered until the peer acknowledges applying
/// them, so a new QUIC connection can resend from the last applied offset
/// without losing or duplicating bytes.
pub struct SendQueue {
    next_offset: u64,
    acked: u64,
    sent: u64,
    chunks: VecDeque<(u64, Bytes)>,
}

impl View for SendQueue {
    type V = Outbound;

    closed spec fn view(&self) -> Outbound {
        Outbound {
            next_offset: self.next_offset as nat,
            acked: self.acked as nat,
            sent: self.sent as nat,
            chunks: chunks_of(self.chunks@),
        }
    }
}

impl Default for SendQueue {
    fn default() -> (q: Self)
        ensures
            q@ == Outbound::initial(),
            q@.wf(),
    {
        let q = SendQueue { next_offset: 0, acked: 0, sent: 0, chunks: VecDeque::new() };
        assert(q@.chunks =~= Seq::empty());
        q
    }
}

impl SendQueue {
    /// How many more bytes can be pushed before offsets exceed 64 bits.
    pub fn room(&self) -> (room: u64)
        ensures
            room == u64::MAX - self@.next_offset,
    {
        u64::MAX - self.next_offset
    }

    /// Appends a chunk and returns its assigned offset.
    pub fn push(&mut self, payload: Bytes) -> (offset: u64)
        requires
            old(self)@.wf(),
            old(self)@.next_offset + contents(payload).len() <= u64::MAX,
        ensures
            offset == old(self)@.next_offset,
            final(self)@ == old(self)@.after_push(contents(payload)),
            final(self)@.chunks.last() == (Chunk {
                offset: offset as nat,
                data: contents(payload),
            }),
            final(self)@.wf(),
    {
        let offset: u64 = self.next_offset;
        self.next_offset = self.next_offset + payload.len() as u64;
        self.chunks.push_back((offset, payload));
        assert(self@.chunks =~= old(self)@.after_push(contents(payload)).chunks);
        proof {
            lemma_push_wf(old(self)@, contents(payload));
        }
        offset
    }

    /// Records that the peer applied everything below `offset`.
    pub fn ack(&mut self, offset: u64)
        requires
            old(self)@.wf(),
        ensures
            final(self)@ == old(self)@.after_ack(offset as nat),
            final(self)@.wf(),
    {
        if offset <= self.acked {
            return ;
        }
        self.acked = offset;
        proof {
            lemma_trim_wf(old(self)@, offset as nat);
        }
        assert forall|i: int| 0 <= i < self@.chunks.len() implies (
        #[trigger] self@.chunks[i]).end() <= u64::MAX by {
            lemma_ends_bounded(old(self)@, i);
        }
        while self.chunks.len() > 0
            invariant
                old(self)@.acked < offset == self.acked,
                old(self)@.after_ack(offset as nat).wf(),
                self@ == (Outbound { acked: offset as nat, chunks: self@.chunks, ..old(self)@ }),
                trimmed(self@.chunks, offset as nat) == trimmed(old(self)@.chunks, offset as nat),
                forall|i: int|
                    0 <= i < self@.chunks.len() ==> (#[trigger] self@.chunks[i]).end() <= u64::MAX,
            decreases self.chunks.len(),
        {
            let ghost before = self@.chunks;
            assert(before[0] == chunk_of(self.chunks@[0]));
            let end: u64 = self.chunks[0].0 + self.chunks[0].1.len() as u64;
            if end > self.acked {
                return ;
            }
            let _ = self.chunks.pop_front();
            assert(self@.chunks =~= before.skip(1));
        }
    }

    /// Starts a fresh link: everything unacknowledged becomes eligible again.
    pub fn rewind(&mut self)
        requires
            old(self)@.wf(),
        ensures
            final(self)@ == old(self)@.after_rewind(),
            final(self)@.wf(),
    {
        self.sent = self.acked;
    }

    /// Drops all state for a brand-new session (the old one expired).
    pub fn reset(&mut self)
        ensures
            final(self)@ == Outbound::initial(),
            final(self)@.wf(),
    {
        self.next_offset = 0;
        self.acked = 0;
        self.sent = 0;
        self.chunks.clear();
        assert(self@.chunks =~= Seq::empty());
    }

    /// Chunks to transmit now, advancing the send cursor. Bytes are cheap
    /// clones; the originals stay buffered until acknowledged.
    pub fn take_pending(&mut self) -> (out: Vec<(u64, Bytes)>)
        requires
            old(self)@.wf(),
        ensures
            chunks_of(out@) == old(self)@.pending(),
            final(self)@ == old(self)@.after_take(),
            final(self)@.wf(),
    {
        let mut out: Vec<(u64, Bytes)> = Vec::new();
        let mut i: usize = 0;
        assert(self@.chunks.take(0) =~= Seq::empty());
        assert(chunks_of(out@) =~= Seq::empty());
        while i < self.chunks.len()
            invariant
                *self == *old(self),
                self@.wf(),
                0 <= i <= self.chunks.len(),
                chunks_of(out@) == pending_from(self@.chunks.take(i as int), self@.sent),
            decreases self.chunks.len() - i,
        {
            let offset: u64 = self.chunks[i].0;
            let payload = &self.chunks[i].1;
            let ghost c = self@.chunks[i as int];
            assert(c == chunk_of(self.chunks@[i as int]));
            proof {
                lemma_ends_bounded(self@, i as int);
                assert(self@.chunks.take(i + 1).drop_last() =~= self@.chunks.take(i as int));
            }
            let ghost before = out@;
            let end: u64 = offset + payload.len() as u64;
            if end > self.sent {
                if offset >= self.sent {
                    out.push((offset, payload.clone()));
                } else {
                    // Partially sent before a reconnect: resend the remainder.
                    let skip: usize = (self.sent - offset) as usize;
                    out.push((self.sent, slice_from(payload, skip)));
                }
                assert(chunk_of(out@.last()) == remainder(c, self@.sent));
                assert(chunks_of(out@) =~= chunks_of(before).push(remainder(c, self@.sent)));
            }
            i = i + 1;
        }
        assert(self@.chunks.take(i as int) =~= self@.chunks);
        self.sent = self.next_offset;
        out
    }

    /// Whether the peer applied everything that was pushed.
    pub fn is_drained(&self) -> (drained: bool)
        ensures
            drained == self@.drained(),
    {
        self.acked == self.next_offset
    }
}

/// What a [`Reassembler`] holds.
#[verifier::ext_equal]
pub struct Inbound {
    /// Everything below this offset was handed on.
    pub applied: nat,
    /// Chunks that wait for a gap to fill, by offset.
    pub pending: Map<u64, Seq<u8>>,
}

/// Applies the buffered chunks that continue the stream at `applied`, one after
/// the other: what is left afterwards, and the chunks applied, in order.
pub open spec fn drain(applied: nat, pending: Map<u64, Seq<u8>>) -> (Inbound, Seq<Seq<u8>>)
    decreases pending.dom().len(),
{
    if pending.dom().finite() && applied <= u64::MAX && pending.contains_key(applied as u64) {
        let next = pending[applied as u64];
        let (rest, out) = drain(applied + next.len(), pending.remove(applied as u64));
        (rest, seq![next] + out)
    } else {
        (Inbound { applied, pending }, Seq::empty())
    }
}

impl Inbound {
    /// The state before the first chunk.
    pub open spec fn initial() -> Inbound {
        Inbound { applied: 0, pending: Map::empty() }
    }

    /// No chunk waits that could be applied.
    pub open spec fn wf(self) -> bool {
        &&& self.pending.dom().finite()
        &&& self.applied <= u64::MAX
        &&& !self.pending.contains_key(self.applied as u64)
    }

    /// What accepting a chunk leaves, and the chunks that it makes applicable.
    pub open spec fn accepting(self, offset: u64, data: Seq<u8>) -> (Inbound, Seq<Seq<u8>>) {
        if offset < self.applied {
            (self, Seq::empty())
        } else if offset > self.applied {
            if self.pending.contains_key(offset) {
                (self, Seq::empty())
            } else {
                (Inbound { pending: self.pending.insert(offset, data), ..self }, Seq::empty())
            }
        } else {
            let (rest, out) = drain(self.applied + data.len(), self.pending);
            (rest, seq![data] + out)
        }
    }

    /// Accepting the chunk keeps the applied offset within 64 bits.
    pub open spec fn fits(self, offset: u64, data: Seq<u8>) -> bool {
        self.accepting(offset, data).0.applied <= u64::MAX
    }
}

pub open spec fn payloads_of(s: Seq<Bytes>) -> Seq<Seq<u8>> {
    s.map_values(|b: Bytes| contents(b))
}

/// Draining moves the applied offset forward only, drops buffered chunks only,
/// and leaves none that could be applied.
pub proof fn lemma_drain_grows(applied: nat, pending: Map<u64, Seq<u8>>)
    ensures
        drain(applied, pending).0.applied >= applied,
        drain(applied, pending).0.pending.submap_of(pending),
        pending.dom().finite() ==> drain(applied, pending).0.pending.dom().finite(),
        pending.dom().finite() && drain(applied, pending).0.applied <= u64::MAX ==> drain(
            applied,
            pending,
        ).0.wf(),
    decreases pending.dom().len(),
{
    if pending.dom().finite() && applied <= u64::MAX && pending.contains_key(applied as u64) {
        let next = pending[applied as u64];
        let left = pending.remove(applied as u64);
        lemma_drain_grows(applied + next.len(), left);
        let rest = drain(applied + next.len(), left).0.pending;
        assert forall|k: u64| #[trigger] rest.dom().contains(k) implies pending.dom().contains(k)
            && rest[k] == pending[k] by {
            assert(left.dom().contains(k));
            assert(rest[k] == left[k]);
        }
        assert(drain(applied, pending).0.pending == rest);
    }
}

/// Buffered chunks below `applied` play no part in draining.
proof fn lemma_drain_ignores_below(
    applied: nat,
    some: Map<u64, Seq<u8>>,
    other: Map<u64, Seq<u8>>,
)
    requires
        some.dom().finite(),
        other.dom().finite(),
        forall|k: u64|
            #![trigger some.contains_key(k)]
            #![trigger other.contains_key(k)]
            k >= applied ==> (some.contains_key(k) <==> other.contains_key(k)) && (
            some.contains_key(k) ==> some[k] == other[k]),
    ensures
        drain(applied, some).0.applied == drain(applied, other).0.applied,
    decreases some.dom().len(),
{
    if applied <= u64::MAX && some.contains_key(applied as u64) {
        let next = some[applied as u64];
        lemma_drain_ignores_below(
            applied + next.len(),
            some.remove(applied as u64),
            other.remove(applied as u64),
        );
    }
}

/// Reassembles an inbound byte stream, tolerating duplicates and reordering
/// introduced by connection resumption.
pub struct Reassembler {
    applied: u64,
    pending: BTreeMap<u64, Bytes>,
}

impl View for Reassembler {
    type V = Inbound;

    closed spec fn view(&self) -> Inbound {
        Inbound {
            applied: self.applied as nat,
            pending: self.pending@.map_values(|b: Bytes| contents(b)),
        }
    }
}

impl Default for Reassembler {
    fn default() -> (r: Self)
        ensures
            r@ == Inbound::initial(),
            r@.wf(),
    {
        let r = Reassembler { applied: 0, pending: BTreeMap::new() };
        assert(r@.pending =~= Map::empty());
        r
    }
}

impl Reassembler {
    /// Accepts a chunk. Returns the run of contiguous chunks that became
    /// applicable, in order. A duplicate yields an empty vec; an out-of-order
    /// chunk is buffered until the gap fills.
    pub fn accept(&mut self, offset: u64, payload: Bytes) -> (out: Vec<Bytes>)
        requires
            old(self)@.wf(),
            old(self)@.fits(offset, contents(payload)),
        ensures
            (final(self)@, payloads_of(out@)) == old(self)@.accepting(offset, contents(payload)),
            final(self)@.wf(),
    {
        let mut out: Vec<Bytes> = Vec::new();
        assert(payloads_of(out@) =~= Seq::empty());
        if offset < self.applied {
            return out;
        }
        if offset > self.applied {
            if !self.pending.contains_key(&offset) {
                let ghost data = contents(payload);
                self.pending.insert(offset, payload);
                assert(self@.pending =~= old(self)@.pending.insert(offset, data));
            }
            return out;
        }
        let ghost (end, run) = drain(
            old(self)@.applied + contents(payload).len(),
            old(self)@.pending,
        );
        proof {
            lemma_drain_grows(old(self)@.applied + contents(payload).len(), old(self)@.pending);
        }
        self.applied = self.applied + payload.len() as u64;
        let ghost first = contents(payload);
        out.push(payload);
        assert(payloads_of(out@) =~= seq![first]);
        assert(seq![first] + run =~= payloads_of(out@) + drain(
            self@.applied,
            self@.pending,
        ).1);
        loop
            invariant
                self@.pending.dom().finite(),
                end.wf(),
                drain(self@.applied, self@.pending).0 == end,
                payloads_of(out@) + drain(self@.applied, self@.pending).1 == seq![first] + run,
            ensures
                self@ == end,
                end.wf(),
                payloads_of(out@) == seq![first] + run,
            decreases self@.pending.dom().len(),
        {
            let ghost before = self@;
            let ghost out_before = out@;
            match self.pending.remove(&self.applied) {
                Some(next) => {
                    let ghost data = contents(next);
                    assert(before.pending[self.applied] == data);
                    assert(self@.pending =~= before.pending.remove(self.applied));
                    proof {
                        lemma_drain_grows(before.applied + data.len(), self@.pending);
                    }
                    self.applied = self.applied + next.len() as u64;
                    out.push(next);
                    assert(payloads_of(out@) =~= payloads_of(out_before).push(data));
                    assert(payloads_of(out@) + drain(self@.applied, self@.pending).1
                        =~= payloads_of(out_before) + drain(before.applied, before.pending).1);
                },
                None => {
                    assert(self@.pending =~= before.pending);
                    assert(payloads_of(out@) + Seq::empty() =~= payloads_of(out@));
                    break;
                },
            }
        }
        out
    }

    /// Whether [`Self::accept`] keeps the applied offset within 64 bits.
    pub fn fits(&self, offset: u64, payload: &Bytes) -> (fits: bool)
        requires
            self@.wf(),
        ensures
            fits == self@.fits(offset, contents(*payload)),
    {
        if offset != self.applied {
            return true;
        }
        let ghost whole = drain(self@.applied + contents(*payload).len(), self@.pending).0.applied;
        proof {
            lemma_drain_grows(self@.applied + contents(*payload).len(), self@.pending);
        }
        let mut cursor: u64 = match self.applied.checked_add(payload.len() as u64) {
            None => return false,
            Some(cursor) => cursor,
        };
        loop
            invariant
                self@.wf(),
                whole == self@.accepting(offset, contents(*payload)).0.applied,
                whole == drain(cursor as nat, self@.pending).0.applied,
            decreases u64::MAX - cursor,
        {
            match self.pending.get(&cursor) {
                None => return true,
                Some(chunk) => {
                    let len: u64 = chunk.len() as u64;
                    assert(self@.pending[cursor] == contents(*chunk));
                    proof {
                        lemma_drain_grows((cursor + len) as nat, self@.pending.remove(cursor));
                    }
                    if len == 0 {
                        return true;
                    }
                    proof {
                        lemma_drain_ignores_below(
                            (cursor + len) as nat,
                            self@.pending.remove(cursor),
                            self@.pending,
                        );
                    }
                    cursor = match cursor.checked_add(len) {
                        None => return false,
                        Some(next) => next,
                    };
                },
            }
        }
    }

    /// Everything below this offset was handed on.
    pub fn applied(&self) -> (applied: u64)
        ensures
            applied == self@.applied,
    {
        self.applied
    }

    /// Drops all state for a brand-new session (the old one expired).
    pub fn reset(&mut self)
        ensures
            final(self)@ == Inbound::initial(),
            final(self)@.wf(),
    {
        self.applied = 0;
        self.pending.clear();
        assert(self@.pending =~= Map::empty());
    }
}

/// What a [`SessionState`] holds.
#[verifier::ext_equal]
pub struct Session {
    pub send: Outbound,
    pub recv: Inbound,
    pub fin: bool,
}

impl Session {
    pub open spec fn initial() -> Session {
        Session { send: Outbound::initial(), recv: Inbound::initial(), fin: false }
    }

    pub open spec fn wf(self) -> bool {
        self.send.wf() && self.recv.wf()
    }

    /// The state once the peer reported what it applied and a new link starts there.
    pub open spec fn resumed(self, peer_applied: nat) -> Session {
        Session { send: self.send.after_ack(peer_applied).after_rewind(), ..self }
    }

    /// The state for a session that starts over. What is known of the local
    /// side's end stays.
    pub open spec fn started_over(self) -> Session {
        Session { send: Outbound::initial(), recv: Inbound::initial(), ..self }
    }

    /// The state after the local side gave bytes, or (on an empty read or a
    /// failed one) has no more.
    pub open spec fn after_local_read(self, read: Option<Seq<u8>>) -> Session {
        match read {
            Some(data) if data.len() > 0 => Session { send: self.send.after_push(data), ..self },
            _ => Session { fin: true, ..self },
        }
    }
}

/// Whether to go on reading the local side.
pub open spec fn reads_on(read: Option<Seq<u8>>) -> bool {
    read matches Some(data) && data.len() > 0
}

/// The local side is read until it has ended, and no further: any read that gave
/// bytes, however many, is followed by another, and reading stops just when the
/// session learns that there is no more.
pub proof fn law_reading_stops_at_the_end(session: Session, read: Option<Seq<u8>>, data: Seq<u8>)
    requires
        !session.fin,
    ensures
        reads_on(read) <==> !session.after_local_read(read).fin,
        reads_on(Some(data)) <==> data.len() > 0,
        !reads_on(None),
{
}

/// State that outlives an individual QUIC connection so a session can resume
/// after a network handover or a suspended process. Both ends have one.
pub struct SessionState {
    pub send: SendQueue,
    pub recv: Reassembler,
    /// Set once the local side has no more bytes to send (stdin or TCP EOF).
    pub fin: bool,
}

impl View for SessionState {
    type V = Session;

    open spec fn view(&self) -> Session {
        Session { send: self.send@, recv: self.recv@, fin: self.fin }
    }
}

impl Default for SessionState {
    fn default() -> (s: Self)
        ensures
            s@ == Session::initial(),
            s@.wf(),
    {
        SessionState { send: SendQueue::default(), recv: Reassembler::default(), fin: false }
    }
}

impl SessionState {
    pub fn new() -> (s: Self)
        ensures
            s@ == Session::initial(),
            s@.wf(),
    {
        SessionState::default()
    }

    /// Starts a link on which the peer reported what it applied.
    pub fn resume(&mut self, peer_applied: u64)
        requires
            old(self)@.wf(),
        ensures
            final(self)@ == old(self)@.resumed(peer_applied as nat),
            final(self)@.wf(),
    {
        self.send.ack(peer_applied);
        self.send.rewind();
    }

    /// Drops both streams: the peer forgot the session and a new one starts.
    pub fn start_over(&mut self)
        ensures
            final(self)@ == old(self)@.started_over(),
            final(self)@.wf(),
    {
        self.send.reset();
        self.recv.reset();
    }

    /// Takes what was read from the local side (stdin or TCP), `None` for a
    /// failed read. Returns whether to go on reading: an empty or failed read
    /// is the end.
    pub fn local_read(&mut self, read: Option<&[u8]>) -> (more: bool)
        requires
            old(self)@.wf(),
            read matches Some(data) ==> old(self)@.send.next_offset + data@.len() <= u64::MAX,
        ensures
            final(self)@ == old(self)@.after_local_read(
                match read {
                    Some(data) => Some(data@),
                    None => None,
                },
            ),
            final(self)@.wf(),
            more == (read matches Some(data) && data@.len() > 0),
            more == reads_on(
                match read {
                    Some(data) => Some(data@),
                    None => None,
                },
            ),
    {
        match read {
            Some(data) => {
                if data.len() > 0 {
                    let _ = self.send.push(Bytes::copy_from_slice(data));
                    return true;
                }
            },
            None => {},
        }
        self.fin = true;
        false
    }
}

} // verus!
