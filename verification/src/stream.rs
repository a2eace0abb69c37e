//! What the two ends of a byte stream promise together.
//!
//! The sending side cuts its stream into the pieces that were pushed. Links
//! come and go, so the receiving side may see a piece twice, late, or not at
//! all before a reconnect; the laws below say that it still hands on exactly
//! the bytes that were pushed, in order.

use crate::link::{
    answered, data_frames, due_frames, hello_read, law_data_is_acknowledged_once, welcome,
    Handshake, Happened, Link, Next,
};
use crate::client::ProxyLoop;
use crate::error::Error;
use crate::proto::{
    decoded, frames_of, law_frame_reads_back, law_stream_reads_back, stream_of, Decoded, Message,
};
use crate::server::{key_of, serves, Attach, HelloReply, ServerSession, Sessions};
use crate::session::{
    drain, lemma_drain_grows, lemma_push_wf, lemma_trim_wf, pending_from, remainder, trimmed,
    Chunk, Inbound, Outbound, Session,
};
use vstd::prelude::*;

verus! {

/// The pieces, one after the other.
pub open spec fn joined(pieces: Seq<Seq<u8>>) -> Seq<u8>
    decreases pieces.len(),
{
    if pieces.len() == 0 {
        Seq::empty()
    } else {
        joined(pieces.drop_last()) + pieces.last()
    }
}

/// The offset at which piece `i` starts.
pub open spec fn start(pieces: Seq<Seq<u8>>, i: int) -> nat
    decreases i,
{
    if i <= 0 {
        0
    } else {
        start(pieces, i - 1) + pieces[i - 1].len()
    }
}

/// A place between two pieces, or at either end of the stream.
pub open spec fn boundary(pieces: Seq<Seq<u8>>, at: nat) -> bool {
    exists|i: int| 0 <= i <= pieces.len() && at == #[trigger] start(pieces, i)
}

/// Piece `i` at its offset.
pub open spec fn piece(pieces: Seq<Seq<u8>>, i: int) -> Chunk {
    Chunk { offset: start(pieces, i), data: pieces[i] }
}

/// The chunk is one of the pieces.
pub open spec fn is_piece(pieces: Seq<Seq<u8>>, c: Chunk) -> bool {
    exists|i: int| 0 <= i < pieces.len() && c == #[trigger] piece(pieces, i)
}

/// The queue was filled with `pieces`: it still holds the last of them, and
/// has been acknowledged and sent up to places between pieces.
pub open spec fn sends(q: Outbound, pieces: Seq<Seq<u8>>) -> bool {
    &&& q.wf()
    &&& q.next_offset == start(pieces, pieces.len() as int)
    &&& q.chunks.len() <= pieces.len()
    &&& forall|i: int|
        0 <= i < q.chunks.len() ==> #[trigger] q.chunks[i] == piece(
            pieces,
            pieces.len() - q.chunks.len() + i,
        )
    &&& boundary(pieces, q.acked)
    &&& boundary(pieces, q.sent)
}

/// The receiving side was given nothing but pieces of `pieces`.
pub open spec fn receives(r: Inbound, pieces: Seq<Seq<u8>>) -> bool {
    r.wf() && has_pieces(r, pieces)
}

/// Whatever the receiving side has applied or buffered are pieces of `pieces`.
pub open spec fn has_pieces(r: Inbound, pieces: Seq<Seq<u8>>) -> bool {
    &&& r.pending.dom().finite()
    &&& boundary(pieces, r.applied)
    &&& forall|k: u64| #[trigger]
        r.pending.contains_key(k) ==> is_piece(
            pieces,
            Chunk { offset: k as nat, data: r.pending[k] },
        )
}

/// `data` is what the stream holds at `offset`.
pub open spec fn slice_of(stream: Seq<u8>, offset: nat, data: Seq<u8>) -> bool {
    &&& offset + data.len() <= stream.len()
    &&& data == stream.subrange(offset as int, (offset + data.len()) as int)
}

/// Whatever the receiving side has applied or buffered is a slice of `stream`.
pub open spec fn follows(r: Inbound, stream: Seq<u8>) -> bool {
    r.wf() && has_slices(r, stream)
}

pub open spec fn has_slices(r: Inbound, stream: Seq<u8>) -> bool {
    &&& r.pending.dom().finite()
    &&& r.applied <= stream.len()
    &&& forall|k: u64| #[trigger]
        r.pending.contains_key(k) ==> slice_of(stream, k as nat, r.pending[k])
}

/// Accepts the chunks one after the other: what is left, and what was handed on.
pub open spec fn accept_all(r: Inbound, chunks: Seq<Chunk>) -> (Inbound, Seq<Seq<u8>>)
    decreases chunks.len(),
{
    if chunks.len() == 0 {
        (r, Seq::empty())
    } else {
        let (before, out) = accept_all(r, chunks.drop_last());
        let (after, more) = before.accepting(chunks.last().offset as u64, chunks.last().data);
        (after, out + more)
    }
}

proof fn lemma_joined_append(a: Seq<Seq<u8>>, b: Seq<Seq<u8>>)
    ensures
        joined(a + b) == joined(a) + joined(b),
    decreases b.len(),
{
    if b.len() == 0 {
        assert(a + b =~= a);
        assert(joined(a) + joined(b) =~= joined(a));
    } else {
        assert((a + b).drop_last() =~= a + b.drop_last());
        lemma_joined_append(a, b.drop_last());
        assert(joined(a + b) =~= joined(a) + joined(b));
    }
}

proof fn lemma_joined_one(a: Seq<u8>)
    ensures
        joined(seq![a]) == a,
{
    reveal_with_fuel(joined, 2);
    assert(seq![a].drop_last() =~= Seq::empty());
    assert(joined(seq![a]) =~= a);
}

proof fn lemma_start_grows(pieces: Seq<Seq<u8>>, i: int, j: int)
    requires
        0 <= i <= j,
    ensures
        start(pieces, i) <= start(pieces, j),
    decreases j - i,
{
    if i < j {
        lemma_start_grows(pieces, i, j - 1);
    }
}

proof fn lemma_start_agrees(a: Seq<Seq<u8>>, b: Seq<Seq<u8>>, i: int)
    requires
        forall|k: int| 0 <= k < i ==> a[k] == b[k],
    ensures
        start(a, i) == start(b, i),
    decreases i,
{
    if i > 0 {
        lemma_start_agrees(a, b, i - 1);
    }
}

proof fn lemma_joined_len(pieces: Seq<Seq<u8>>)
    ensures
        joined(pieces).len() == start(pieces, pieces.len() as int),
    decreases pieces.len(),
{
    if pieces.len() > 0 {
        lemma_joined_len(pieces.drop_last());
        lemma_start_agrees(pieces.drop_last(), pieces, pieces.len() - 1);
    }
}

/// A piece is the slice of the stream at its offset.
proof fn lemma_piece_is_slice(pieces: Seq<Seq<u8>>, i: int)
    requires
        0 <= i < pieces.len(),
    ensures
        slice_of(joined(pieces), start(pieces, i), pieces[i]),
    decreases pieces.len(),
{
    let shorter = pieces.drop_last();
    lemma_joined_len(shorter);
    lemma_joined_len(pieces);
    lemma_start_agrees(shorter, pieces, pieces.len() - 1);
    let at = start(pieces, i) as int;
    if i < pieces.len() - 1 {
        lemma_piece_is_slice(shorter, i);
        lemma_start_agrees(shorter, pieces, i);
        assert(pieces[i] == shorter[i]);
        assert(joined(pieces).subrange(at, at + pieces[i].len()) =~= joined(shorter).subrange(
            at,
            at + pieces[i].len(),
        ));
    } else {
        assert(joined(pieces).subrange(at, at + pieces[i].len()) =~= pieces[i]);
    }
}

proof fn lemma_drain_in_order(applied: nat, pending: Map<u64, Seq<u8>>, stream: Seq<u8>)
    requires
        has_slices(Inbound { applied, pending }, stream),
        stream.len() <= u64::MAX,
    ensures
        follows(drain(applied, pending).0, stream),
        applied <= drain(applied, pending).0.applied,
        joined(drain(applied, pending).1) == stream.subrange(
            applied as int,
            drain(applied, pending).0.applied as int,
        ),
    decreases pending.dom().len(),
{
    if pending.contains_key(applied as u64) {
        let next = pending[applied as u64];
        let left = pending.remove(applied as u64);
        assert(slice_of(stream, applied, next));
        assert forall|k: u64| #[trigger] left.contains_key(k) implies slice_of(
            stream,
            k as nat,
            left[k],
        ) by {
            assert(pending.contains_key(k));
        }
        lemma_drain_in_order(applied + next.len(), left, stream);
        let (rest, out) = drain(applied + next.len(), left);
        lemma_joined_append(seq![next], out);
        lemma_joined_one(next);
        assert(next + stream.subrange((applied + next.len()) as int, rest.applied as int)
            =~= stream.subrange(applied as int, rest.applied as int));
    } else {
        assert(stream.subrange(applied as int, applied as int) =~= Seq::empty());
    }
}

/// Whatever slices of a stream arrive, and in whatever order and however often
/// they do, the receiving side hands on the bytes of the stream in order:
/// each time exactly those between the old applied offset and the new one.
pub proof fn law_accept_in_order(r: Inbound, stream: Seq<u8>, offset: u64, data: Seq<u8>)
    requires
        follows(r, stream),
        slice_of(stream, offset as nat, data),
        stream.len() <= u64::MAX,
    ensures
        r.fits(offset, data),
        follows(r.accepting(offset, data).0, stream),
        r.applied <= r.accepting(offset, data).0.applied,
        joined(r.accepting(offset, data).1) == stream.subrange(
            r.applied as int,
            r.accepting(offset, data).0.applied as int,
        ),
{
    if offset == r.applied {
        let later = Inbound { applied: r.applied + data.len(), ..r };
        assert(has_slices(later, stream));
        lemma_drain_in_order(later.applied, r.pending, stream);
        let (rest, out) = drain(later.applied, r.pending);
        lemma_joined_append(seq![data], out);
        lemma_joined_one(data);
        assert(data + stream.subrange(later.applied as int, rest.applied as int)
            =~= stream.subrange(r.applied as int, rest.applied as int));
    } else {
        assert(stream.subrange(r.applied as int, r.applied as int) =~= Seq::empty());
        assert(joined(Seq::empty()) =~= Seq::empty());
        let after = r.accepting(offset, data).0;
        assert forall|k: u64| #[trigger] after.pending.contains_key(k) implies slice_of(
            stream,
            k as nat,
            after.pending[k],
        ) by {
            if k != offset || r.pending.contains_key(offset) {
                assert(r.pending.contains_key(k));
            }
        }
    }
}

/// A chunk that starts below the applied offset, or at the offset of one that
/// waits already, changes nothing and hands nothing on.
pub proof fn law_duplicates_are_discarded(r: Inbound, offset: u64, data: Seq<u8>)
    requires
        offset < r.applied || (offset > r.applied && r.pending.contains_key(offset)),
    ensures
        r.accepting(offset, data) == (r, Seq::<Seq<u8>>::empty()),
{
}

/// Pieces pushed later do not disturb what is known of the earlier ones.
pub proof fn law_push_extends(q: Outbound, pieces: Seq<Seq<u8>>, data: Seq<u8>)
    requires
        sends(q, pieces),
    ensures
        sends(q.after_push(data), pieces.push(data)),
        joined(pieces.push(data)) == joined(pieces) + data,
        forall|r: Inbound| #[trigger] receives(r, pieces) ==> receives(r, pieces.push(data)),
{
    let longer = pieces.push(data);
    let after = q.after_push(data);
    assert(longer.drop_last() =~= pieces);
    assert forall|i: int| 0 <= i <= pieces.len() implies #[trigger] start(pieces, i) == start(
        longer,
        i,
    ) by {
        lemma_start_agrees(pieces, longer, i);
    }
    assert forall|at: nat| #[trigger] boundary(pieces, at) implies boundary(longer, at) by {
        let i = choose|i: int| 0 <= i <= pieces.len() && at == #[trigger] start(pieces, i);
        assert(at == start(longer, i));
    }
    assert forall|c: Chunk| #[trigger] is_piece(pieces, c) implies is_piece(longer, c) by {
        let i = choose|i: int| 0 <= i < pieces.len() && c == #[trigger] piece(pieces, i);
        assert(start(pieces, i) == start(longer, i));
        assert(c == piece(longer, i));
    }
    assert(start(pieces, pieces.len() as int) == start(longer, pieces.len() as int));
    assert forall|i: int| 0 <= i < after.chunks.len() implies #[trigger] after.chunks[i] == piece(
        longer,
        longer.len() - after.chunks.len() + i,
    ) by {
        if i < q.chunks.len() {
            let k = pieces.len() - q.chunks.len() + i;
            assert(after.chunks[i] == q.chunks[i]);
            assert(start(pieces, k) == start(longer, k));
        }
    }
    lemma_push_wf(q, data);
    assert forall|r: Inbound| #[trigger] receives(r, pieces) implies receives(r, longer) by {
        assert(boundary(pieces, r.applied));
        assert forall|k: u64| #[trigger] r.pending.contains_key(k) implies is_piece(
            longer,
            Chunk { offset: k as nat, data: r.pending[k] },
        ) by {
            assert(is_piece(pieces, Chunk { offset: k as nat, data: r.pending[k] }));
        }
    }
}

proof fn lemma_trimmed_is_suffix(chunks: Seq<Chunk>, upto: nat)
    ensures
        trimmed(chunks, upto).len() <= chunks.len(),
        trimmed(chunks, upto) == chunks.skip(chunks.len() - trimmed(chunks, upto).len()),
    decreases chunks.len(),
{
    if chunks.len() > 0 && chunks[0].end() <= upto {
        lemma_trimmed_is_suffix(chunks.skip(1), upto);
    }
    assert(trimmed(chunks, upto) =~= chunks.skip(chunks.len() - trimmed(chunks, upto).len()));
}

/// Acknowledging at a place between pieces, rewinding, and handing chunks to a
/// link keep the queue filled with the same pieces.
pub proof fn law_queue_keeps_pieces(q: Outbound, pieces: Seq<Seq<u8>>, at: nat)
    requires
        sends(q, pieces),
        boundary(pieces, at),
    ensures
        sends(q.after_ack(at), pieces),
        sends(q.after_rewind(), pieces),
        sends(q.after_take(), pieces),
{
    if at > q.acked {
        lemma_trim_wf(q, at);
        lemma_trimmed_is_suffix(q.chunks, at);
        let after = q.after_ack(at);
        let gone = q.chunks.len() - after.chunks.len();
        assert forall|i: int| 0 <= i < after.chunks.len() implies #[trigger] after.chunks[i]
            == piece(pieces, pieces.len() - after.chunks.len() + i) by {
            assert(after.chunks[i] == q.chunks[gone + i]);
        }
    }
}

/// From the first piece that ends past `from` on, every piece does.
proof fn lemma_pending_is_suffix(q: Outbound, pieces: Seq<Seq<u8>>, n: int) -> (k: int)
    requires
        sends(q, pieces),
        0 <= n <= q.chunks.len(),
    ensures
        0 <= k <= n,
        pending_from(q.chunks.take(n), q.sent) == q.chunks.take(n).skip(k),
        forall|i: int| 0 <= i < k ==> (#[trigger] q.chunks[i]).end() <= q.sent,
        forall|i: int| k <= i < n ==> (#[trigger] q.chunks[i]).end() > q.sent,
    decreases n,
{
    let part = q.chunks.take(n);
    if n == 0 {
        assert(pending_from(part, q.sent) =~= part.skip(0));
        0
    } else {
        let k = lemma_pending_is_suffix(q, pieces, n - 1);
        assert(part.drop_last() =~= q.chunks.take(n - 1));
        let c = q.chunks[n - 1];
        let at = pieces.len() - q.chunks.len() + n - 1;
        assert(c == piece(pieces, at));
        assert(part.last() == c);
        if c.end() <= q.sent {
            if k < n - 1 {
                assert(q.chunks[n - 2].end() == q.chunks[n - 1].offset);
                assert(q.chunks[n - 2].end() > q.sent);
            }
            assert(pending_from(part, q.sent) =~= part.skip(n));
            n
        } else {
            let j = choose|j: int| 0 <= j <= pieces.len() && q.sent == #[trigger] start(pieces, j);
            if j > at {
                lemma_start_grows(pieces, at + 1, j);
            }
            lemma_start_grows(pieces, j, at);
            assert(c.offset >= q.sent);
            assert(remainder(c, q.sent) == c);
            assert(pending_from(part, q.sent) =~= part.skip(k));
            k
        }
    }
}

/// What a link is handed are whole pieces, and after a rewind they are all the
/// pieces past the acknowledged offset, in order.
pub proof fn law_pending_are_pieces(q: Outbound, pieces: Seq<Seq<u8>>)
    requires
        sends(q, pieces),
    ensures
        q.pending().len() <= pieces.len(),
        forall|i: int|
            0 <= i < q.pending().len() ==> #[trigger] q.pending()[i] == piece(
                pieces,
                pieces.len() - q.pending().len() + i,
            ),
        q.sent >= q.acked ==> start(pieces, pieces.len() - q.pending().len()) <= q.sent,
{
    let n = q.chunks.len() as int;
    let k = lemma_pending_is_suffix(q, pieces, n);
    assert(q.chunks.take(n) =~= q.chunks);
    let out = q.pending();
    assert(out =~= q.chunks.skip(k));
    assert forall|i: int| 0 <= i < out.len() implies #[trigger] out[i] == piece(
        pieces,
        pieces.len() - out.len() + i,
    ) by {
        assert(out[i] == q.chunks[k + i]);
    }
    if q.sent >= q.acked {
        if k > 0 {
            assert(q.chunks[k - 1].end() <= q.sent);
            assert(q.chunks[k - 1] == piece(pieces, pieces.len() - n + k - 1));
        } else if n > 0 {
            assert(q.chunks[0] == piece(pieces, pieces.len() - n));
        }
    }
}

/// Everything a receiver of pieces holds is a slice of the whole stream.
proof fn lemma_receives_follows(r: Inbound, pieces: Seq<Seq<u8>>)
    requires
        receives(r, pieces),
    ensures
        follows(r, joined(pieces)),
{
    lemma_joined_len(pieces);
    let i = choose|i: int| 0 <= i <= pieces.len() && r.applied == #[trigger] start(pieces, i);
    lemma_start_grows(pieces, i, pieces.len() as int);
    assert forall|k: u64| #[trigger] r.pending.contains_key(k) implies slice_of(
        joined(pieces),
        k as nat,
        r.pending[k],
    ) by {
        let c = Chunk { offset: k as nat, data: r.pending[k] };
        let j = choose|j: int| 0 <= j < pieces.len() && c == #[trigger] piece(pieces, j);
        lemma_piece_is_slice(pieces, j);
    }
}

proof fn lemma_drain_keeps_pieces(applied: nat, pending: Map<u64, Seq<u8>>, pieces: Seq<Seq<u8>>)
    requires
        has_pieces(Inbound { applied, pending }, pieces),
        applied <= u64::MAX,
        start(pieces, pieces.len() as int) <= u64::MAX,
    ensures
        receives(drain(applied, pending).0, pieces),
    decreases pending.dom().len(),
{
    if pending.contains_key(applied as u64) {
        let next = pending[applied as u64];
        let left = pending.remove(applied as u64);
        let c = Chunk { offset: applied, data: next };
        assert(is_piece(pieces, c));
        let j = choose|j: int| 0 <= j < pieces.len() && c == #[trigger] piece(pieces, j);
        assert(start(pieces, j + 1) == applied + next.len());
        lemma_start_grows(pieces, j + 1, pieces.len() as int);
        assert(boundary(pieces, applied + next.len()));
        assert forall|k: u64| #[trigger] left.contains_key(k) implies is_piece(
            pieces,
            Chunk { offset: k as nat, data: left[k] },
        ) by {
            assert(pending.contains_key(k));
        }
        lemma_drain_keeps_pieces(applied + next.len(), left, pieces);
    }
}

/// A receiver that is given a piece, whichever one it is, stays a receiver of
/// the pieces, and what it hands on continues the stream.
pub proof fn law_accept_pieces(r: Inbound, pieces: Seq<Seq<u8>>, i: int)
    requires
        receives(r, pieces),
        0 <= i < pieces.len(),
        start(pieces, pieces.len() as int) <= u64::MAX,
    ensures
        r.fits(start(pieces, i) as u64, pieces[i]),
        receives(r.accepting(start(pieces, i) as u64, pieces[i]).0, pieces),
        r.applied <= r.accepting(start(pieces, i) as u64, pieces[i]).0.applied,
        joined(r.accepting(start(pieces, i) as u64, pieces[i]).1) == joined(pieces).subrange(
            r.applied as int,
            r.accepting(start(pieces, i) as u64, pieces[i]).0.applied as int,
        ),
{
    lemma_receives_follows(r, pieces);
    lemma_piece_is_slice(pieces, i);
    lemma_joined_len(pieces);
    lemma_start_grows(pieces, i, pieces.len() as int);
    let offset = start(pieces, i) as u64;
    law_accept_in_order(r, joined(pieces), offset, pieces[i]);
    let after = r.accepting(offset, pieces[i]).0;
    if offset == r.applied {
        assert(start(pieces, i + 1) == r.applied + pieces[i].len());
        let later = Inbound { applied: r.applied + pieces[i].len(), ..r };
        assert(boundary(pieces, later.applied));
        lemma_start_grows(pieces, i + 1, pieces.len() as int);
        assert(has_pieces(later, pieces));
        lemma_drain_keeps_pieces(later.applied, r.pending, pieces);
    } else if offset > r.applied && !r.pending.contains_key(offset) {
        assert forall|k: u64| #[trigger] after.pending.contains_key(k) implies is_piece(
            pieces,
            Chunk { offset: k as nat, data: after.pending[k] },
        ) by {
            if k == offset {
                assert(Chunk { offset: k as nat, data: after.pending[k] } == piece(pieces, i));
            } else {
                assert(r.pending.contains_key(k));
            }
        }
    }
}

/// A receiver that is given pieces `from..to`, and has everything before them,
/// has everything up to `to` afterwards.
proof fn lemma_run_is_applied(r: Inbound, pieces: Seq<Seq<u8>>, from: int, to: int, run: Seq<Chunk>)
    requires
        receives(r, pieces),
        0 <= from <= to <= pieces.len(),
        start(pieces, pieces.len() as int) <= u64::MAX,
        start(pieces, from) <= r.applied,
        run.len() == to - from,
        forall|i: int| 0 <= i < run.len() ==> #[trigger] run[i] == piece(pieces, from + i),
    ensures
        receives(accept_all(r, run).0, pieces),
        start(pieces, to) <= accept_all(r, run).0.applied,
        r.applied <= accept_all(r, run).0.applied <= joined(pieces).len(),
        joined(accept_all(r, run).1) == joined(pieces).subrange(
            r.applied as int,
            accept_all(r, run).0.applied as int,
        ),
    decreases run.len(),
{
    lemma_receives_follows(r, pieces);
    if run.len() == 0 {
        assert(joined(Seq::empty()) =~= Seq::empty());
        assert(joined(pieces).subrange(r.applied as int, r.applied as int) =~= Seq::empty());
    } else {
        let shorter = run.drop_last();
        assert forall|i: int| 0 <= i < shorter.len() implies #[trigger] shorter[i] == piece(
            pieces,
            from + i,
        ) by {
            assert(shorter[i] == run[i]);
        }
        lemma_run_is_applied(r, pieces, from, to - 1, shorter);
        let (before, out) = accept_all(r, shorter);
        let last = run.last();
        assert(last == piece(pieces, to - 1));
        law_accept_pieces(before, pieces, to - 1);
        let (after, more) = before.accepting(last.offset as u64, last.data);
        lemma_receives_follows(after, pieces);
        lemma_joined_append(out, more);
        assert(joined(pieces).subrange(r.applied as int, before.applied as int) + joined(
            pieces,
        ).subrange(before.applied as int, after.applied as int) =~= joined(pieces).subrange(
            r.applied as int,
            after.applied as int,
        ));
        assert(start(pieces, to) == start(pieces, to - 1) + pieces[to - 1].len());
        lemma_start_grows(pieces, to - 1, pieces.len() as int);
        if before.applied > last.offset {
            let j = choose|j: int|
                0 <= j <= pieces.len() && before.applied == #[trigger] start(pieces, j);
            if j < to {
                lemma_start_grows(pieces, j, to - 1);
            }
            lemma_start_grows(pieces, to, j);
        } else {
            lemma_drain_grows(before.applied + last.data.len(), before.pending);
        }
    }
}

/// Resuming loses nothing and repeats nothing. After the sending side learns
/// the offset up to which the peer applied the stream and rewinds, handing its
/// pending chunks to the peer brings the peer to the end of the stream, and the
/// peer hands on exactly the bytes that it lacked, in order. It does not matter
/// which pieces the peer had buffered before.
pub proof fn law_resume_delivers_the_rest(q: Outbound, r: Inbound, pieces: Seq<Seq<u8>>)
    requires
        sends(q, pieces),
        receives(r, pieces),
        q.acked <= r.applied,
        start(pieces, pieces.len() as int) <= u64::MAX,
    ensures
        ({
            let resumed = q.after_ack(r.applied).after_rewind();
            let (after, out) = accept_all(r, resumed.pending());
            &&& resumed.sent == r.applied
            &&& after.applied == q.next_offset
            &&& receives(after, pieces)
            &&& joined(out) == joined(pieces).skip(r.applied as int)
        }),
{
    let acked = q.after_ack(r.applied);
    let resumed = acked.after_rewind();
    law_queue_keeps_pieces(q, pieces, r.applied);
    law_queue_keeps_pieces(acked, pieces, r.applied);
    law_pending_are_pieces(resumed, pieces);
    let run = resumed.pending();
    let from = pieces.len() - run.len();
    lemma_joined_len(pieces);
    lemma_run_is_applied(r, pieces, from, pieces.len() as int, run);
    assert(joined(pieces).subrange(r.applied as int, joined(pieces).len() as int) =~= joined(
        pieces,
    ).skip(r.applied as int));
}

/// Nothing was pushed yet, and nothing received.
pub proof fn law_streams_start_empty()
    ensures
        sends(Outbound::initial(), Seq::empty()),
        receives(Inbound::initial(), Seq::empty()),
{
    let none = Seq::<Seq<u8>>::empty();
    assert(start(none, 0) == 0);
}

/// A reconnect resumes both directions. The client's hello carries what it
/// applied of the server's stream, the server's welcome what it applied of the
/// client's; each side then resumes its queue there, and the chunks that it has
/// pending bring the other to the end of the stream.
pub proof fn law_reconnect_resumes_both_directions(
    client: Session,
    server: Session,
    up: Seq<Seq<u8>>,
    down: Seq<Seq<u8>>,
)
    requires
        sends(client.send, up),
        receives(server.recv, up),
        client.send.acked <= server.recv.applied,
        sends(server.send, down),
        receives(client.recv, down),
        server.send.acked <= client.recv.applied,
        start(up, up.len() as int) <= u64::MAX,
        start(down, down.len() as int) <= u64::MAX,
    ensures
        ({
            let server_after = server.resumed(client.recv.applied);
            let client_after = client.resumed(server_after.recv.applied);
            let (got_up, out_up) = accept_all(server_after.recv, client_after.send.pending());
            let (got_down, out_down) = accept_all(
                client_after.recv,
                server_after.send.pending(),
            );
            &&& got_up.applied == client.send.next_offset
            &&& joined(out_up) == joined(up).skip(server.recv.applied as int)
            &&& got_down.applied == server.send.next_offset
            &&& joined(out_down) == joined(down).skip(client.recv.applied as int)
        }),
{
    law_resume_delivers_the_rest(client.send, server.recv, up);
    law_resume_delivers_the_rest(server.send, client.recv, down);
}

/// Once the peer applied everything, nothing is left to send.
pub proof fn law_drained_has_nothing_pending(q: Outbound)
    requires
        q.wf(),
        q.drained(),
        q.sent >= q.acked,
    ensures
        q.pending() == Seq::<Chunk>::empty(),
{
    assert forall|i: int| 0 <= i < q.chunks.len() implies (#[trigger] q.chunks[i]).end()
        <= q.sent by {
        crate::session::lemma_ends_bounded(q, i);
    }
    lemma_nothing_past(q.chunks, q.sent);
}

proof fn lemma_nothing_past(chunks: Seq<Chunk>, from: nat)
    requires
        forall|i: int| 0 <= i < chunks.len() ==> (#[trigger] chunks[i]).end() <= from,
    ensures
        pending_from(chunks, from) == Seq::<Chunk>::empty(),
    decreases chunks.len(),
{
    if chunks.len() > 0 {
        let shorter = chunks.drop_last();
        assert forall|i: int| 0 <= i < shorter.len() implies (#[trigger] shorter[i]).end()
            <= from by {
            assert(shorter[i] == chunks[i]);
        }
        lemma_nothing_past(shorter, from);
        assert(chunks[chunks.len() - 1].end() <= from);
    }
}

/// The two ends of one direction: the queue was filled with `pieces`, the
/// receiver was given nothing else, and only what was applied was acknowledged.
pub open spec fn paired(q: Outbound, r: Inbound, pieces: Seq<Seq<u8>>) -> bool {
    &&& sends(q, pieces)
    &&& receives(r, pieces)
    &&& q.acked <= r.applied
    &&& start(pieces, pieces.len() as int) <= u64::MAX
}

/// The two ends stay paired through everything that can happen to them: a push,
/// a link that is handed what is pending, a new link, an acknowledgement of an
/// offset that was applied now or earlier, and the arrival of any piece, at any
/// time and as often as it may be.
pub proof fn law_ends_stay_paired(
    q: Outbound,
    r: Inbound,
    pieces: Seq<Seq<u8>>,
    data: Seq<u8>,
    applied: nat,
    i: int,
)
    requires
        paired(q, r, pieces),
    ensures
        start(pieces, pieces.len() as int) + data.len() <= u64::MAX ==> paired(
            q.after_push(data),
            r,
            pieces.push(data),
        ),
        paired(q.after_take(), r, pieces),
        paired(q.after_rewind(), r, pieces),
        boundary(pieces, applied) && applied <= r.applied ==> paired(
            q.after_ack(applied),
            r,
            pieces,
        ),
        0 <= i < pieces.len() ==> paired(
            q,
            r.accepting(start(pieces, i) as u64, pieces[i]).0,
            pieces,
        ),
{
    law_push_extends(q, pieces, data);
    lemma_start_agrees(pieces, pieces.push(data), pieces.len() as int);
    law_queue_keeps_pieces(q, pieces, r.applied);
    if boundary(pieces, applied) {
        law_queue_keeps_pieces(q, pieces, applied);
    }
    if 0 <= i < pieces.len() {
        law_accept_pieces(r, pieces, i);
    }
}

/// What the receiving side handed on since the session began is the stream up
/// to the applied offset, and stays so whichever piece arrives next.
pub proof fn law_delivered_is_the_stream(
    r: Inbound,
    pieces: Seq<Seq<u8>>,
    delivered: Seq<u8>,
    i: int,
)
    requires
        receives(r, pieces),
        start(pieces, pieces.len() as int) <= u64::MAX,
        delivered == joined(pieces).take(r.applied as int),
        0 <= i < pieces.len(),
    ensures
        ({
            let (after, out) = r.accepting(start(pieces, i) as u64, pieces[i]);
            delivered + joined(out) == joined(pieces).take(after.applied as int)
        }),
{
    law_accept_pieces(r, pieces, i);
    let (after, out) = r.accepting(start(pieces, i) as u64, pieces[i]);
    lemma_receives_follows(r, pieces);
    lemma_receives_follows(after, pieces);
    assert(delivered + joined(out) =~= joined(pieces).take(after.applied as int));
}

/// When a FIN is due, the peer has handed on the whole stream.
pub proof fn law_fin_means_all_delivered(session: Session, peer: Inbound, pieces: Seq<Seq<u8>>)
    requires
        paired(session.send, peer, pieces),
        session.fin,
        session.send.drained(),
    ensures
        peer.applied == joined(pieces).len(),
{
    lemma_receives_follows(peer, pieces);
    lemma_joined_len(pieces);
}

/// Deals with the frames one after the other, if nothing fails: the link and the
/// session afterwards, and what was done, in order.
pub open spec fn run_all(link: Link, session: Session, frames: Seq<Message>) -> (
    Link,
    Session,
    Seq<Next>,
)
    decreases frames.len(),
{
    if frames.len() == 0 {
        (link, session, Seq::empty())
    } else {
        let (link, before, done) = run_all(link, session, frames.drop_last());
        let (link, after, more) = link.served(before, frames.last());
        (link, after, done + more)
    }
}

/// What was delivered to the local side.
pub open spec fn delivered(actions: Seq<Next>) -> Seq<Seq<u8>>
    decreases actions.len(),
{
    if actions.len() == 0 {
        Seq::empty()
    } else {
        let before = delivered(actions.drop_last());
        match actions.last() {
            Next::Deliver { chunks } => before + chunks,
            _ => before,
        }
    }
}

/// What is done for the chunks, one after the other: what each of them makes
/// applicable is delivered, then everything applied by then is acknowledged.
pub open spec fn delivered_then_acknowledged(r: Inbound, chunks: Seq<Chunk>) -> Seq<Next>
    decreases chunks.len(),
{
    if chunks.len() == 0 {
        Seq::empty()
    } else {
        let before = accept_all(r, chunks.drop_last()).0;
        let (after, out) = before.accepting(chunks.last().offset as u64, chunks.last().data);
        delivered_then_acknowledged(r, chunks.drop_last()) + seq![
            Next::Deliver { chunks: out },
            Next::Send { frames: seq![Message::Ack { offset: after.applied as u64 }] },
            Next::Wait,
        ]
    }
}

proof fn lemma_delivered_append(a: Seq<Next>, b: Seq<Next>)
    ensures
        delivered(a + b) == delivered(a) + delivered(b),
    decreases b.len(),
{
    if b.len() == 0 {
        assert(a + b =~= a);
        assert(delivered(a) + delivered(b) =~= delivered(a));
    } else {
        assert((a + b).drop_last() =~= a + b.drop_last());
        lemma_delivered_append(a, b.drop_last());
        assert(delivered(a + b) =~= delivered(a) + delivered(b));
    }
}

/// What one `Data` frame delivers.
proof fn lemma_data_is_delivered(link: Link, session: Session, offset: u64, payload: Seq<u8>)
    ensures
        delivered(link.served(session, Message::Data { offset, payload }).2)
            == session.recv.accepting(offset, payload).1,
{
    law_data_is_acknowledged_once(link, session, offset, payload);
    let actions = link.served(session, Message::Data { offset, payload }).2;
    let chunks = session.recv.accepting(offset, payload).1;
    let first = seq![actions[0]];
    let rest = actions.skip(1);
    assert(actions =~= first + rest);
    lemma_delivered_append(first, rest);
    reveal_with_fuel(delivered, 5);
    assert(first.drop_last() =~= Seq::empty());
    assert(delivered(first) =~= chunks);
    assert(delivered(rest) =~= Seq::empty());
    assert(chunks + Seq::<Seq<u8>>::empty() =~= chunks);
}

/// Dealing with the `Data` frames of chunks is accepting the chunks.
proof fn lemma_data_frames_are_accepted(link: Link, session: Session, chunks: Seq<Chunk>)
    ensures
        ({
            let (recv, out) = accept_all(session.recv, chunks);
            let (after, state, done) = run_all(link, session, data_frames(chunks));
            &&& state == (Session { recv, ..session })
            &&& delivered(done) == out
            &&& after.exit_on_peer_fin == link.exit_on_peer_fin
            &&& after.peer_fin == link.peer_fin
            &&& !link.complete(session) ==> done == delivered_then_acknowledged(
                session.recv,
                chunks,
            )
        }),
    decreases chunks.len(),
{
    let frames = data_frames(chunks);
    if chunks.len() > 0 {
        let shorter = chunks.drop_last();
        lemma_data_frames_are_accepted(link, session, shorter);
        assert(frames.drop_last() =~= data_frames(shorter));
        let (before_link, before, done) = run_all(link, session, data_frames(shorter));
        let last = chunks.last();
        assert(frames.last() == (Message::Data {
            offset: last.offset as u64,
            payload: last.data,
        }));
        law_data_is_acknowledged_once(before_link, before, last.offset as u64, last.data);
        lemma_data_is_delivered(before_link, before, last.offset as u64, last.data);
        lemma_delivered_append(done, before_link.served(before, frames.last()).2);
        if !link.complete(session) {
            assert(run_all(link, session, frames).2 =~= delivered_then_acknowledged(
                session.recv,
                chunks,
            ));
        }
    }
}

/// No byte is acknowledged before the local side has it. Whatever chunks the peer
/// sends, in whatever order and however often, the link delivers what each of them
/// makes applicable, in order, and after each of them, once the local side took
/// that, sends exactly one acknowledgement, of everything applied by then.
pub proof fn law_delivered_before_acknowledged(link: Link, session: Session, chunks: Seq<Chunk>)
    requires
        !link.complete(session),
    ensures
        ({
            let (recv, out) = accept_all(session.recv, chunks);
            let (_, state, done) = run_all(link, session, data_frames(chunks));
            &&& state == (Session { recv, ..session })
            &&& done == delivered_then_acknowledged(session.recv, chunks)
            &&& delivered(done) == out
        }),
{
    lemma_data_frames_are_accepted(link, session, chunks);
}

/// A session survives its link, on the wire. After a reconnect the client
/// writes the frames of what it has pending; the server, reading those bytes on
/// its new link, delivers to its local side exactly the bytes of the client's
/// stream that it lacked, in order, and has then applied all of it. The same
/// holds of the other direction, with the roles exchanged.
pub proof fn law_wire_delivers_the_rest(
    sender: Session,
    receiver: Session,
    pieces: Seq<Seq<u8>>,
    link: Link,
)
    requires
        paired(sender.send, receiver.recv, pieces),
        forall|i: int| 0 <= i < pieces.len() ==> (#[trigger] pieces[i]).len() <= u32::MAX,
    ensures
        ({
            let resumed = sender.resumed(receiver.recv.applied);
            let written = stream_of(data_frames(resumed.send.pending()));
            let (read, left) = frames_of(written);
            let (_, after, done) = run_all(link, receiver, read);
            &&& left == Seq::<u8>::empty()
            &&& joined(delivered(done)) == joined(pieces).skip(receiver.recv.applied as int)
            &&& after.recv.applied == sender.send.next_offset
            &&& paired(resumed.send, after.recv, pieces)
            &&& after.send == receiver.send
        }),
{
    let q = sender.send;
    let r = receiver.recv;
    let acked = q.after_ack(r.applied);
    let resumed = acked.after_rewind();
    law_queue_keeps_pieces(q, pieces, r.applied);
    law_queue_keeps_pieces(acked, pieces, r.applied);
    law_pending_are_pieces(resumed, pieces);
    law_resume_delivers_the_rest(q, r, pieces);
    let chunks = resumed.pending();
    let frames = data_frames(chunks);
    assert forall|i: int| 0 <= i < frames.len() implies (#[trigger] frames[i]).encodable() by {
        assert(chunks[i] == piece(pieces, pieces.len() - chunks.len() + i));
    }
    law_stream_reads_back(frames);
    lemma_data_frames_are_accepted(link, receiver, chunks);
    lemma_receives_follows(r, pieces);
    lemma_joined_len(pieces);
}

/// The queue holds the end of `stream`, cut anywhere, and was acknowledged and
/// sent anywhere.
pub open spec fn holds(q: Outbound, stream: Seq<u8>) -> bool {
    &&& q.wf()
    &&& q.next_offset == stream.len()
    &&& forall|i: int|
        0 <= i < q.chunks.len() ==> slice_of(
            stream,
            (#[trigger] q.chunks[i]).offset,
            q.chunks[i].data,
        )
}

/// A queue that was filled with pieces holds their stream.
pub proof fn law_pieces_make_the_stream(q: Outbound, pieces: Seq<Seq<u8>>)
    requires
        sends(q, pieces),
    ensures
        holds(q, joined(pieces)),
{
    lemma_joined_len(pieces);
    assert forall|i: int| 0 <= i < q.chunks.len() implies slice_of(
        joined(pieces),
        (#[trigger] q.chunks[i]).offset,
        q.chunks[i].data,
    ) by {
        lemma_piece_is_slice(pieces, pieces.len() - q.chunks.len() + i);
    }
}

/// A queue starts by holding the empty stream, and one that holds a stream keeps
/// holding it, whatever is pushed, acknowledged, rewound or handed to a link.
pub proof fn law_queue_holds_the_stream(q: Outbound, stream: Seq<u8>, data: Seq<u8>, at: nat)
    requires
        holds(q, stream),
    ensures
        holds(Outbound::initial(), Seq::empty()),
        holds(q.after_push(data), stream + data),
        holds(q.after_ack(at), stream),
        holds(q.after_rewind(), stream),
        holds(q.after_take(), stream),
{
    let longer = stream + data;
    let pushed = q.after_push(data);
    lemma_push_wf(q, data);
    assert forall|i: int| 0 <= i < pushed.chunks.len() implies slice_of(
        longer,
        (#[trigger] pushed.chunks[i]).offset,
        pushed.chunks[i].data,
    ) by {
        let c = pushed.chunks[i];
        if i < q.chunks.len() {
            assert(c == q.chunks[i]);
            assert(slice_of(stream, q.chunks[i].offset, q.chunks[i].data));
        }
        assert(c.data =~= longer.subrange(c.offset as int, c.end() as int));
    }
    if at > q.acked {
        lemma_trim_wf(q, at);
        lemma_trimmed_is_suffix(q.chunks, at);
        let after = q.after_ack(at);
        let gone = q.chunks.len() - after.chunks.len();
        assert forall|i: int| 0 <= i < after.chunks.len() implies slice_of(
            stream,
            (#[trigger] after.chunks[i]).offset,
            after.chunks[i].data,
        ) by {
            assert(after.chunks[i] == q.chunks[gone + i]);
        }
    }
}

/// The data of the chunks.
pub open spec fn data_of(chunks: Seq<Chunk>) -> Seq<Seq<u8>> {
    chunks.map_values(|c: Chunk| c.data)
}

/// Where the pending part of the stream starts: at the send cursor, or at the first
/// byte that the queue still holds if the cursor is behind it.
pub open spec fn pending_start(q: Outbound) -> nat {
    if q.chunks.len() == 0 || q.sent >= q.next_offset {
        q.next_offset
    } else if q.chunks[0].offset > q.sent {
        q.chunks[0].offset
    } else {
        q.sent
    }
}

/// Where the first `n` chunks of the queue end, if that is past where the pending
/// part starts.
spec fn reached(q: Outbound, n: int) -> nat {
    if n > 0 && q.chunks[n - 1].end() > pending_start(q) {
        q.chunks[n - 1].end()
    } else {
        pending_start(q)
    }
}

/// What the first `n` chunks of a queue leave to send, and what a receiver that
/// is where the pending part starts and buffers nothing makes of it.
proof fn lemma_pending_run(q: Outbound, stream: Seq<u8>, r: Inbound, n: int)
    requires
        holds(q, stream),
        q.next_offset <= u64::MAX,
        0 <= n <= q.chunks.len(),
        r == (Inbound { applied: pending_start(q), pending: Map::empty() }),
    ensures
        ({
            let run = pending_from(q.chunks.take(n), q.sent);
            let (after, out) = accept_all(r, run);
            let sent = stream.subrange(pending_start(q) as int, reached(q, n) as int);
            &&& pending_start(q) <= reached(q, n) <= q.next_offset
            &&& joined(data_of(run)) == sent
            &&& after == (Inbound { applied: reached(q, n), ..r })
            &&& joined(out) == sent
            &&& forall|i: int|
                0 <= i < run.len() ==> slice_of(stream, (#[trigger] run[i]).offset, run[i].data)
            &&& forall|i: int|
                0 <= i < run.len() ==> (#[trigger] run[i]).offset == pending_start(q) + joined(
                    data_of(run.take(i)),
                ).len()
        }),
    decreases n,
{
    let part = q.chunks.take(n);
    let run = pending_from(part, q.sent);
    let from = pending_start(q) as int;
    if q.chunks.len() > 0 {
        crate::session::lemma_ends_bounded(q, 0);
    }
    if n == 0 {
        assert(data_of(run) =~= Seq::empty());
        assert(stream.subrange(from, from) =~= Seq::empty());
        assert(joined(Seq::empty()) =~= Seq::empty());
    } else {
        lemma_pending_run(q, stream, r, n - 1);
        assert(part.drop_last() =~= q.chunks.take(n - 1));
        let before = pending_from(part.drop_last(), q.sent);
        let c = q.chunks[n - 1];
        crate::session::lemma_ends_bounded(q, n - 1);
        assert(part.last() == c);
        assert(slice_of(stream, c.offset, c.data));
        lemma_offsets_grow(q, 0, n - 1);
        if n > 1 {
            assert(q.chunks[n - 2].end() == q.chunks[n - 1].offset);
        }
        if c.end() > q.sent {
            let rest = remainder(c, q.sent);
            assert(rest.offset == reached(q, n - 1));
            assert(rest.end() == reached(q, n));
            assert(rest.data =~= stream.subrange(rest.offset as int, rest.end() as int));
            assert(run == before.push(rest));
            assert(run.drop_last() =~= before);
            assert(data_of(run).drop_last() =~= data_of(before));
            assert(data_of(run).last() == rest.data);
            assert(stream.subrange(from, rest.offset as int) + rest.data =~= stream.subrange(
                from,
                rest.end() as int,
            ));
            let (mid, out) = accept_all(r, before);
            let (after, more) = mid.accepting(rest.offset as u64, rest.data);
            assert(after == (Inbound { applied: rest.end(), ..r }));
            assert(more =~= seq![rest.data]);
            lemma_joined_append(out, more);
            lemma_joined_one(rest.data);
            assert forall|i: int| 0 <= i < run.len() implies (#[trigger] run[i]).offset == from
                + joined(data_of(run.take(i))).len() by {
                if i < before.len() {
                    assert(run[i] == before[i]);
                    assert(run.take(i) =~= before.take(i));
                } else {
                    assert(run.take(i) =~= before);
                }
            }
        }
    }
}

/// Chunks of a queue come in the order of their offsets.
proof fn lemma_offsets_grow(q: Outbound, i: int, j: int)
    requires
        q.wf(),
        0 <= i <= j < q.chunks.len(),
    ensures
        q.chunks[i].offset <= q.chunks[j].offset,
    decreases j - i,
{
    if i < j {
        assert(q.chunks[i].end() == q.chunks[i + 1].offset);
        lemma_offsets_grow(q, i + 1, j);
    }
}

/// Wherever the peer acknowledged the stream, inside a chunk too, what is pending
/// after a rewind is the stream from there on, without gap or overlap. The same
/// holds of any place past it that the current link has reached.
pub proof fn law_pending_is_the_rest(q: Outbound, stream: Seq<u8>)
    requires
        holds(q, stream),
        q.acked <= q.next_offset <= u64::MAX,
    ensures
        joined(data_of(q.after_rewind().pending())) == stream.skip(q.acked as int),
        q.acked <= q.sent <= q.next_offset ==> joined(data_of(q.pending())) == stream.skip(
            q.sent as int,
        ),
        forall|i: int|
            q.acked <= q.sent <= q.next_offset && 0 <= i < q.pending().len() ==> slice_of(
                stream,
                (#[trigger] q.pending()[i]).offset,
                q.pending()[i].data,
            ),
{
    lemma_whole_pending(q.after_rewind(), stream);
    lemma_whole_pending(q, stream);
}

proof fn lemma_whole_pending(q: Outbound, stream: Seq<u8>)
    requires
        holds(q, stream),
        q.next_offset <= u64::MAX,
    ensures
        ({
            let r = Inbound { applied: pending_start(q), pending: Map::empty() };
            let (after, out) = accept_all(r, q.pending());
            &&& q.acked <= q.sent <= q.next_offset ==> pending_start(q) == q.sent
            &&& pending_start(q) <= q.next_offset
            &&& joined(data_of(q.pending())) == stream.skip(pending_start(q) as int)
            &&& after == (Inbound { applied: q.next_offset, ..r })
            &&& joined(out) == stream.skip(pending_start(q) as int)
            &&& forall|i: int|
                0 <= i < q.pending().len() ==> slice_of(
                    stream,
                    (#[trigger] q.pending()[i]).offset,
                    q.pending()[i].data,
                )
            &&& forall|i: int|
                0 <= i < q.pending().len() ==> (#[trigger] q.pending()[i]).offset
                    == pending_start(q) + joined(data_of(q.pending().take(i))).len()
        }),
{
    let n = q.chunks.len() as int;
    let from = pending_start(q) as int;
    let r = Inbound { applied: pending_start(q), pending: Map::empty() };
    lemma_pending_run(q, stream, r, n);
    assert(q.chunks.take(n) =~= q.chunks);
    assert(reached(q, n) == q.next_offset);
    assert(stream.subrange(from, q.next_offset as int) =~= stream.skip(from));
}

/// A receiver that buffers nothing may stop anywhere in the stream: resuming from
/// there hands on exactly the bytes that it lacked, however the stream is cut.
pub proof fn law_resume_from_anywhere(q: Outbound, r: Inbound, stream: Seq<u8>)
    requires
        holds(q, stream),
        q.acked <= r.applied <= stream.len() <= u64::MAX,
        r.pending == Map::<u64, Seq<u8>>::empty(),
    ensures
        ({
            let resumed = q.after_ack(r.applied).after_rewind();
            let (after, out) = accept_all(r, resumed.pending());
            &&& resumed.sent == r.applied
            &&& joined(data_of(resumed.pending())) == stream.skip(r.applied as int)
            &&& joined(out) == stream.skip(r.applied as int)
            &&& after == (Inbound { applied: stream.len(), ..r })
        }),
{
    let acked = q.after_ack(r.applied);
    law_queue_holds_the_stream(q, stream, Seq::empty(), r.applied);
    law_queue_holds_the_stream(acked, stream, Seq::empty(), 0);
    let resumed = acked.after_rewind();
    lemma_whole_pending(resumed, stream);
}

/// The first number at or past `from` and below `total` that is not in `order`,
/// or `total`.
pub open spec fn first_missing(order: Seq<int>, from: int, total: int) -> int
    decreases total - from,
{
    if from < total && order.contains(from) {
        first_missing(order, from + 1, total)
    } else {
        from
    }
}

/// The pieces that arrived, in the order in which they did.
pub open spec fn arrivals(pieces: Seq<Seq<u8>>, order: Seq<int>) -> Seq<Chunk> {
    order.map_values(|i: int| piece(pieces, i))
}

/// `i` is a piece from `from` on that arrived.
spec fn waiting(pieces: Seq<Seq<u8>>, order: Seq<int>, from: int, i: int) -> bool {
    from <= i < pieces.len() && order.contains(i)
}

/// The buffer holds the pieces from `from` on that arrived, and nothing else.
spec fn buffers(
    pending: Map<u64, Seq<u8>>,
    pieces: Seq<Seq<u8>>,
    order: Seq<int>,
    from: int,
) -> bool {
    &&& pending.dom().finite()
    &&& forall|i: int| #[trigger]
        waiting(pieces, order, from, i) ==> pending.contains_key(start(pieces, i) as u64)
            && pending[start(pieces, i) as u64] == pieces[i]
    &&& forall|k: u64| #[trigger]
        pending.contains_key(k) ==> exists|i: int| #[trigger]
            waiting(pieces, order, from, i) && k == start(pieces, i)
}

/// No piece is empty, and the stream stays within 64 bits.
pub open spec fn solid(pieces: Seq<Seq<u8>>) -> bool {
    &&& forall|i: int| 0 <= i < pieces.len() ==> (#[trigger] pieces[i]).len() > 0
    &&& start(pieces, pieces.len() as int) <= u64::MAX
}

/// Pieces that are not empty start at different offsets.
proof fn lemma_starts_differ(pieces: Seq<Seq<u8>>, i: int, j: int)
    requires
        solid(pieces),
        0 <= i < j <= pieces.len(),
    ensures
        start(pieces, i) < start(pieces, j) <= u64::MAX,
{
    assert(pieces[i].len() > 0);
    lemma_start_grows(pieces, i + 1, j);
    lemma_start_grows(pieces, j, pieces.len() as int);
}

proof fn lemma_first_missing(order: Seq<int>, from: int, total: int)
    requires
        from <= total,
    ensures
        from <= first_missing(order, from, total) <= total,
        forall|i: int|
            from <= i < first_missing(order, from, total) ==> #[trigger] order.contains(i),
        first_missing(order, from, total) < total ==> !order.contains(
            first_missing(order, from, total),
        ),
    decreases total - from,
{
    if from < total && order.contains(from) {
        lemma_first_missing(order, from + 1, total);
    }
}

/// Draining applies the run of pieces that arrived.
proof fn lemma_drain_applies_the_run(
    pending: Map<u64, Seq<u8>>,
    pieces: Seq<Seq<u8>>,
    order: Seq<int>,
    from: int,
)
    requires
        solid(pieces),
        0 <= from <= pieces.len(),
        buffers(pending, pieces, order, from),
    ensures
        ({
            let n = first_missing(order, from, pieces.len() as int);
            let rest = drain(start(pieces, from), pending).0;
            rest.applied == start(pieces, n) && buffers(rest.pending, pieces, order, n)
        }),
    decreases pieces.len() - from,
{
    let at = start(pieces, from);
    lemma_start_grows(pieces, from, pieces.len() as int);
    if from < pieces.len() && order.contains(from) {
        assert(waiting(pieces, order, from, from));
        let left = pending.remove(at as u64);
        assert forall|i: int| #[trigger] waiting(pieces, order, from + 1, i) implies
            left.contains_key(start(pieces, i) as u64) && left[start(pieces, i) as u64]
                == pieces[i] by {
            assert(waiting(pieces, order, from, i));
            lemma_starts_differ(pieces, from, i);
        }
        assert forall|k: u64| #[trigger] left.contains_key(k) implies exists|i: int| #[trigger]
            waiting(pieces, order, from + 1, i) && k == start(pieces, i) by {
            assert(pending.contains_key(k));
            let i = choose|i: int| #[trigger]
                waiting(pieces, order, from, i) && k == start(pieces, i);
            assert(i != from);
            assert(waiting(pieces, order, from + 1, i));
        }
        assert(start(pieces, from + 1) == at + pieces[from].len());
        lemma_drain_applies_the_run(left, pieces, order, from + 1);
    } else {
        if pending.contains_key(at as u64) {
            let i = choose|i: int| #[trigger]
                waiting(pieces, order, from, i) && at as u64 == start(pieces, i);
            if i > from {
                lemma_starts_differ(pieces, from, i);
            }
            assert(false);
        }
    }
}

/// Whatever the order in which pieces arrive, and however often they do, what was
/// applied is the longest run of them from the start of the stream that arrived,
/// and that is what was handed on. No piece is empty: an empty one that waits for
/// a gap to fill would take the place of the piece that follows it.
pub proof fn law_longest_run_is_applied(pieces: Seq<Seq<u8>>, order: Seq<int>)
    requires
        solid(pieces),
        forall|i: int| 0 <= i < order.len() ==> 0 <= #[trigger] order[i] < pieces.len(),
    ensures
        ({
            let (r, out) = accept_all(Inbound::initial(), arrivals(pieces, order));
            let n = first_missing(order, 0, pieces.len() as int);
            &&& r.applied == start(pieces, n)
            &&& joined(out) == joined(pieces).take(r.applied as int)
        }),
{
    lemma_longest_run(pieces, order);
}

proof fn lemma_longest_run(pieces: Seq<Seq<u8>>, order: Seq<int>)
    requires
        solid(pieces),
        forall|i: int| 0 <= i < order.len() ==> 0 <= #[trigger] order[i] < pieces.len(),
    ensures
        ({
            let (r, out) = accept_all(Inbound::initial(), arrivals(pieces, order));
            let n = first_missing(order, 0, pieces.len() as int);
            &&& r.applied == start(pieces, n)
            &&& buffers(r.pending, pieces, order, n)
            &&& receives(r, pieces)
            &&& joined(out) == joined(pieces).take(r.applied as int)
        }),
    decreases order.len(),
{
    let total = pieces.len() as int;
    let n = first_missing(order, 0, total);
    lemma_first_missing(order, 0, total);
    if order.len() == 0 {
        assert(arrivals(pieces, order) =~= Seq::empty());
        assert(!order.contains(0));
        assert(start(pieces, 0) == 0);
        assert(boundary(pieces, 0));
        assert(joined(Seq::empty()) =~= Seq::empty());
        assert(joined(pieces).take(0) =~= Seq::empty());
    } else {
        let shorter = order.drop_last();
        let i = order.last();
        assert(i == order[order.len() - 1]);
        assert forall|k: int| 0 <= k < shorter.len() implies 0 <= #[trigger] shorter[k]
            < pieces.len() by {
            assert(shorter[k] == order[k]);
        }
        lemma_longest_run(pieces, shorter);
        let m = first_missing(shorter, 0, total);
        lemma_first_missing(shorter, 0, total);
        assert(arrivals(pieces, order).drop_last() =~= arrivals(pieces, shorter));
        assert(arrivals(pieces, order).last() == piece(pieces, i));
        let (before, out) = accept_all(Inbound::initial(), arrivals(pieces, shorter));
        let offset = start(pieces, i) as u64;
        let (after, more) = before.accepting(offset, pieces[i]);
        law_accept_pieces(before, pieces, i);
        lemma_receives_follows(before, pieces);
        lemma_receives_follows(after, pieces);
        lemma_joined_append(out, more);
        assert(joined(pieces).take(before.applied as int) + joined(pieces).subrange(
            before.applied as int,
            after.applied as int,
        ) =~= joined(pieces).take(after.applied as int));
        assert forall|k: int| #[trigger] order.contains(k) <==> shorter.contains(k) || k == i by {
            if order.contains(k) {
                let at = order.index_of(k);
                if at < shorter.len() {
                    assert(shorter[at] == k);
                }
            }
            if shorter.contains(k) {
                let at = shorter.index_of(k);
                assert(order[at] == k);
            }
            assert(order[order.len() - 1] == i);
        }
        if i == m {
            lemma_new_first(shorter, order, i, total);
            assert(buffers(before.pending, pieces, order, m + 1)) by {
                lemma_buffers_agree(before.pending, pieces, shorter, order, m, m + 1);
            }
            assert(start(pieces, m + 1) == start(pieces, m) + pieces[m].len());
            lemma_drain_applies_the_run(before.pending, pieces, order, m + 1);
        } else {
            lemma_same_first(shorter, order, 0, total);
            if i < m {
                lemma_starts_differ(pieces, i, m);
                lemma_buffers_agree(before.pending, pieces, shorter, order, m, m);
            } else {
                lemma_starts_differ(pieces, m, i);
                if before.pending.contains_key(offset) {
                    let j = choose|j: int| #[trigger]
                        waiting(pieces, shorter, m, j) && offset == start(pieces, j);
                    if j < i {
                        lemma_starts_differ(pieces, j, i);
                    } else if i < j {
                        lemma_starts_differ(pieces, i, j);
                    }
                    lemma_buffers_agree(before.pending, pieces, shorter, order, m, m);
                } else {
                    lemma_buffers_one_more(before.pending, pieces, shorter, order, m, i);
                }
            }
        }
    }
}

/// A number that was not the first missing one does not change which one is.
proof fn lemma_same_first(shorter: Seq<int>, order: Seq<int>, from: int, total: int)
    requires
        from <= total,
        forall|k: int| #[trigger] shorter.contains(k) ==> order.contains(k),
        first_missing(shorter, from, total) < total ==> !order.contains(
            first_missing(shorter, from, total),
        ),
    ensures
        first_missing(order, from, total) == first_missing(shorter, from, total),
    decreases total - from,
{
    if from < total && shorter.contains(from) {
        lemma_same_first(shorter, order, from + 1, total);
    }
}

/// Once the first missing number arrived, the next one that is missing is past it.
proof fn lemma_new_first(shorter: Seq<int>, order: Seq<int>, i: int, total: int)
    requires
        0 <= i < total,
        i == first_missing(shorter, 0, total),
        forall|k: int| #[trigger] order.contains(k) <==> shorter.contains(k) || k == i,
    ensures
        first_missing(order, 0, total) == first_missing(order, i + 1, total),
{
    lemma_first_missing(shorter, 0, total);
    lemma_skip_present(order, 0, i + 1, total);
}

proof fn lemma_skip_present(order: Seq<int>, from: int, to: int, total: int)
    requires
        from <= to <= total,
        forall|k: int| from <= k < to ==> #[trigger] order.contains(k),
    ensures
        first_missing(order, from, total) == first_missing(order, to, total),
    decreases to - from,
{
    if from < to {
        assert(order.contains(from));
        lemma_skip_present(order, from + 1, to, total);
    }
}

/// The same pieces wait after an arrival that is not among those that wait.
proof fn lemma_buffers_agree(
    pending: Map<u64, Seq<u8>>,
    pieces: Seq<Seq<u8>>,
    shorter: Seq<int>,
    order: Seq<int>,
    from: int,
    then: int,
)
    requires
        buffers(pending, pieces, shorter, from),
        forall|k: int|
            #![trigger shorter.contains(k)]
            #![trigger order.contains(k)]
            (from <= k < pieces.len() && shorter.contains(k)) <==> (then <= k < pieces.len()
                && order.contains(k)),
    ensures
        buffers(pending, pieces, order, then),
{
    assert forall|k: int| #[trigger] waiting(pieces, order, then, k) implies waiting(
        pieces,
        shorter,
        from,
        k,
    ) by {
        assert(order.contains(k));
    }
    assert forall|k: u64| #[trigger] pending.contains_key(k) implies exists|i: int| #[trigger]
        waiting(pieces, order, then, i) && k == start(pieces, i) by {
        let i = choose|i: int| #[trigger]
            waiting(pieces, shorter, from, i) && k == start(pieces, i);
        assert(shorter.contains(i));
        assert(waiting(pieces, order, then, i));
    }
}

/// One more piece waits after it arrived early.
proof fn lemma_buffers_one_more(
    pending: Map<u64, Seq<u8>>,
    pieces: Seq<Seq<u8>>,
    shorter: Seq<int>,
    order: Seq<int>,
    from: int,
    i: int,
)
    requires
        solid(pieces),
        buffers(pending, pieces, shorter, from),
        0 <= from < i < pieces.len(),
        forall|k: int| #[trigger] order.contains(k) <==> shorter.contains(k) || k == i,
    ensures
        buffers(pending.insert(start(pieces, i) as u64, pieces[i]), pieces, order, from),
{
    let more = pending.insert(start(pieces, i) as u64, pieces[i]);
    lemma_starts_differ(pieces, from, i);
    assert forall|j: int| #[trigger] waiting(pieces, order, from, j) implies more.contains_key(
        start(pieces, j) as u64,
    ) && more[start(pieces, j) as u64] == pieces[j] by {
        assert(order.contains(j));
        if j != i {
            assert(waiting(pieces, shorter, from, j));
            if j < i {
                lemma_starts_differ(pieces, j, i);
            } else {
                lemma_starts_differ(pieces, i, j);
            }
        }
    }
    assert forall|k: u64| #[trigger] more.contains_key(k) implies exists|j: int| #[trigger]
        waiting(pieces, order, from, j) && k == start(pieces, j) by {
        if k == start(pieces, i) as u64 {
            assert(order.contains(i));
            assert(waiting(pieces, order, from, i));
        } else {
            let j = choose|j: int| #[trigger]
                waiting(pieces, shorter, from, j) && k == start(pieces, j);
            assert(shorter.contains(j));
            assert(order.contains(j));
            assert(waiting(pieces, order, from, j));
        }
    }
}

/// The bytes of the stream that the frames carry, in order.
pub open spec fn carried(frames: Seq<Message>) -> Seq<u8>
    decreases frames.len(),
{
    if frames.len() == 0 {
        Seq::empty()
    } else {
        let before = carried(frames.drop_last());
        match frames.last() {
            Message::Data { payload, .. } => before + payload,
            _ => before,
        }
    }
}

/// The frames carry the whole of `stream` from `from` on, each at its offset and
/// without gap or overlap, and nothing else, but for a FIN at the end if `fin`.
pub open spec fn carries_the_rest(
    frames: Seq<Message>,
    stream: Seq<u8>,
    from: nat,
    fin: bool,
) -> bool {
    &&& carried(frames) == stream.skip(from as int)
    &&& fin ==> frames.len() > 0
    &&& forall|i: int|
        0 <= i < frames.len() ==> match #[trigger] frames[i] {
            Message::Data { offset, .. } => !(fin && i == frames.len() - 1) && offset == from
                + carried(frames.take(i)).len(),
            Message::Fin => fin && i == frames.len() - 1,
            _ => false,
        }
}

/// What the `Data` frames of chunks carry is the data of the chunks.
proof fn lemma_data_frames_carry(chunks: Seq<Chunk>)
    ensures
        carried(data_frames(chunks)) == joined(data_of(chunks)),
    decreases chunks.len(),
{
    if chunks.len() > 0 {
        lemma_data_frames_carry(chunks.drop_last());
        assert(data_frames(chunks).drop_last() =~= data_frames(chunks.drop_last()));
        assert(data_of(chunks).drop_last() =~= data_of(chunks.drop_last()));
    }
}

proof fn lemma_due_frames_carry_the_rest(session: Session, stream: Seq<u8>)
    requires
        holds(session.send, stream),
        session.send.next_offset <= u64::MAX,
    ensures
        carries_the_rest(
            due_frames(session),
            stream,
            pending_start(session.send),
            session.fin && session.send.acked == session.send.next_offset,
        ),
{
    let q = session.send;
    let chunks = q.pending();
    let data = data_frames(chunks);
    let frames = due_frames(session);
    let fin = session.fin && q.acked == q.next_offset;
    lemma_whole_pending(q, stream);
    lemma_data_frames_carry(chunks);
    if fin {
        assert(frames.drop_last() =~= data);
        assert(frames.last() is Fin);
    } else {
        assert(frames =~= data);
    }
    assert forall|i: int| 0 <= i < frames.len() implies match #[trigger] frames[i] {
        Message::Data { offset, .. } => !(fin && i == frames.len() - 1) && offset
            == pending_start(q) + carried(frames.take(i)).len(),
        Message::Fin => fin && i == frames.len() - 1,
        _ => false,
    } by {
        if i < data.len() {
            assert(frames[i] == data[i]);
            assert(chunks[i].offset == pending_start(q) + joined(data_of(chunks.take(i))).len());
            assert(slice_of(stream, chunks[i].offset, chunks[i].data));
            lemma_data_frames_carry(chunks.take(i));
            assert(frames.take(i) =~= data_frames(chunks.take(i)));
        }
    }
}

/// Whatever has happened on a link, the peer's FIN included: when there is
/// something new to send, the link sends the whole of the stream that it has not
/// been handed yet, at its offsets, and a FIN after it just when the local side
/// ended and the peer applied everything. The link has then been handed all of the
/// stream, and nothing else changes. A send cursor that acknowledgements overtook
/// leaves out nothing that was not acknowledged.
pub proof fn law_send_ready_sends_the_rest(link: Link, session: Session, stream: Seq<u8>)
    requires
        holds(session.send, stream),
        session.send.next_offset <= u64::MAX,
    ensures
        ({
            let (after, state, next) = link.after(session, Happened::SendReady);
            let from = pending_start(session.send);
            &&& session.send.acked <= session.send.sent <= stream.len() ==> from
                == session.send.sent
            &&& from <= session.send.sent || from <= session.send.acked
            &&& next matches Next::Send { frames } && carries_the_rest(
                frames,
                stream,
                from,
                session.fin && session.send.acked == stream.len(),
            )
            &&& state.send.sent == stream.len()
            &&& state.send.next_offset == stream.len()
            &&& state.send.acked == session.send.acked
            &&& state.send.chunks == session.send.chunks
            &&& state.recv == session.recv
            &&& state.fin == session.fin
            &&& after.peer_fin == link.peer_fin
            &&& after.exit_on_peer_fin == link.exit_on_peer_fin
        }),
{
    lemma_due_frames_carry_the_rest(session, stream);
    lemma_whole_pending(session.send, stream);
}

/// An acknowledgement is recorded, unless more was
/// acknowledged before, and the link sends the whole of the stream that it has not
/// been handed yet, with a FIN after it just when the local side ended and the
/// peer has now applied everything.
pub proof fn law_ack_sends_the_rest(link: Link, session: Session, stream: Seq<u8>, offset: u64)
    requires
        holds(session.send, stream),
        session.send.next_offset <= u64::MAX,
    ensures
        ({
            let (after, state, next) = link.after(
                session,
                Happened::Frame(Message::Ack { offset }),
            );
            let acked = if offset as nat > session.send.acked {
                offset as nat
            } else {
                session.send.acked
            };
            let from = pending_start(session.send.after_ack(offset as nat));
            &&& acked <= session.send.sent <= stream.len() ==> from == session.send.sent
            &&& from <= session.send.sent || from <= acked
            &&& next matches Next::Send { frames } && carries_the_rest(
                frames,
                stream,
                from,
                session.fin && acked == stream.len(),
            )
            &&& state.send.acked == acked
            &&& state.send.sent == stream.len()
            &&& holds(state.send, stream)
            &&& state.recv == session.recv
            &&& state.fin == session.fin
        }),
{
    let acked = Session { send: session.send.after_ack(offset as nat), ..session };
    law_queue_holds_the_stream(session.send, stream, Seq::empty(), offset as nat);
    law_queue_holds_the_stream(acked.send, stream, Seq::empty(), 0);
    lemma_due_frames_carry_the_rest(acked, stream);
    lemma_whole_pending(acked.send, stream);
}

/// An acknowledgement never goes back. It lets go of chunks from the front only,
/// of those that the peer applied whole and of no other, and of every such one
/// up to the first that the peer still lacks.
pub proof fn law_ack_lets_go_of_what_was_applied(q: Outbound, offset: nat)
    requires
        q.wf(),
    ensures
        ({
            let after = q.after_ack(offset);
            let gone = q.chunks.len() - after.chunks.len();
            &&& after.acked == if offset > q.acked { offset } else { q.acked }
            &&& after.next_offset == q.next_offset
            &&& after.sent == q.sent
            &&& 0 <= gone
            &&& after.chunks == q.chunks.skip(gone)
            &&& forall|i: int| 0 <= i < gone ==> (#[trigger] q.chunks[i]).end() <= after.acked
            &&& offset > q.acked && after.chunks.len() > 0 ==> after.chunks[0].end() > after.acked
        }),
{
    if offset > q.acked {
        lemma_trimmed_is_suffix(q.chunks, offset);
        lemma_trimmed_parts(q.chunks, offset);
    } else {
        assert(q.chunks.skip(0) =~= q.chunks);
    }
}

proof fn lemma_trimmed_parts(chunks: Seq<Chunk>, upto: nat)
    ensures
        ({
            let left = trimmed(chunks, upto);
            let gone = chunks.len() - left.len();
            &&& forall|i: int| 0 <= i < gone ==> (#[trigger] chunks[i]).end() <= upto
            &&& left.len() > 0 ==> left[0].end() > upto
        }),
    decreases chunks.len(),
{
    if chunks.len() > 0 && chunks[0].end() <= upto {
        let rest = chunks.skip(1);
        lemma_trimmed_parts(rest, upto);
        lemma_trimmed_is_suffix(rest, upto);
        let gone = chunks.len() - trimmed(chunks, upto).len();
        assert forall|i: int| 0 <= i < gone implies (#[trigger] chunks[i]).end() <= upto by {
            if i > 0 {
                assert(rest[i - 1] == chunks[i]);
            }
        }
    }
}

/// A chunk that arrives early waits at its offset, as it is, and nothing else
/// changes; the chunk that continues the stream is handed on first, as it is, with
/// nothing before it.
pub proof fn law_chunk_waits_or_continues(r: Inbound, offset: u64, data: Seq<u8>, other: u64)
    requires
        r.wf(),
        other != offset,
    ensures
        ({
            let (after, out) = r.accepting(offset, data);
            &&& offset > r.applied ==> after.applied == r.applied && out.len() == 0
                && after.pending.contains_key(offset) && (after.pending.contains_key(other)
                <==> r.pending.contains_key(other)) && after.pending[other] == r.pending[other]
            &&& offset > r.applied && !r.pending.contains_key(offset) ==> after.pending[offset]
                == data
            &&& offset == r.applied ==> out.len() > 0 && out[0] == data && after.applied
                >= r.applied + data.len()
        }),
{
    lemma_drain_grows(r.applied + data.len(), r.pending);
}

/// Where chunk `i` of a run that starts at `applied` stands in the stream.
pub open spec fn place(applied: nat, out: Seq<Seq<u8>>, i: int) -> nat {
    applied + joined(out.take(i)).len()
}

/// A chunk in front of a run moves the places of the others by its length.
proof fn lemma_place_behind(applied: nat, first: Seq<u8>, more: Seq<Seq<u8>>, i: int)
    requires
        0 <= i <= more.len(),
    ensures
        place(applied, seq![first] + more, i + 1) == place(applied + first.len(), more, i),
{
    assert((seq![first] + more).take(i + 1) =~= seq![first] + more.take(i));
    lemma_joined_append(seq![first], more.take(i));
    lemma_joined_one(first);
}

/// Chunk `i` of the run waited at its place.
spec fn waited(applied: nat, pending: Map<u64, Seq<u8>>, out: Seq<Seq<u8>>, i: int) -> bool {
    &&& place(applied, out, i) <= u64::MAX
    &&& pending.contains_key(place(applied, out, i) as u64)
    &&& pending[place(applied, out, i) as u64] == out[i]
}

/// The run holds a chunk that waited at `k`.
spec fn taken(applied: nat, out: Seq<Seq<u8>>, k: u64) -> bool {
    exists|i: int| 0 <= i < out.len() && k == #[trigger] place(applied, out, i)
}

proof fn lemma_drain_takes_the_run(applied: nat, pending: Map<u64, Seq<u8>>)
    requires
        pending.dom().finite(),
    ensures
        ({
            let (rest, out) = drain(applied, pending);
            &&& rest.applied == place(applied, out, out.len() as int)
            &&& forall|i: int| 0 <= i < out.len() ==> #[trigger] waited(applied, pending, out, i)
            &&& forall|k: u64| #[trigger]
                pending.contains_key(k) ==> rest.pending.contains_key(k) || taken(applied, out, k)
        }),
    decreases pending.dom().len(),
{
    let (rest, out) = drain(applied, pending);
    assert(out.take(0) =~= Seq::empty());
    assert(place(applied, out, 0) == applied);
    if applied <= u64::MAX && pending.contains_key(applied as u64) {
        let next = pending[applied as u64];
        let left = pending.remove(applied as u64);
        let then = applied + next.len();
        let more = drain(then, left).1;
        assert(out == seq![next] + more);
        lemma_drain_takes_the_run(then, left);
        lemma_place_behind(applied, next, more, more.len() as int);
        assert forall|i: int| 0 <= i < out.len() implies #[trigger] waited(
            applied,
            pending,
            out,
            i,
        ) by {
            if i > 0 {
                lemma_place_behind(applied, next, more, i - 1);
                assert(waited(then, left, more, i - 1));
                assert(out[i] == more[i - 1]);
            }
        }
        assert forall|k: u64| #[trigger] pending.contains_key(k) implies rest.pending.contains_key(
            k,
        ) || taken(applied, out, k) by {
            if k == applied as u64 {
                assert(k == place(applied, out, 0));
            } else {
                assert(left.contains_key(k));
                if taken(then, more, k) {
                    let i = choose|i: int|
                        0 <= i < more.len() && k == #[trigger] place(then, more, i);
                    lemma_place_behind(applied, next, more, i);
                    assert(k == place(applied, out, i + 1));
                }
            }
        }
    }
}

/// What a chunk that continues the stream makes applicable, whatever waits: after
/// the chunk itself, the chunk that waits just where the one before it ends, and so
/// on until none does. The applied offset moves by what is handed on, and what was
/// handed on waits no longer, but all the rest does, unchanged.
pub proof fn law_run_is_handed_on(r: Inbound, data: Seq<u8>)
    requires
        r.wf(),
    ensures
        ({
            let (after, out) = r.accepting(r.applied as u64, data);
            &&& out.len() > 0 && out[0] == data
            &&& after.applied == r.applied + joined(out).len()
            &&& forall|i: int|
                1 <= i < out.len() ==> {
                    let at = #[trigger] place(r.applied, out, i);
                    at <= u64::MAX && r.pending.contains_key(at as u64) && r.pending[at as u64]
                        == out[i]
                }
            &&& after.applied <= u64::MAX ==> !after.pending.contains_key(after.applied as u64)
            &&& after.pending.submap_of(r.pending)
            &&& forall|k: u64| #[trigger]
                r.pending.contains_key(k) ==> after.pending.contains_key(k) || exists|i: int|
                    1 <= i < out.len() && k == #[trigger] place(r.applied, out, i)
        }),
{
    let (after, out) = r.accepting(r.applied as u64, data);
    let then = r.applied + data.len();
    let more = drain(then, r.pending).1;
    assert(out == seq![data] + more);
    lemma_drain_grows(then, r.pending);
    lemma_drain_takes_the_run(then, r.pending);
    lemma_place_behind(r.applied, data, more, more.len() as int);
    assert(out.take(out.len() as int) =~= out);
    assert forall|i: int| 1 <= i < out.len() implies {
        let at = #[trigger] place(r.applied, out, i);
        at <= u64::MAX && r.pending.contains_key(at as u64) && r.pending[at as u64] == out[i]
    } by {
        lemma_place_behind(r.applied, data, more, i - 1);
        assert(waited(then, r.pending, more, i - 1));
        assert(out[i] == more[i - 1]);
    }
    assert forall|k: u64| #[trigger] r.pending.contains_key(k) implies after.pending.contains_key(
        k,
    ) || exists|i: int| 1 <= i < out.len() && k == #[trigger] place(r.applied, out, i) by {
        if taken(then, more, k) {
            let i = choose|i: int| 0 <= i < more.len() && k == #[trigger] place(then, more, i);
            lemma_place_behind(r.applied, data, more, i);
            assert(k == place(r.applied, out, i + 1));
        }
    }
}

/// What the reads of the local side gave, in order: an empty read and a failed one
/// give nothing.
pub open spec fn given(reads: Seq<Option<Seq<u8>>>) -> Seq<u8>
    decreases reads.len(),
{
    if reads.len() == 0 {
        Seq::empty()
    } else {
        given(reads.drop_last()) + match reads.last() {
            Some(data) => data,
            None => Seq::empty(),
        }
    }
}

/// The session after a run of reads.
pub open spec fn after_reads(session: Session, reads: Seq<Option<Seq<u8>>>) -> Session
    decreases reads.len(),
{
    if reads.len() == 0 {
        session
    } else {
        after_reads(session, reads.drop_last()).after_local_read(reads.last())
    }
}

/// Everything that the local side gives goes into the outbound stream, whole and
/// in order, however long each read is; and the local side has ended just when some
/// read gave nothing or failed. What was sent, acknowledged and received does not
/// change.
pub proof fn law_local_reads_extend_the_stream(
    session: Session,
    stream: Seq<u8>,
    reads: Seq<Option<Seq<u8>>>,
)
    requires
        holds(session.send, stream),
    ensures
        ({
            let after = after_reads(session, reads);
            &&& holds(after.send, stream + given(reads))
            &&& after.send.next_offset == session.send.next_offset + given(reads).len()
            &&& after.send.acked == session.send.acked
            &&& after.send.sent == session.send.sent
            &&& after.recv == session.recv
            &&& after.fin <==> session.fin || exists|i: int|
                0 <= i < reads.len() && (#[trigger] reads[i] matches Some(data) ==> data.len()
                    == 0)
        }),
    decreases reads.len(),
{
    if reads.len() == 0 {
        assert(stream + given(reads) =~= stream);
    } else {
        let shorter = reads.drop_last();
        let before = after_reads(session, shorter);
        let held = stream + given(shorter);
        let last = reads.last();
        law_local_reads_extend_the_stream(session, stream, shorter);
        assert(reads[reads.len() - 1] == last);
        if exists|i: int|
            0 <= i < shorter.len() && (#[trigger] shorter[i] matches Some(data) ==> data.len()
                == 0) {
            let i = choose|i: int|
                0 <= i < shorter.len() && (#[trigger] shorter[i] matches Some(data) ==> data.len()
                    == 0);
            assert(reads[i] == shorter[i]);
        }
        if exists|i: int|
            0 <= i < reads.len() && (#[trigger] reads[i] matches Some(data) ==> data.len() == 0) {
            let i = choose|i: int|
                0 <= i < reads.len() && (#[trigger] reads[i] matches Some(data) ==> data.len()
                    == 0);
            if i < shorter.len() {
                assert(shorter[i] == reads[i]);
            }
        }
        match last {
            Some(data) => {
                law_queue_holds_the_stream(before.send, held, data, 0);
                assert(stream + given(reads) =~= held + data);
                if data.len() == 0 {
                    assert(held + data =~= held);
                }
            },
            None => {
                assert(stream + given(reads) =~= held);
            },
        }
    }
}

/// The larger of two offsets.
spec fn larger(a: nat, b: nat) -> nat {
    if a > b {
        a
    } else {
        b
    }
}

/// Starting a link where the peer says that it stands: from there on, or from
/// where it stood before if that is further, the stream is pending again, and all
/// of it is.
proof fn lemma_resumed_has_the_rest(session: Session, stream: Seq<u8>, peer_applied: nat)
    requires
        holds(session.send, stream),
        stream.len() <= u64::MAX,
    ensures
        ({
            let after = session.resumed(peer_applied);
            let at = larger(session.send.acked, peer_applied);
            &&& after.send.acked == at
            &&& after.send.sent == at
            &&& after.send.next_offset == stream.len()
            &&& holds(after.send, stream)
            &&& at <= stream.len() ==> joined(data_of(after.send.pending())) == stream.skip(
                at as int,
            )
            &&& at > stream.len() ==> joined(data_of(after.send.pending())) == Seq::<u8>::empty()
            &&& after.recv == session.recv
            &&& after.fin == session.fin
        }),
{
    let acked = session.send.after_ack(peer_applied);
    law_queue_holds_the_stream(session.send, stream, Seq::empty(), peer_applied);
    law_queue_holds_the_stream(acked, stream, Seq::empty(), 0);
    lemma_whole_pending(acked.after_rewind(), stream);
    assert(stream.skip(stream.len() as int) =~= Seq::empty());
}

/// A link that attaches to a session that is not over, whether or not another link
/// was there before, resumes the outbound stream at the offset that the client
/// applied, or at the one acknowledged before if that is further: from there on all
/// of the stream is pending, whatever was handed to earlier links. The client is
/// told what was applied of the inbound stream, which does not change. A session
/// that is over is left as it is.
pub proof fn law_attach_resumes_the_stream(
    before: ServerSession,
    after: ServerSession,
    attach: Attach,
    link: u64,
    client_applied: u64,
    now: u128,
    stream: Seq<u8>,
)
    requires
        before.attaches(link, client_applied, now, after, attach),
        holds(before.state@.send, stream),
        stream.len() <= u64::MAX,
        before.state@.recv.applied <= u64::MAX,
    ensures
        !before.tcp_closed ==> {
            let q = before.state@.send;
            let at = if client_applied as nat > q.acked { client_applied as nat } else { q.acked };
            &&& after.state@.send.acked == at
            &&& after.state@.send.sent == at
            &&& after.state@.send.next_offset == stream.len()
            &&& holds(after.state@.send, stream)
            &&& at <= stream.len() ==> joined(data_of(after.state@.send.pending()))
                == stream.skip(at as int)
            &&& at > stream.len() ==> joined(data_of(after.state@.send.pending())) == Seq::<
                u8,
            >::empty()
            &&& attach.welcome matches Some(applied) && applied == before.state@.recv.applied
        },
        before.tcp_closed ==> after.state@.send == before.state@.send && attach.welcome is None,
        after.state@.recv == before.state@.recv,
        after.state@.fin == before.state@.fin,
        after.tcp_closed == before.tcp_closed,
        after.last_seen == now,
{
    if !before.tcp_closed {
        lemma_resumed_has_the_rest(before.state@, stream, client_applied as nat);
    }
}

/// A hello for a session that the server knows and that is not over, whether or not
/// it asks to resume and whether or not a link was there before, makes its link the
/// session's, tells the client what was applied of its stream, and leaves pending
/// the whole of the server's stream from the offset that the hello gives, or from
/// the one acknowledged before if that is further. No other session changes. A
/// hello for a session that the server does not know changes nothing.
pub proof fn law_served_hello_resumes_the_stream(
    before: Sessions,
    after: Sessions,
    id: Seq<u8>,
    client_applied: u64,
    resume: bool,
    link: u64,
    now: u128,
    reply: HelloReply,
    stream: Seq<u8>,
    other: u128,
)
    requires
        serves(before, after, id, client_applied, resume, link, now, reply),
        other != key_of(id),
    ensures
        ({
            let k = key_of(id);
            let s = before@[k];
            let q = s.state@.send;
            before@.contains_key(k) && !s.tcp_closed && holds(q, stream) && q.acked
                <= stream.len() <= u64::MAX && client_applied <= stream.len()
                && s.state@.recv.applied <= u64::MAX ==> {
                let at = if client_applied as nat > q.acked {
                    client_applied as nat
                } else {
                    q.acked
                };
                &&& after@.contains_key(k)
                &&& after@[k].current == Some(link)
                &&& after@[k].state@.send.sent == at
                &&& after@[k].state@.send.acked == at
                &&& joined(data_of(after@[k].state@.send.pending())) == stream.skip(at as int)
                &&& after@[k].state@.recv == s.state@.recv
                &&& after@[k].last_seen == now
                &&& reply matches HelloReply::Attached(attach) && attach.superseded == s.current
                    && (attach.welcome matches Some(applied) && applied == s.state@.recv.applied)
            }
        }),
        after@.contains_key(other) <==> before@.contains_key(other),
        before@.contains_key(other) ==> after@[other] == before@[other],
        !before@.contains_key(key_of(id)) ==> after@ == before@ && (reply is Reject <==> resume)
            && (reply is Create <==> !resume),
{
    let k = key_of(id);
    let s = before@[k];
    let q = s.state@.send;
    if before@.contains_key(k) && !s.tcp_closed && holds(q, stream) && q.acked <= stream.len()
        <= u64::MAX && client_applied <= stream.len() && s.state@.recv.applied <= u64::MAX {
        law_attach_resumes_the_stream(
            s,
            after@[k],
            reply->Attached_0,
            link,
            client_applied,
            now,
            stream,
        );
    }
}

/// What a peer reads of one frame on the wire.
pub open spec fn on_the_wire(message: Message) -> Message {
    match decoded(message.encoded()) {
        Decoded::Complete { message, .. } => message,
        _ => Message::Fin,
    }
}

/// A handshake negotiates both resume points. The server reads the client's hello
/// as it was written, with the id of the session, and attaches the link at the
/// offset that the hello gives; the client reads the welcome as it was written.
/// Then the link is up, and what each side has pending is the whole of its stream
/// from the offset that the other side applied.
pub proof fn law_handshake_negotiates_both_resume_points(
    p: ProxyLoop,
    client: Session,
    up: Seq<u8>,
    server: ServerSession,
    down: Seq<u8>,
    attached: ServerSession,
    attach: Attach,
    link: u64,
    now: u128,
)
    requires
        holds(client.send, up),
        holds(server.state@.send, down),
        client.send.acked <= server.state@.recv.applied <= up.len() <= u64::MAX,
        server.state@.send.acked <= client.recv.applied <= down.len() <= u64::MAX,
        !server.tcp_closed,
        server.attaches(link, on_the_wire(p.greeting(client))->Hello_applied, now, attached, attach),
    ensures
        ({
            let hello = on_the_wire(p.greeting(client));
            &&& hello_read(Some(hello)) == Ok::<Message, Error>(hello)
            &&& hello matches Message::Hello { session_id, applied, resume } && session_id
                == p.session_id@ && applied == client.recv.applied && resume == p.resume
            &&& joined(data_of(attached.state@.send.pending())) == down.skip(
                client.recv.applied as int,
            )
        }),
        attach.welcome matches Some(applied) && {
            let (after, r) = answered(client, Some(on_the_wire(welcome(applied))));
            &&& r == Ok::<Handshake, Error>(Handshake::Done)
            &&& joined(data_of(after.send.pending())) == up.skip(
                server.state@.recv.applied as int,
            )
            &&& after.send.acked == server.state@.recv.applied
            &&& after.recv == client.recv
            &&& after.fin == client.fin
        },
{
    let hello = p.greeting(client);
    let none = Seq::<u8>::empty();
    law_frame_reads_back(hello, none);
    assert(hello.encoded() + none =~= hello.encoded());
    let applied = attach.welcome->0;
    law_frame_reads_back(welcome(applied), none);
    assert(welcome(applied).encoded() + none =~= welcome(applied).encoded());
    lemma_resumed_has_the_rest(server.state@, down, client.recv.applied);
    lemma_resumed_has_the_rest(client, up, server.state@.recv.applied);
}

/// A welcome completes the handshake, a rejection and the end of the stream fail
/// it, each with its own error, and any other frame leaves it waiting; but for a
/// welcome the session stays as it is. A server takes a hello as it is, and
/// nothing else.
pub proof fn law_handshake_answers(session: Session, message: Message)
    ensures
        answered(session, None) == (
            session,
            Err::<Handshake, Error>(Error::LinkClosed),
        ),
        answered(session, Some(Message::Reject)) == (
            session,
            Err::<Handshake, Error>(Error::SessionRejected),
        ),
        message is Welcome <==> answered(session, Some(message)).1 == Ok::<Handshake, Error>(
            Handshake::Done,
        ),
        !(message is Welcome) ==> answered(session, Some(message)).0 == session,
        !(message is Welcome) && !(message is Reject) ==> answered(session, Some(message)).1
            == Ok::<Handshake, Error>(Handshake::Wait),
        hello_read(None) == Err::<Message, Error>(Error::LinkClosed),
        message is Hello ==> hello_read(Some(message)) == Ok::<Message, Error>(message),
        !(message is Hello) ==> hello_read(Some(message)) == Err::<Message, Error>(
            Error::LinkClosed,
        ),
{
}

} // verus!
