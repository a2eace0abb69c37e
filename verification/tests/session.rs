use quash::session::{Reassembler, SendQueue, SessionState};

#[test]
fn send_queue_trims_acknowledged_chunks() {
    let mut q = SendQueue::default();
    assert_eq!(q.push(b"abc".to_vec().into()), 0);
    assert_eq!(q.push(b"defg".to_vec().into()), 3);
    q.ack(3);
    q.rewind();
    let offsets: Vec<_> = q.take_pending().iter().map(|(o, _)| *o).collect();
    assert_eq!(offsets, vec![3]);
    q.ack(7);
    assert!(q.is_drained());
}

#[test]
fn send_queue_resends_after_rewind() {
    let mut q = SendQueue::default();
    q.push(b"abc".to_vec().into());
    assert_eq!(q.take_pending().len(), 1);
    assert!(!q.is_drained());
    q.rewind();
    assert_eq!(q.take_pending().len(), 1);
}

#[test]
fn send_queue_sends_partial_remainder() {
    let mut q = SendQueue::default();
    q.push(b"abcdef".to_vec().into());
    q.take_pending();
    q.ack(2);
    q.rewind();
    let pending = q.take_pending();
    assert_eq!(pending.len(), 1);
    assert_eq!(pending[0].0, 2);
    assert_eq!(&pending[0].1[..], b"cdef");
}

#[test]
fn reassembler_drops_duplicates_and_reorders() {
    let mut r = Reassembler::default();
    assert_eq!(r.accept(0, b"abc".to_vec().into()).len(), 1);
    assert_eq!(r.applied(), 3);
    assert!(r.accept(0, b"abc".to_vec().into()).is_empty());
    assert!(r.accept(6, b"ghi".to_vec().into()).is_empty());
    let flushed = r.accept(3, b"def".to_vec().into());
    assert_eq!(flushed.len(), 2);
    assert_eq!(r.applied(), 9);
}

#[test]
fn pending_is_handed_out_once_per_link() {
    let mut q = SendQueue::default();
    q.push(b"ab".to_vec().into());
    q.push(b"cd".to_vec().into());
    let first = q.take_pending();
    assert_eq!(first.len(), 2);
    assert_eq!((first[0].0, &first[0].1[..]), (0, &b"ab"[..]));
    assert_eq!((first[1].0, &first[1].1[..]), (2, &b"cd"[..]));
    assert!(q.take_pending().is_empty());
    q.push(b"e".to_vec().into());
    let later = q.take_pending();
    assert_eq!(later.len(), 1);
    assert_eq!((later[0].0, &later[0].1[..]), (4, &b"e"[..]));
}

#[test]
fn stale_and_excessive_acks() {
    let mut q = SendQueue::default();
    q.push(b"abc".to_vec().into());
    q.ack(3);
    q.ack(1);
    assert!(q.is_drained());
    q.ack(10);
    assert!(!q.is_drained());
    assert_eq!(q.push(b"de".to_vec().into()), 3);
    q.rewind();
    assert!(q.take_pending().is_empty());
}

#[test]
fn empty_chunks_pass_through() {
    let mut q = SendQueue::default();
    assert_eq!(q.push(Vec::new().into()), 0);
    assert_eq!(q.push(b"x".to_vec().into()), 0);
    let pending = q.take_pending();
    assert_eq!(pending.len(), 1);
    assert_eq!(&pending[0].1[..], b"x");

    let mut r = Reassembler::default();
    assert!(r.accept(2, Vec::new().into()).is_empty());
    let out = r.accept(0, b"ab".to_vec().into());
    assert_eq!(out.len(), 2);
    assert_eq!(r.applied(), 2);
    assert_eq!(r.accept(2, Vec::new().into()).len(), 1);
    assert_eq!(r.applied(), 2);
}

#[test]
fn first_of_two_waiting_chunks_wins() {
    let mut r = Reassembler::default();
    assert!(r.accept(1, b"b".to_vec().into()).is_empty());
    assert!(r.accept(1, b"XYZ".to_vec().into()).is_empty());
    let out = r.accept(0, b"a".to_vec().into());
    assert_eq!(out.len(), 2);
    assert_eq!(&out[1][..], b"b");
    assert_eq!(r.applied(), 2);
}

#[test]
fn fits_follows_the_run() {
    let mut r = Reassembler::default();
    assert!(r.fits(0, &b"abc".to_vec().into()));
    assert!(r.fits(u64::MAX, &b"abc".to_vec().into()));
    r.accept(u64::MAX - 1, b"zzz".to_vec().into());
    assert!(r.fits(0, &b"abc".to_vec().into()));
    assert!(r.fits(7, &b"abc".to_vec().into()));
    r.accept(3, b"defg".to_vec().into());
    r.accept(7, Vec::new().into());
    assert!(r.fits(0, &b"abc".to_vec().into()));
}

#[test]
fn reset_forgets_everything() {
    let mut q = SendQueue::default();
    q.push(b"abc".to_vec().into());
    q.reset();
    assert!(q.is_drained());
    assert_eq!(q.push(b"d".to_vec().into()), 0);
    assert_eq!(q.room(), u64::MAX - 1);

    let mut r = Reassembler::default();
    r.accept(0, b"abc".to_vec().into());
    r.accept(9, b"x".to_vec().into());
    r.reset();
    assert_eq!(r.applied(), 0);
    assert_eq!(r.accept(0, b"12345678".to_vec().into()).len(), 1);
    assert!(r.accept(9, b"y".to_vec().into()).is_empty());
    let out = r.accept(8, b"9".to_vec().into());
    assert_eq!(&out[1][..], b"y");
}

#[test]
fn local_reads_fill_the_queue_until_the_end() {
    let mut s = SessionState::new();
    assert!(s.local_read(Some(b"abc")));
    assert!(!s.fin);
    assert!(!s.local_read(Some(b"")));
    assert!(s.fin);
    let mut t = SessionState::new();
    assert!(!t.local_read(None));
    assert!(t.fin);
    let pending = s.send.take_pending();
    assert_eq!(&pending[0].1[..], b"abc");
    s.start_over();
    assert!(s.fin);
    assert!(s.send.is_drained());
    assert_eq!(s.recv.applied(), 0);
}

#[test]
fn reconnect_resumes_both_directions() {
    let mut client = SessionState::new();
    let mut server = SessionState::new();
    client.local_read(Some(b"hello "));
    client.local_read(Some(b"world"));
    server.local_read(Some(b"welcome "));
    let mut to_server = Vec::new();
    let mut to_client = Vec::new();
    for (offset, data) in client.send.take_pending().into_iter().take(1) {
        for chunk in server.recv.accept(offset, data) {
            to_server.extend_from_slice(&chunk);
        }
    }
    server.local_read(Some(b"back"));

    server.resume(client.recv.applied());
    client.resume(server.recv.applied());
    for (offset, data) in client.send.take_pending() {
        for chunk in server.recv.accept(offset, data) {
            to_server.extend_from_slice(&chunk);
        }
    }
    for (offset, data) in server.send.take_pending() {
        for chunk in client.recv.accept(offset, data) {
            to_client.extend_from_slice(&chunk);
        }
    }
    assert_eq!(to_server, b"hello world");
    assert_eq!(to_client, b"welcome back");
    assert_eq!(server.recv.applied(), 11);
    client.send.ack(11);
    assert!(client.send.is_drained());
    assert!(client.send.take_pending().is_empty());
}

#[test]
fn pieces_in_any_order_give_the_longest_run() {
    let pieces: [(u64, &[u8]); 4] = [(0, b"ab"), (2, b"c"), (3, b"def"), (6, b"g")];
    let mut r = Reassembler::default();
    let mut out = Vec::new();
    for (i, applied) in [(3, 0), (1, 0), (1, 0), (0, 3), (3, 3), (2, 7), (0, 7)] {
        let (offset, data) = pieces[i];
        for chunk in r.accept(offset, data.to_vec().into()) {
            out.extend_from_slice(&chunk);
        }
        assert_eq!(r.applied(), applied);
    }
    assert_eq!(out, b"abcdefg");
}

#[test]
fn an_acknowledgement_may_lie_anywhere() {
    let stream = b"abcdefghij";
    for at in 0..=10u64 {
        let mut q = SendQueue::default();
        q.push(b"abc".to_vec().into());
        q.push(b"def".to_vec().into());
        q.push(b"ghij".to_vec().into());
        q.take_pending();
        q.ack(at);
        q.rewind();
        let mut rest = Vec::new();
        for (offset, data) in q.take_pending() {
            assert_eq!(offset, at + rest.len() as u64);
            rest.extend_from_slice(&data);
        }
        assert_eq!(rest, &stream[at as usize..]);
    }
}
