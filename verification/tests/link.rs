use quash::error::Error;
use quash::link::{
    new_session_id, session_id_from, Handshake, Link, LinkAction, LinkEnd, LinkEvent, Outcome,
    FIN_GRACE,
};
use quash::proto::{read_frame, write_frame, Frame, FrameRead};
use quash::server::{
    session_key, Attach, HelloReply, SessionChoice, Sessions, SESSION_IDLE_TIMEOUT,
};
use quash::session::SessionState;

fn data(offset: u64, bytes: &[u8]) -> LinkEvent {
    LinkEvent::Frame(Frame::Data { offset, payload: bytes.to_vec().into() })
}

#[test]
fn session_ids_are_random() {
    assert_ne!(new_session_id(), new_session_id());
    assert_eq!(session_id_from(Some([3; 16])), [3; 16]);
    assert_eq!(session_id_from(None), [0; 16]);
}

#[test]
fn the_first_frame_must_be_a_hello() {
    let hello = Frame::Hello { session_id: [1; 16], applied: 2, resume: true };
    assert!(matches!(
        Link::read_hello(Some(hello)),
        Ok(Frame::Hello { session_id: [1, ..], applied: 2, resume: true })
    ));
    assert!(matches!(Link::read_hello(Some(Frame::Fin)), Err(Error::LinkClosed)));
    assert!(matches!(Link::read_hello(None), Err(Error::LinkClosed)));
}

#[test]
fn handshake_negotiates_the_resume_points() {
    let mut s = SessionState::new();
    s.local_read(Some(b"abcdef"));
    s.recv.accept(0, b"xy".to_vec().into());
    assert!(matches!(
        Link::hello(&s, &[4; 16], true),
        Frame::Hello { session_id: [4, ..], applied: 2, resume: true }
    ));
    s.send.take_pending();
    assert_eq!(Link::client_handshake(&mut s, Some(Frame::Fin)).unwrap(), Handshake::Wait);
    assert!(s.send.take_pending().is_empty());
    assert_eq!(
        Link::client_handshake(&mut s, Some(Frame::Welcome { applied: 4 })).unwrap(),
        Handshake::Done
    );
    let pending = s.send.take_pending();
    assert_eq!((pending[0].0, &pending[0].1[..]), (4, &b"ef"[..]));
    assert!(matches!(
        Link::client_handshake(&mut s, Some(Frame::Reject)),
        Err(Error::SessionRejected)
    ));
    assert!(matches!(Link::client_handshake(&mut s, None), Err(Error::LinkClosed)));
}

#[test]
fn answers_of_the_server() {
    assert!(matches!(Link::send_welcome(8), Frame::Welcome { applied: 8 }));
    assert!(matches!(Link::send_reject(), Frame::Reject));
}

fn broken() -> Outcome {
    Outcome::SinkFailed(std::io::ErrorKind::BrokenPipe.into())
}

fn done(link: &mut Link, s: &SessionState) -> LinkAction {
    link.acted(s, Outcome::Done).unwrap()
}

#[test]
fn data_is_delivered_and_acknowledged() {
    let mut link = Link::new(true);
    let mut s = SessionState::new();
    match link.run(&mut s, data(3, b"def")) {
        LinkAction::Deliver { chunks } => assert!(chunks.is_empty()),
        other => panic!("{:?}", other),
    }
    match done(&mut link, &s) {
        LinkAction::Send { frames } => {
            assert_eq!(frames.len(), 1);
            assert!(matches!(frames[0], Frame::Ack { offset: 0 }));
        }
        other => panic!("{:?}", other),
    }
    assert!(matches!(done(&mut link, &s), LinkAction::Wait));
    match link.run(&mut s, data(0, b"abc")) {
        LinkAction::Deliver { chunks } => {
            assert_eq!(chunks.len(), 2);
            assert_eq!(&chunks[0][..], b"abc");
            assert_eq!(&chunks[1][..], b"def");
        }
        other => panic!("{:?}", other),
    }
    match done(&mut link, &s) {
        LinkAction::Send { frames } => {
            assert_eq!(frames.len(), 1);
            assert!(matches!(frames[0], Frame::Ack { offset: 6 }));
        }
        other => panic!("{:?}", other),
    }
    assert!(matches!(done(&mut link, &s), LinkAction::Wait));
}

#[test]
fn a_local_side_that_fails_is_fatal() {
    let mut s = SessionState::new();
    let mut link = Link::new(true);
    link.run(&mut s, data(0, b"abc"));
    match link.acted(&s, broken()) {
        Err(Error::StdoutWrite(e)) => assert_eq!(e.kind(), std::io::ErrorKind::BrokenPipe),
        other => panic!("{:?}", other),
    }
    let mut link = Link::new(true);
    link.run(&mut s, LinkEvent::Frame(Frame::Fin));
    assert!(matches!(link.acted(&s, broken()), Err(Error::StdoutWrite(_))));
    let mut link = Link::new(false);
    link.run(&mut s, LinkEvent::Frame(Frame::Fin));
    assert!(matches!(link.acted(&s, broken()), Ok(LinkAction::Wait)));
}

#[test]
fn a_transport_that_fails_disconnects() {
    let mut s = SessionState::new();
    let mut link = Link::new(false);
    link.run(&mut s, data(0, b"abc"));
    done(&mut link, &s);
    assert!(matches!(
        link.acted(&s, Outcome::SendFailed),
        Ok(LinkAction::End(LinkEnd::Disconnected))
    ));
    let mut link = Link::new(false);
    link.run(&mut s, LinkEvent::SendReady);
    assert!(matches!(
        link.acted(&s, Outcome::SendFailed),
        Ok(LinkAction::End(LinkEnd::Disconnected))
    ));
    let mut link = Link::new(false);
    link.run(&mut s, LinkEvent::Frame(Frame::Ack { offset: 0 }));
    assert!(matches!(link.acted(&s, Outcome::SendFailed), Ok(LinkAction::Wait)));
}

#[test]
fn the_wire_delivers_the_rest() {
    let mut client = SessionState::new();
    let mut server = SessionState::new();
    client.local_read(Some(b"lost "));
    client.local_read(Some(b"and "));
    Link::flush_send(&mut client);
    server.recv.accept(0, b"lost ".to_vec().into());
    client.local_read(Some(b"found"));
    client.resume(server.recv.applied());

    let mut wire = Vec::new();
    for frame in Link::flush_send(&mut client) {
        wire.extend(write_frame(&frame).unwrap());
    }
    let mut link = Link::new(false);
    let mut delivered = Vec::new();
    while !wire.is_empty() {
        match read_frame(&wire) {
            FrameRead::Complete { frame, consumed } => {
                wire.drain(..consumed);
                match link.run(&mut server, LinkEvent::Frame(frame)) {
                    LinkAction::Deliver { chunks } => {
                        for chunk in chunks {
                            delivered.extend_from_slice(&chunk);
                        }
                    }
                    other => panic!("{:?}", other),
                }
            }
            other => panic!("{:?}", other),
        }
    }
    assert_eq!(delivered, b"and found");
    assert_eq!(server.recv.applied(), 14);
}

#[test]
fn fin_waits_for_the_last_acknowledgement() {
    let mut link = Link::new(false);
    let mut s = SessionState::new();
    s.local_read(Some(b"abc"));
    s.local_read(None);
    match link.run(&mut s, LinkEvent::SendReady) {
        LinkAction::Send { frames } => {
            assert_eq!(frames.len(), 1);
            assert!(matches!(
                &frames[0],
                Frame::Data { offset: 0, payload } if &payload[..] == b"abc"
            ));
        }
        other => panic!("{:?}", other),
    }
    assert!(matches!(done(&mut link, &s), LinkAction::Wait));
    match link.run(&mut s, LinkEvent::Frame(Frame::Ack { offset: 3 })) {
        LinkAction::Send { frames } => {
            assert_eq!(frames.len(), 1);
            assert!(matches!(frames[0], Frame::Fin));
        }
        other => panic!("{:?}", other),
    }
    assert!(matches!(done(&mut link, &s), LinkAction::Wait));
}

#[test]
fn a_client_ends_with_the_server_and_a_server_finishes_its_output() {
    let mut s = SessionState::new();
    let mut client = Link::new(true);
    let fin = client.run(&mut s, LinkEvent::Frame(Frame::Fin));
    assert!(matches!(fin, LinkAction::Finish { linger: 0 }));
    assert!(matches!(done(&mut client, &s), LinkAction::End(LinkEnd::PeerFin)));

    let mut server = Link::new(false);
    s.local_read(Some(b"out"));
    let fin = server.run(&mut s, LinkEvent::Frame(Frame::Fin));
    assert!(matches!(fin, LinkAction::Shutdown));
    assert!(matches!(done(&mut server, &s), LinkAction::Wait));
    s.local_read(None);
    assert!(!server.is_complete(&s));
    server.run(&mut s, LinkEvent::Frame(Frame::Ack { offset: 3 }));
    assert!(server.is_complete(&s));
    assert_eq!(FIN_GRACE, 3000);
    assert!(matches!(done(&mut server, &s), LinkAction::Finish { linger: FIN_GRACE }));
    assert!(matches!(done(&mut server, &s), LinkAction::End(LinkEnd::PeerFin)));
}

#[test]
fn what_is_no_frame_loses_the_link() {
    assert!(matches!(
        LinkEvent::received::<Error>(Ok(Some(Frame::Fin))),
        LinkEvent::Frame(Frame::Fin)
    ));
    assert!(matches!(LinkEvent::received::<Error>(Ok(None)), LinkEvent::Lost));
    assert!(matches!(LinkEvent::received(Err(Error::UnexpectedEof)), LinkEvent::Lost));
}

#[test]
fn lost_links_and_stray_frames() {
    let mut link = Link::new(false);
    let mut s = SessionState::new();
    assert!(matches!(
        link.run(&mut s, LinkEvent::Lost),
        LinkAction::End(LinkEnd::Disconnected)
    ));
    for frame in [
        Frame::Reject,
        Frame::Welcome { applied: 9 },
        Frame::Hello { session_id: [0; 16], applied: 0, resume: false },
    ] {
        assert!(matches!(link.run(&mut s, LinkEvent::Frame(frame)), LinkAction::Wait));
    }
    assert!(s.send.is_drained());
}

#[test]
fn unknown_sessions_are_created_or_rejected() {
    let mut table = Sessions::new();
    assert_eq!(table.create_or_get_session(&[1; 16], true), SessionChoice::Reject);
    assert_eq!(table.create_or_get_session(&[1; 16], false), SessionChoice::Create);
    assert_eq!(table.serve_link(&[1; 16], 0, true, 1, 0), HelloReply::Reject);
    assert_eq!(table.serve_link(&[1; 16], 0, false, 1, 0), HelloReply::Create);
    table.insert(&[1; 16], 5);
    assert_eq!(table.create_or_get_session(&[1; 16], true), SessionChoice::Existing);
    assert_eq!(table.create_or_get_session(&[2; 16], true), SessionChoice::Reject);
    assert!(table.session(&[2; 16]).is_none());
    assert_eq!(
        table.serve_link(&[1; 16], 0, false, 1, 7),
        HelloReply::Attached(Attach { superseded: None, welcome: Some(0) })
    );
    assert_eq!(table.session(&[1; 16]).unwrap().last_seen, 7);
}

#[test]
fn a_new_link_takes_over_and_resumes() {
    let mut table = Sessions::new();
    table.insert(&[1; 16], 0);
    table.serve_link(&[1; 16], 0, false, 1, 0);
    let session = table.session(&[1; 16]).unwrap();
    session.state.local_read(Some(b"abcdef"));
    session.state.send.take_pending();
    session.state.recv.accept(0, b"xyz".to_vec().into());
    assert_eq!(
        table.serve_link(&[1; 16], 4, true, 2, 10),
        HelloReply::Attached(Attach { superseded: Some(1), welcome: Some(3) })
    );
    let session = table.session(&[1; 16]).unwrap();
    let pending = session.state.send.take_pending();
    assert_eq!((pending[0].0, &pending[0].1[..]), (4, &b"ef"[..]));
    session.detach(1, Some(LinkEnd::Disconnected), 11);
    assert_eq!(session.current, Some(2));
    assert_eq!(session.last_seen, 11);
    session.detach(2, None, 12);
    assert_eq!(session.current, None);
    assert_eq!(session.last_seen, 12);
    assert!(!session.tcp_closed);
}

#[test]
fn a_finished_session_refuses_links() {
    let mut table = Sessions::new();
    table.insert(&[1; 16], 0);
    table.serve_link(&[1; 16], 0, false, 1, 0);
    table.session(&[1; 16]).unwrap().detach(1, Some(LinkEnd::PeerFin), 3);
    assert_eq!(
        table.serve_link(&[1; 16], 0, true, 2, 4),
        HelloReply::Attached(Attach { superseded: None, welcome: None })
    );
    assert_eq!(table.session(&[1; 16]).unwrap().current, Some(2));
    assert_eq!(
        table.serve_link(&[1; 16], 0, true, 3, 5),
        HelloReply::Attached(Attach { superseded: Some(2), welcome: None })
    );
    let session = table.session(&[1; 16]).unwrap();
    assert_eq!(session.current, Some(3));
    session.detach(3, None, 6);
    assert_eq!(session.current, None);
    assert_eq!(session.last_seen, 6);
    assert!(session.tcp_closed);
}

#[test]
fn a_server_finishes_only_once_drained() {
    let mut s = SessionState::new();
    let mut link = Link::new(false);
    s.local_read(Some(b"out"));
    link.run(&mut s, LinkEvent::SendReady);
    done(&mut link, &s);
    link.run(&mut s, LinkEvent::Frame(Frame::Fin));
    assert!(matches!(done(&mut link, &s), LinkAction::Wait));
    s.local_read(None);
    link.run(&mut s, LinkEvent::SendReady);
    assert!(matches!(done(&mut link, &s), LinkAction::Wait));
    link.run(&mut s, LinkEvent::Frame(Frame::Ack { offset: 2 }));
    assert!(matches!(done(&mut link, &s), LinkAction::Wait));
    link.run(&mut s, LinkEvent::Frame(Frame::Ack { offset: 3 }));
    assert!(matches!(done(&mut link, &s), LinkAction::Finish { .. }));
    assert!(matches!(done(&mut link, &s), LinkAction::End(LinkEnd::PeerFin)));
}

#[test]
fn reaping() {
    let mut table = Sessions::new();
    for id in [1u8, 2, 3, 4] {
        table.insert(&[id; 16], 100);
    }
    // 1 keeps a link, 2 is idle, 3 is over and drained, 4 is over but not drained.
    table.serve_link(&[1; 16], 0, false, 1, 100);
    table.session(&[3; 16]).unwrap().detach(9, Some(LinkEnd::PeerFin), 100);
    table.session(&[4; 16]).unwrap().detach(9, Some(LinkEnd::PeerFin), 100);
    table.session(&[4; 16]).unwrap().state.local_read(Some(b"x"));
    assert_eq!(SESSION_IDLE_TIMEOUT, 21_600 * 1_000_000_000);
    let due = 100 + SESSION_IDLE_TIMEOUT;
    assert_eq!(table.reap(due), vec![u128::from_be_bytes([3; 16])]);
    assert!(table.reap(50).is_empty());
    let mut reaped = table.reap(due + 1);
    reaped.sort();
    assert_eq!(reaped, vec![u128::from_be_bytes([2; 16]), u128::from_be_bytes([4; 16])]);
    assert!(table.session(&[1; 16]).is_some());
    assert_eq!(table.create_or_get_session(&[2; 16], true), SessionChoice::Reject);
}

#[test]
fn the_idle_period_starts_when_the_link_ends() {
    for end in [None, Some(LinkEnd::Disconnected)] {
        let mut table = Sessions::new();
        table.insert(&[1; 16], 0);
        table.serve_link(&[1; 16], 0, false, 1, 0);
        let ended = 2 * SESSION_IDLE_TIMEOUT;
        assert!(table.reap(ended).is_empty());
        table.session(&[1; 16]).unwrap().detach(1, end, ended);
        assert!(table.reap(ended + SESSION_IDLE_TIMEOUT).is_empty());
        assert_eq!(table.reap(ended + SESSION_IDLE_TIMEOUT + 1), vec![session_key(&[1; 16])]);
    }
}
