use quash::client::{
    authentication, fetch_fingerprint, fingerprint_in, Authentication, Bootstrap, ProxyAction,
    ProxyEvent, ProxyLoop, MAX_RECONNECT_WINDOW,
};
use quash::error::Error;
use quash::link::LinkEnd;
use quash::proto::Frame;
use quash::session::SessionState;
use quash::text::{last_nonblank_line, split_whitespace, to_decimal, trim};

const FP: &str = "000102030405060708090a0b0c0d0e0f101112131415161718191a1b1c1d1e1f";

fn bootstrap() -> Bootstrap {
    Bootstrap {
        ssh_target: "user@host".to_string(),
        ssh_port: 22,
        command: "quash server  --print-fingerprint ".to_string(),
    }
}

#[test]
fn ssh_does_not_recurse_into_the_proxy_command() {
    assert_eq!(
        bootstrap().ssh_args(),
        [
            "-T",
            "-p",
            "22",
            "-o",
            "ProxyCommand=none",
            "-o",
            "ClearAllForwardings=yes",
            "user@host",
            "quash",
            "server",
            "--print-fingerprint",
        ]
    );
}

#[test]
fn a_given_fingerprint_goes_first() {
    match authentication(Some(FP.to_string()), Some(bootstrap())) {
        Ok(Authentication::Pinned(fp)) => assert_eq!(fp[31], 31),
        other => panic!("{:?}", other),
    }
    assert!(matches!(
        authentication(Some("zz".to_string()), Some(bootstrap())),
        Err(Error::InvalidFingerprint(_))
    ));
    assert!(matches!(
        authentication(Some("00".to_string()), None),
        Err(Error::FingerprintLength(1))
    ));
    assert!(matches!(authentication(None, Some(bootstrap())), Ok(Authentication::Fetch(_))));
    assert!(matches!(authentication(None, None), Err(Error::MissingAuthentication)));
}

#[test]
fn bootstrap_needs_a_target() {
    assert!(Bootstrap::for_target(None, 22, "x".to_string()).is_none());
    let b = Bootstrap::for_target(Some("t".to_string()), 2222, "x".to_string()).unwrap();
    assert_eq!((b.ssh_target.as_str(), b.ssh_port, b.command.as_str()), ("t", 2222, "x"));
}

#[test]
fn the_last_line_holds_the_fingerprint() {
    let out = format!("Welcome!\nlast login: today\r\n{}\r\n\n  \n", FP);
    assert_eq!(fetch_fingerprint(true, out.as_bytes()).unwrap()[1], 1);
    assert_eq!(fingerprint_in(FP).unwrap()[2], 2);
    assert_eq!(fetch_fingerprint(true, format!("{}\n", FP).as_bytes()).unwrap()[30], 30);
    assert!(matches!(fetch_fingerprint(true, b""), Err(Error::BootstrapEmpty)));
    assert!(matches!(fetch_fingerprint(true, b" \n\t\n"), Err(Error::BootstrapEmpty)));
    assert!(matches!(fetch_fingerprint(false, FP.as_bytes()), Err(Error::BootstrapExit)));
    assert!(matches!(
        fetch_fingerprint(true, format!("{}\nbye\n", FP).as_bytes()),
        Err(Error::InvalidFingerprint(_))
    ));
}

#[test]
fn bytes_that_are_not_utf8_are_replaced() {
    let mut out = vec![0xff, 0xfe, b'\n'];
    out.extend_from_slice(FP.as_bytes());
    assert_eq!(fetch_fingerprint(true, &out).unwrap()[9], 9);
    match fetch_fingerprint(true, &[b'0', 0xff]) {
        Err(Error::InvalidFingerprint(e)) => {
            assert_eq!(
                e,
                quash::hexdigits::HexError::InvalidHexCharacter { c: '\u{ef}', index: 1 }
            );
        }
        other => panic!("{:?}", other),
    }
}

#[test]
fn words_lines_and_numbers() {
    assert_eq!(trim(" \u{a0}a b\n"), "a b");
    assert_eq!(trim("\t \n"), "");
    assert_eq!(trim(""), "");
    assert_eq!(split_whitespace(" a\u{2003}bc \n d"), ["a", "bc", "d"]);
    assert!(split_whitespace("  ").is_empty());
    assert_eq!(last_nonblank_line("a\r\nb\r\n\r\n"), Some("b"));
    assert_eq!(last_nonblank_line("a\nb\r"), Some("b\r"));
    assert_eq!(last_nonblank_line("\n\n"), None);
    assert_eq!(to_decimal(0), "0");
    assert_eq!(to_decimal(65535), "65535");
    assert_eq!(to_decimal(2200), "2200");
}

fn client() -> (ProxyLoop, SessionState) {
    (ProxyLoop::new([7; 16], 0), SessionState::new())
}

#[test]
fn waits_double_up_to_five_seconds() {
    let (mut p, mut s) = client();
    for millis in [250, 500, 1000, 2000, 4000, 5000, 5000] {
        let event = ProxyEvent::ConnectFailed { stdin_finished: false, now: 1 };
        assert_eq!(p.proxy_loop(&mut s, event).unwrap(), ProxyAction::ConnectAfter { millis });
    }
    assert_eq!(p.proxy_loop(&mut s, ProxyEvent::HandshakeDone).unwrap(), ProxyAction::RunLink);
    assert_eq!(
        p.proxy_loop(&mut s, ProxyEvent::HandshakeFailed { now: 1 }).unwrap(),
        ProxyAction::ConnectAfter { millis: 250 }
    );
}

#[test]
fn retries_stop_after_ten_minutes_without_a_link() {
    let (mut p, mut s) = client();
    assert_eq!(MAX_RECONNECT_WINDOW, 600 * 1_000_000_000);
    let fail = |now: u128| ProxyEvent::ConnectFailed { stdin_finished: false, now };
    assert!(matches!(
        p.proxy_loop(&mut s, fail(MAX_RECONNECT_WINDOW - 1)),
        Ok(ProxyAction::ConnectAfter { .. })
    ));
    p.proxy_loop(&mut s, ProxyEvent::HandshakeDone).unwrap();
    let lost = 10 * MAX_RECONNECT_WINDOW;
    assert_eq!(
        p.proxy_loop(&mut s, ProxyEvent::LinkEnded { end: LinkEnd::Disconnected, now: lost }).unwrap(),
        ProxyAction::Connect
    );
    assert!(p.resume);
    assert_eq!(p.session_id, [7; 16]);
    p.proxy_loop(&mut s, ProxyEvent::HandshakeRejected { fresh_id: [8; 16] }).unwrap();
    assert!(matches!(
        p.proxy_loop(&mut s, fail(lost + MAX_RECONNECT_WINDOW - 1)),
        Ok(ProxyAction::ConnectAfter { .. })
    ));
    assert!(matches!(
        p.proxy_loop(&mut s, ProxyEvent::HandshakeFailed { now: lost + MAX_RECONNECT_WINDOW }),
        Err(Error::ReconnectGaveUp)
    ));
    assert!(matches!(
        p.proxy_loop(&mut s, fail(lost + MAX_RECONNECT_WINDOW)),
        Err(Error::ReconnectGaveUp)
    ));
}

#[test]
fn a_client_with_nothing_left_to_say_finishes() {
    let (mut p, mut s) = client();
    let event = ProxyEvent::ConnectFailed { stdin_finished: true, now: u128::MAX };
    assert_eq!(p.proxy_loop(&mut s, event).unwrap(), ProxyAction::Finish);
    let event = ProxyEvent::LinkEnded { end: LinkEnd::PeerFin, now: 5 };
    assert_eq!(p.proxy_loop(&mut s, event).unwrap(), ProxyAction::Finish);
}

#[test]
fn a_rejected_client_starts_over() {
    let (mut p, mut s) = client();
    p.resume = true;
    s.local_read(Some(b"abc"));
    s.recv.accept(0, b"xyz".to_vec().into());
    let event = ProxyEvent::HandshakeRejected { fresh_id: [9; 16] };
    assert_eq!(p.proxy_loop(&mut s, event).unwrap(), ProxyAction::Connect);
    assert_eq!(p.session_id, [9; 16]);
    assert!(!p.resume);
    assert_eq!(s.recv.applied(), 0);
    assert!(s.send.is_drained());
    assert!(s.send.take_pending().is_empty());
}

#[test]
fn the_session_outlives_its_links() {
    let (mut p, mut s) = client();
    s.recv.accept(0, b"abc".to_vec().into());
    let fail = || ProxyEvent::ConnectFailed { stdin_finished: false, now: 1 };
    p.proxy_loop(&mut s, fail()).unwrap();
    assert!(matches!(
        p.hello(&s),
        Frame::Hello { session_id: [7, ..], applied: 3, resume: false }
    ));
    p.proxy_loop(&mut s, ProxyEvent::HandshakeDone).unwrap();
    p.proxy_loop(&mut s, ProxyEvent::LinkEnded { end: LinkEnd::Disconnected, now: 2 }).unwrap();
    p.proxy_loop(&mut s, fail()).unwrap();
    p.proxy_loop(&mut s, ProxyEvent::HandshakeFailed { now: 3 }).unwrap();
    assert!(matches!(
        p.hello(&s),
        Frame::Hello { session_id: [7, ..], applied: 3, resume: true }
    ));
}

#[test]
fn an_error_of_the_link_ends_the_client() {
    let (mut p, mut s) = client();
    let error = Error::StdoutWrite(std::io::ErrorKind::BrokenPipe.into());
    match p.proxy_loop(&mut s, ProxyEvent::LinkFailed { error }) {
        Err(Error::StdoutWrite(e)) => assert_eq!(e.kind(), std::io::ErrorKind::BrokenPipe),
        other => panic!("{:?}", other),
    }
}

#[test]
fn every_white_space_character_is_trimmed() {
    let all = "\t\n\u{b}\u{c}\r \u{85}\u{a0}\u{1680}\u{2000}\u{2001}\u{2002}\u{2003}\u{2004}\u{2005}\u{2006}\u{2007}\u{2008}\u{2009}\u{200a}\u{2028}\u{2029}\u{202f}\u{205f}\u{3000}";
    assert_eq!(trim(&format!("{}x{}", all, all)), "x");
    for c in ['\u{1c}', '\u{180e}', '\u{200b}', '\u{2060}', '\u{feff}'] {
        let text = format!("{}x", c);
        assert_eq!(trim(&text), text);
    }
}
