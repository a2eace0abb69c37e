use quash::error::Error;
use quash::proto::{at_end, read_frame, write_frame, Frame, FrameRead};

fn complete(bytes: &[u8]) -> (Frame, usize) {
    match read_frame(bytes) {
        FrameRead::Complete { frame, consumed } => (frame, consumed),
        other => panic!("{:?}", other),
    }
}

fn missing(bytes: &[u8]) -> usize {
    match read_frame(bytes) {
        FrameRead::Incomplete { missing } => missing,
        other => panic!("{:?}", other),
    }
}

#[test]
fn data_frame_layout() {
    let bytes = write_frame(&Frame::Data { offset: 0x0102, payload: b"xyz".to_vec().into() }).unwrap();
    assert_eq!(bytes, [0, 0, 0, 0, 0, 0, 0, 1, 2, 0, 0, 0, 3, b'x', b'y', b'z']);
    let (frame, consumed) = complete(&bytes);
    assert_eq!(consumed, 16);
    match frame {
        Frame::Data { offset, payload } => {
            assert_eq!(offset, 0x0102);
            assert_eq!(&payload[..], b"xyz");
        }
        other => panic!("{:?}", other),
    }
}

#[test]
fn ack_and_welcome_layout() {
    assert_eq!(
        write_frame(&Frame::Ack { offset: u64::MAX }).unwrap(),
        [1, 255, 255, 255, 255, 255, 255, 255, 255]
    );
    assert_eq!(write_frame(&Frame::Welcome { applied: 7 }).unwrap(), [3, 0, 0, 0, 0, 0, 0, 0, 7]);
    assert!(matches!(complete(&[1, 0, 0, 0, 0, 0, 0, 1, 0]), (Frame::Ack { offset: 256 }, 9)));
    assert!(matches!(complete(&[3, 0, 0, 0, 0, 0, 0, 0, 9]), (Frame::Welcome { applied: 9 }, 9)));
}

#[test]
fn hello_layout() {
    let mut id = [0u8; 16];
    id[0] = 0xaa;
    id[15] = 0xbb;
    let bytes = write_frame(&Frame::Hello { session_id: id, applied: 5, resume: true }).unwrap();
    assert_eq!(bytes.len(), 26);
    assert_eq!(bytes[0], 2);
    assert_eq!(&bytes[1..17], &id);
    assert_eq!(&bytes[17..25], &[0, 0, 0, 0, 0, 0, 0, 5]);
    assert_eq!(bytes[25], 1);
    match complete(&bytes) {
        (Frame::Hello { session_id, applied, resume }, 26) => {
            assert_eq!(session_id, id);
            assert_eq!(applied, 5);
            assert!(resume);
        }
        other => panic!("{:?}", other),
    }
}

#[test]
fn any_nonzero_byte_asks_to_resume() {
    let mut bytes = write_frame(&Frame::Hello { session_id: [1; 16], applied: 0, resume: false }).unwrap();
    assert!(matches!(complete(&bytes), (Frame::Hello { resume: false, .. }, 26)));
    bytes[25] = 7;
    assert!(matches!(complete(&bytes), (Frame::Hello { resume: true, .. }, 26)));
}

#[test]
fn reject_and_fin_layout() {
    assert_eq!(write_frame(&Frame::Reject).unwrap(), [4]);
    assert_eq!(write_frame(&Frame::Fin).unwrap(), [5]);
    assert!(matches!(complete(&[4, 99]), (Frame::Reject, 1)));
    assert!(matches!(complete(&[5, 99]), (Frame::Fin, 1)));
}

#[test]
fn unknown_kinds_are_reported() {
    assert!(matches!(read_frame(&[6]), FrameRead::UnknownKind { kind: 6 }));
    assert!(matches!(read_frame(&[255, 1, 2]), FrameRead::UnknownKind { kind: 255 }));
}

#[test]
fn partial_frames_say_what_is_missing() {
    assert_eq!(missing(&[]), 1);
    assert_eq!(missing(&[0]), 12);
    assert_eq!(missing(&[0, 0, 0, 0, 0, 0, 0, 0, 0, 0, 0, 0, 3]), 3);
    assert_eq!(missing(&[0, 0, 0, 0, 0, 0, 0, 0, 0, 0, 0, 0, 3, 1]), 2);
    assert_eq!(missing(&[1]), 8);
    assert_eq!(missing(&[2, 0]), 24);
    assert_eq!(missing(&[3, 0, 0]), 6);
}

#[test]
fn frames_follow_each_other() {
    let mut stream = Vec::new();
    stream.extend(write_frame(&Frame::Welcome { applied: 1 }).unwrap());
    stream.extend(write_frame(&Frame::Data { offset: 1, payload: b"ab".to_vec().into() }).unwrap());
    stream.extend(write_frame(&Frame::Fin).unwrap());
    let (first, n) = complete(&stream);
    assert!(matches!(first, Frame::Welcome { applied: 1 }));
    let (second, m) = complete(&stream[n..]);
    assert!(matches!(second, Frame::Data { offset: 1, .. }));
    let (third, k) = complete(&stream[n + m..]);
    assert!(matches!(third, Frame::Fin));
    assert_eq!(n + m + k, stream.len());
}

#[test]
fn a_stream_may_end_between_frames_only() {
    assert!(matches!(at_end(&[]), Ok(None)));
    let ack = write_frame(&Frame::Ack { offset: 7 }).unwrap();
    for have in 1..ack.len() {
        assert_eq!(missing(&ack[..have]), ack.len() - have);
        assert!(matches!(at_end(&ack[..have]), Err(Error::UnexpectedEof)));
    }
}
