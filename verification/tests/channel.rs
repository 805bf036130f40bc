use cernan::mpsc::{
    channel, encode_frame, latest_index, parse_index, u32tou8abe, u8tou32abe, ReadEvent, Receiver,
    RecvAction, RecvError, SendError, Sender, DEFAULT_MAX_BYTES, EOF_WAIT_MILLIS, MAX_PAYLOAD,
};

/// A directory of queue files held in memory.
struct Dir {
    files: Vec<Option<Vec<u8>>>,
    read_only: Vec<bool>,
    global: usize,
    /// Where the consumer stands in the file it reads.
    pos: usize,
}

fn fresh_dir() -> Dir {
    Dir { files: vec![Some(Vec::new())], read_only: vec![false], global: 0, pos: 0 }
}

fn produce(dir: &mut Dir, sender: &mut Sender, payload: &[u8]) {
    let plan = sender.send(payload, dir.global).expect("the payload can be sent");
    assert_eq!(plan.reopen, None);
    if let Some(old) = plan.seal {
        dir.read_only[old] = true;
        dir.files.push(Some(Vec::new()));
        dir.read_only.push(false);
        dir.global += 1;
        assert_eq!(dir.files.len(), old + 2);
    }
    dir.files[sender.seq_num].as_mut().unwrap().extend_from_slice(&plan.frame);
}

/// Drives the consumer over the directory until it has to wait.
fn drain(dir: &mut Dir, receiver: &mut Receiver) -> Vec<Vec<u8>> {
    let mut out = Vec::new();
    let mut pos = dir.pos;
    loop {
        let file = dir.files[receiver.seq_num].clone().expect("the file is there");
        let event = if pos + 4 <= file.len() {
            let mut b = [0u8; 4];
            b.copy_from_slice(&file[pos..pos + 4]);
            pos += 4;
            ReadEvent::Prefix(b)
        } else {
            ReadEvent::EndOfFile { read_only: dir.read_only[receiver.seq_num] }
        };
        match receiver.step(event) {
            RecvAction::ReadPayload(n) => {
                let payload = file[pos..pos + n].to_vec();
                pos += n;
                match receiver.step(ReadEvent::Payload(payload)) {
                    RecvAction::Deliver(p) => out.push(p),
                    other => panic!("unexpected {:?}", other),
                }
            }
            RecvAction::Advance { unlink, open } => {
                dir.files[unlink] = None;
                assert_eq!(open, unlink + 1);
                pos = 0;
            }
            RecvAction::Wait(ms) => {
                assert_eq!(ms, EOF_WAIT_MILLIS);
                dir.pos = pos;
                return out;
            }
            other => panic!("unexpected {:?}", other),
        }
    }
}

#[test]
fn prefix_bytes_are_permuted() {
    assert_eq!(u32tou8abe(0x0102_0304), [0x04, 0x03, 0x01, 0x02]);
    assert_eq!(u32tou8abe(0), [0, 0, 0, 0]);
    assert_eq!(u32tou8abe(5), [5, 0, 0, 0]);
}

#[test]
fn prefix_is_read_back() {
    assert_eq!(u8tou32abe(&[0x04, 0x03, 0x01, 0x02]), 0x0102_0304);
    assert_eq!(u8tou32abe(&[1, 0, 0, 0, 9, 9]), 1);
    assert_eq!(u8tou32abe(&[0, 1, 0, 0]), 256);
    assert_eq!(u8tou32abe(&[0, 0, 1, 0]), 1 << 24);
    assert_eq!(u8tou32abe(&[0, 0, 0, 1]), 1 << 16);
    for v in [0u32, 1, 255, 256, 65_535, 65_536, 1_048_576, 0xdead_beef, u32::MAX] {
        assert_eq!(u8tou32abe(&u32tou8abe(v)), v);
    }
}

#[test]
fn frame_is_prefix_then_payload() {
    let frame = encode_frame(b"hello").unwrap();
    assert_eq!(frame, vec![5, 0, 0, 0, b'h', b'e', b'l', b'l', b'o']);
    assert_eq!(u8tou32abe(&frame[..4]), 5);
    let long = vec![7u8; 300];
    let frame = encode_frame(&long).unwrap();
    assert_eq!(&frame[..4], &[44, 1, 0, 0]);
    assert_eq!(frame.len(), 304);
    assert_eq!(encode_frame(b"").unwrap(), vec![0, 0, 0, 0]);
}

#[test]
fn file_names_are_decimal_indices() {
    assert_eq!(parse_index("0"), Some(0));
    assert_eq!(parse_index("17"), Some(17));
    assert_eq!(parse_index("007"), Some(7));
    assert_eq!(parse_index(""), None);
    assert_eq!(parse_index("1a"), None);
    assert_eq!(parse_index("-1"), None);
    assert_eq!(parse_index("99999999999999999999999999"), None);
}

#[test]
fn latest_index_is_the_highest_number() {
    let names: Vec<String> = vec!["3".into(), "10".into(), "notes".into(), "9".into()];
    assert_eq!(latest_index(&names), Some(10));
    assert_eq!(latest_index(&vec!["lock".to_string()]), None);
    assert_eq!(latest_index(&Vec::new()), None);
}

#[test]
fn ends_start_at_the_highest_file() {
    let names: Vec<String> = vec!["0".into(), "1".into(), "2".into()];
    let sender = Sender::new(&names, 64);
    assert_eq!(sender, Sender { bytes_written: 0, max_bytes: 64, seq_num: 2 });
    assert_eq!(Receiver::new(&names), Receiver { seq_num: 2, pending: None });
    assert_eq!(Receiver::new(&vec!["x".to_string(), "5".to_string()]).seq_num, 5);
    assert_eq!(Sender::new(&Vec::new(), 64).seq_num, 0);
    let (s, r) = channel(&Vec::new());
    assert_eq!(s, Sender { bytes_written: 0, max_bytes: DEFAULT_MAX_BYTES, seq_num: 0 });
    assert_eq!(r, Receiver { seq_num: 0, pending: None });
    assert_eq!(DEFAULT_MAX_BYTES, 10 * 1024 * 1024);
}

#[test]
fn send_counts_payload_bytes() {
    let mut sender = Sender { bytes_written: 0, max_bytes: 10, seq_num: 0 };
    let plan = sender.send(b"abcd", 0).unwrap();
    assert_eq!(plan.seal, None);
    assert_eq!(plan.reopen, None);
    assert_eq!(plan.frame, vec![4, 0, 0, 0, b'a', b'b', b'c', b'd']);
    assert_eq!(sender, Sender { bytes_written: 4, max_bytes: 10, seq_num: 0 });
    sender.send(b"abcdef", 0).unwrap();
    assert_eq!(sender.bytes_written, 10);
    let plan = sender.send(b"x", 0).unwrap();
    assert_eq!(plan.seal, Some(0));
    assert_eq!(sender, Sender { bytes_written: 0, max_bytes: 10, seq_num: 1 });
}

#[test]
fn send_catches_up_with_the_shared_index() {
    let mut sender = Sender { bytes_written: 9, max_bytes: 10, seq_num: 0 };
    let plan = sender.send(b"0123456789abcdef", 3).unwrap();
    assert_eq!(plan.reopen, Some(3));
    assert_eq!(plan.seal, None);
    assert_eq!(sender, Sender { bytes_written: 0, max_bytes: 10, seq_num: 3 });
}

#[test]
fn send_fails_when_no_index_is_left() {
    let mut sender = Sender { bytes_written: 10, max_bytes: 10, seq_num: usize::MAX };
    assert_eq!(sender.send(b"x", 0), Err(SendError::Exhausted));
    assert_eq!(sender, Sender { bytes_written: 10, max_bytes: 10, seq_num: usize::MAX });
    let mut sender = Sender { bytes_written: usize::MAX, max_bytes: usize::MAX, seq_num: 4 };
    let plan = sender.send(b"xy", 4).unwrap();
    assert_eq!(plan.seal, Some(4));
    assert_eq!(sender.seq_num, 5);
}

#[test]
fn queue_rollover() {
    let mut dir = fresh_dir();
    let mut sender = Sender { bytes_written: 0, max_bytes: 128, seq_num: 0 };
    let mut receiver = Receiver { seq_num: 0, pending: None };
    let mut sent: Vec<Vec<u8>> = Vec::new();
    let mut i = 0u8;
    while sender.seq_num == 0 {
        let payload = vec![i; 20];
        produce(&mut dir, &mut sender, &payload);
        sent.push(payload);
        i += 1;
    }
    assert_eq!(sent.len(), 7);
    assert!(dir.files[0].is_some());
    assert!(dir.read_only[0]);
    assert!(!dir.read_only[1]);
    assert_eq!(dir.files[0].as_ref().unwrap().len(), 6 * 24);
    assert_eq!(dir.files[1].as_ref().unwrap().len(), 24);
    assert_eq!(dir.global, 1);
    let got = drain(&mut dir, &mut receiver);
    assert_eq!(got, sent);
    assert!(dir.files[0].is_none());
    assert!(dir.files[1].is_some());
    assert_eq!(receiver, Receiver { seq_num: 1, pending: None });
}

#[test]
fn received_sequence_equals_sent_sequence() {
    let mut dir = fresh_dir();
    let mut sender = Sender { bytes_written: 0, max_bytes: 50, seq_num: 0 };
    let mut receiver = Receiver { seq_num: 0, pending: None };
    let mut sent: Vec<Vec<u8>> = Vec::new();
    let mut got: Vec<Vec<u8>> = Vec::new();
    for round in 0..40usize {
        let payload: Vec<u8> = (0..(round * 7 % 31)).map(|b| (b + round) as u8).collect();
        produce(&mut dir, &mut sender, &payload);
        sent.push(payload);
        if round % 3 == 0 {
            got.extend(drain(&mut dir, &mut receiver));
        }
    }
    got.extend(drain(&mut dir, &mut receiver));
    assert_eq!(got, sent);
    assert!(sender.seq_num > 3);
    assert_eq!(receiver.seq_num, sender.seq_num);
    for i in 0..sender.seq_num {
        assert!(dir.files[i].is_none());
    }
}

#[test]
fn consumer_waits_at_the_end_of_the_active_file() {
    let mut r = Receiver { seq_num: 2, pending: None };
    assert_eq!(r.step(ReadEvent::EndOfFile { read_only: false }), RecvAction::Wait(10));
    assert_eq!(r, Receiver { seq_num: 2, pending: None });
    assert_eq!(
        r.step(ReadEvent::EndOfFile { read_only: true }),
        RecvAction::Advance { unlink: 2, open: 3 }
    );
    assert_eq!(r, Receiver { seq_num: 3, pending: None });
}

#[test]
fn consumer_refuses_what_it_cannot_trust() {
    let mut r = Receiver { seq_num: 0, pending: None };
    assert_eq!(
        r.step(ReadEvent::Prefix(u32tou8abe(MAX_PAYLOAD as u32 + 1))),
        RecvAction::Abort(RecvError::TooLarge)
    );
    assert_eq!(
        r.step(ReadEvent::Prefix(u32tou8abe(MAX_PAYLOAD as u32))),
        RecvAction::ReadPayload(MAX_PAYLOAD)
    );
    assert_eq!(r.pending, Some(MAX_PAYLOAD));
    assert_eq!(r.step(ReadEvent::Payload(vec![1, 2, 3])), RecvAction::Abort(RecvError::Truncated));
    assert_eq!(
        r.step(ReadEvent::EndOfFile { read_only: true }),
        RecvAction::Abort(RecvError::Truncated)
    );
    assert_eq!(r.step(ReadEvent::Prefix([1, 0, 0, 0])), RecvAction::Abort(RecvError::OutOfStep));
    assert_eq!(r.step(ReadEvent::Failed), RecvAction::Abort(RecvError::Io));
    let mut r = Receiver { seq_num: usize::MAX, pending: None };
    assert_eq!(
        r.step(ReadEvent::EndOfFile { read_only: true }),
        RecvAction::Abort(RecvError::Exhausted)
    );
    assert_eq!(r.step(ReadEvent::Payload(Vec::new())), RecvAction::Abort(RecvError::OutOfStep));
    assert_eq!(r.step(ReadEvent::Prefix([2, 0, 0, 0])), RecvAction::ReadPayload(2));
    assert_eq!(r.step(ReadEvent::Payload(vec![8, 9])), RecvAction::Deliver(vec![8, 9]));
    assert_eq!(r.pending, None);
}

#[test]
fn cloning_a_producer_gives_a_new_one() {
    let names: Vec<String> = vec!["0".into(), "1".into(), "2".into()];
    let mut sender = Sender::new(&names, 64);
    sender.send(b"0123456789", 2).unwrap();
    assert_eq!(sender, Sender { bytes_written: 10, max_bytes: 64, seq_num: 2 });
    let copy = sender.clone(&names);
    assert_eq!(copy, Sender { bytes_written: 0, max_bytes: 64, seq_num: 2 });
    assert_eq!(sender, Sender { bytes_written: 10, max_bytes: 64, seq_num: 2 });
    let later: Vec<String> = vec!["2".into(), "3".into()];
    assert_eq!(sender.clone(&later), Sender { bytes_written: 0, max_bytes: 64, seq_num: 3 });
    assert_eq!(sender.clone(&Vec::new()), Sender { bytes_written: 0, max_bytes: 64, seq_num: 0 });
}
