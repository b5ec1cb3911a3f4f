use tag_aggregator::data::{Entry, Tree};
use tag_aggregator::log::VersionedDelta;
use tag_aggregator::wire::{decode_frame, encode_frame, encode_message, DecodeOutcome, Message};

fn sample_message() -> Vec<VersionedDelta> {
    let mut d1 = Tree::new();
    d1.add(
        "work".to_string(),
        Entry::new("ACME report".to_string(), "http://x/1".to_string()),
    );
    d1.add("work".to_string(), Entry::new("naïve 🚀 café".to_string(), "http://x/ü".to_string()));
    d1.add("".to_string(), Entry::new("".to_string(), "".to_string()));
    let mut d2 = Tree::new();
    d2.add("home".to_string(), Entry::new("Q2 notes".to_string(), "http://x/2".to_string()));
    vec![
        VersionedDelta { version: 1, delta: d1 },
        VersionedDelta { version: 2, delta: d2 },
        VersionedDelta { version: 3, delta: Tree::new() },
    ]
}

fn assert_same_trees(a: &Tree, b: &Tree) {
    assert_eq!(a.cats.len(), b.cats.len());
    for ((ca, ea), (cb, eb)) in a.cats.iter().zip(b.cats.iter()) {
        assert_eq!(ca, cb);
        assert_eq!(ea.len(), eb.len());
        for (x, y) in ea.iter().zip(eb.iter()) {
            assert!(x.same_as(y));
        }
    }
}

#[test]
fn a_frame_decodes_back_to_the_message() {
    let msg = sample_message();
    let mut buf = encode_frame(&msg);
    let trailing = vec![9u8, 8, 7];
    buf.extend_from_slice(&trailing);

    match decode_frame(&mut buf) {
        DecodeOutcome::Frame(got) => {
            assert_eq!(got.len(), msg.len());
            for (g, m) in got.iter().zip(msg.iter()) {
                assert_eq!(g.version, m.version);
                assert_same_trees(&g.delta, &m.delta);
            }
        },
        _ => panic!("a whole frame must decode"),
    }
    assert_eq!(buf, trailing, "only the frame's own bytes are consumed");
}

#[test]
fn the_length_prefix_is_big_endian() {
    let frame = encode_frame(&Vec::new());
    // An empty message is just its 8-byte element count, so the payload is
    // 8 bytes long and the frame's length field reads 8 big-endian.
    assert_eq!(frame.len(), 16);
    assert_eq!(&frame[0..8], &[0, 0, 0, 0, 0, 0, 0, 8]);
    assert_eq!(&frame[8..16], &[0, 0, 0, 0, 0, 0, 0, 0]);
}

#[test]
fn every_truncation_reads_as_incomplete() {
    let msg = sample_message();
    let frame = encode_frame(&msg);
    for k in 0..frame.len() {
        let mut buf = frame[..k].to_vec();
        match decode_frame(&mut buf) {
            DecodeOutcome::Incomplete => {},
            _ => panic!("a truncated frame must never be an error"),
        }
        assert_eq!(buf, &frame[..k], "an incomplete decode leaves the buffer alone");
    }
}

#[test]
fn a_payload_that_is_not_a_message_is_malformed() {
    let mut buf = vec![0u8, 0, 0, 0, 0, 0, 0, 2, 0xff, 0xff];
    match decode_frame(&mut buf) {
        DecodeOutcome::Malformed => {},
        _ => panic!("garbage under a complete length prefix is malformed"),
    }
    assert_eq!(buf.len(), 10, "a malformed decode leaves the buffer alone");
}

#[test]
fn trailing_payload_bytes_are_malformed() {
    let payload = {
        let mut p = encode_message(&Vec::new());
        p.push(0);
        p
    };
    let mut buf = vec![0u8, 0, 0, 0, 0, 0, 0, payload.len() as u8];
    buf.extend_from_slice(&payload);
    match decode_frame(&mut buf) {
        DecodeOutcome::Malformed => {},
        _ => panic!("a payload longer than its message is malformed"),
    }
}

#[test]
fn invalid_utf8_in_a_string_is_malformed() {
    // One versioned delta whose single category name declares 2 bytes that
    // are not UTF-8: count=1, version=7, one category, bad name bytes.
    let mut payload: Vec<u8> = Vec::new();
    payload.extend_from_slice(&[0, 0, 0, 0, 0, 0, 0, 1]); // one pair
    payload.extend_from_slice(&[0, 0, 0, 0, 0, 0, 0, 7]); // version
    payload.extend_from_slice(&[0, 0, 0, 0, 0, 0, 0, 1]); // one category
    payload.extend_from_slice(&[0, 0, 0, 0, 0, 0, 0, 2, 0xc3, 0x28]); // bad name
    payload.extend_from_slice(&[0, 0, 0, 0, 0, 0, 0, 0]); // no entries
    let mut buf = vec![0u8, 0, 0, 0, 0, 0, 0, payload.len() as u8];
    buf.extend_from_slice(&payload);
    match decode_frame(&mut buf) {
        DecodeOutcome::Malformed => {},
        _ => panic!("a non-UTF-8 string must not decode"),
    }
}

#[test]
fn a_message_value_frames_like_its_parts() {
    let msg = Message(sample_message());
    let framed = msg.to_frame();
    assert_eq!(framed, encode_frame(&msg.0));
}

#[test]
fn two_frames_in_one_buffer_decode_in_order() {
    let mut d = Tree::new();
    d.add("work".to_string(), Entry::new("a".to_string(), "http://a".to_string()));
    let first = vec![VersionedDelta { version: 1, delta: d }];
    let second: Vec<VersionedDelta> = Vec::new();

    let mut buf = encode_frame(&first);
    buf.extend_from_slice(&encode_frame(&second));

    match decode_frame(&mut buf) {
        DecodeOutcome::Frame(got) => assert_eq!(got.len(), 1),
        _ => panic!("the first frame must decode"),
    }
    match decode_frame(&mut buf) {
        DecodeOutcome::Frame(got) => assert!(got.is_empty()),
        _ => panic!("the second frame must decode"),
    }
    assert!(buf.is_empty());
    match decode_frame(&mut buf) {
        DecodeOutcome::Incomplete => {},
        _ => panic!("an empty buffer is incomplete"),
    }
}
