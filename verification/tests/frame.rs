use apple_tv::frame::{encode, settle, Framer, E_OPACK, MAX_LENGTH, PV_START};

#[test]
fn a_plain_frame_round_trips() {
    let wire = encode(E_OPACK, b"hello", None, 0).unwrap();
    assert_eq!(wire[0], E_OPACK);
    assert_eq!(&wire[1..4], &[0, 0, 5]);

    let mut f = Framer::default();
    f.feed(&wire);
    let (kind, payload) = f.next(None, 0).unwrap().unwrap();
    assert_eq!(kind, E_OPACK);
    assert_eq!(payload, b"hello");
    assert!(f.next(None, 0).is_none(), "nothing left");
}

/// The length has to count the auth tag. Length it as plaintext and the reader stops 16 bytes
/// early, then reads the tail of one frame as the header of the next.
#[test]
fn an_encrypted_frame_declares_the_length_including_its_tag() {
    let key = [4u8; 32];
    let wire = encode(E_OPACK, b"hello", Some(&key), 0).unwrap();
    let declared = u32::from_be_bytes([0, wire[1], wire[2], wire[3]]) as usize;
    assert_eq!(declared, 5 + 16);
    assert_eq!(wire.len(), 4 + declared);

    let mut f = Framer::default();
    f.feed(&wire);
    assert_eq!(f.next(Some(&key), 0).unwrap().unwrap().1, b"hello");
}

/// A frame arriving in pieces is the normal case.
#[test]
fn a_frame_split_across_reads_reassembles() {
    let key = [9u8; 32];
    let wire = encode(E_OPACK, b"a longer payload than one read", Some(&key), 3).unwrap();

    let mut f = Framer::default();
    for chunk in wire.chunks(7) {
        f.feed(chunk);
    }
    let (_, payload) = f.next(Some(&key), 3).unwrap().unwrap();
    assert_eq!(payload, b"a longer payload than one read");
}

/// A partial frame must not consume the counter, or every frame after it decrypts against the
/// wrong nonce.
#[test]
fn a_partial_frame_yields_nothing_and_leaves_the_buffer_alone() {
    let key = [1u8; 32];
    let wire = encode(E_OPACK, b"payload", Some(&key), 0).unwrap();

    let mut f = Framer::default();
    f.feed(&wire[..6]);
    assert!(f.next(Some(&key), 0).is_none());
    assert!(f.pending(), "the partial frame is still held");

    f.feed(&wire[6..]);
    assert_eq!(f.next(Some(&key), 0).unwrap().unwrap().1, b"payload");
    assert!(!f.pending());
}

/// Two frames in one read, which is what happens when the device answers a request and pushes an
/// event in the same breath.
#[test]
fn two_frames_in_one_read_come_out_separately() {
    let mut wire = encode(PV_START, b"one", None, 0).unwrap();
    wire.extend(encode(E_OPACK, b"two", None, 0).unwrap());

    let mut f = Framer::default();
    f.feed(&wire);
    assert_eq!(f.next(None, 0).unwrap().unwrap(), (PV_START, b"one".to_vec()));
    assert_eq!(f.next(None, 0).unwrap().unwrap(), (E_OPACK, b"two".to_vec()));
    assert!(f.next(None, 0).is_none());
}

/// An empty payload carries no tag in either direction.
#[test]
fn an_empty_payload_is_not_padded_with_a_tag() {
    let key = [2u8; 32];
    let wire = encode(E_OPACK, b"", Some(&key), 0).unwrap();
    assert_eq!(wire.len(), 4);
    assert_eq!(&wire[1..4], &[0, 0, 0]);
}

#[test]
fn an_empty_frame_is_read_without_a_key_being_used() {
    let key = [2u8; 32];
    let mut f = Framer::default();
    f.feed(&[E_OPACK, 0, 0, 0]);
    assert_eq!(f.next(Some(&key), 7).unwrap().unwrap(), (E_OPACK, Vec::new()));
}

#[test]
fn the_largest_frame_is_the_largest_length_that_can_be_said() {
    let most = vec![0u8; MAX_LENGTH];
    assert_eq!(&encode(E_OPACK, &most, None, 0).unwrap()[..4], &[E_OPACK, 0xFF, 0xFF, 0xFF]);

    let over = vec![0u8; MAX_LENGTH + 1];
    assert_eq!(
        encode(E_OPACK, &over, None, 0).unwrap_err(),
        "frame too large for a 24-bit length"
    );
    // The tag counts, so a sealed payload has to be shorter.
    let key = [1u8; 32];
    assert_eq!(
        encode(E_OPACK, &vec![0u8; MAX_LENGTH - 15], Some(&key), 0).unwrap_err(),
        "frame too large for a 24-bit length"
    );
    assert_eq!(
        encode(E_OPACK, &vec![0u8; MAX_LENGTH - 16], Some(&key), 0).unwrap().len(),
        4 + MAX_LENGTH
    );
}

#[test]
fn a_frame_under_another_counter_is_refused_and_gone() {
    let key = [6u8; 32];
    let wire = encode(E_OPACK, b"payload", Some(&key), 1).unwrap();
    let mut f = Framer::default();
    f.feed(&wire);
    assert_eq!(
        f.next(Some(&key), 2).unwrap().unwrap_err(),
        "could not decrypt a frame — the session is out of step"
    );
    assert!(!f.pending());
}

#[test]
fn a_frame_with_another_header_is_refused() {
    let key = [6u8; 32];
    let mut wire = encode(E_OPACK, b"payload", Some(&key), 1).unwrap();
    wire[0] = PV_START;
    let mut f = Framer::default();
    f.feed(&wire);
    assert!(f.next(Some(&key), 1).unwrap().is_err());
}

#[test]
fn every_strict_prefix_of_a_frame_yields_nothing() {
    let key = [3u8; 32];
    let wire = encode(E_OPACK, b"some payload", Some(&key), 9).unwrap();
    for n in 0..wire.len() {
        let mut f = Framer::default();
        f.feed(&wire[..n]);
        assert!(f.next(Some(&key), 9).is_none());
        assert_eq!(f.take(), wire[..n].to_vec());
    }
}

#[test]
fn what_is_left_over_can_be_taken() {
    let mut f = Framer::default();
    f.feed(&encode(E_OPACK, b"x", None, 0).unwrap());
    f.feed(&[1, 2, 3]);
    assert!(f.next(None, 0).unwrap().is_ok());
    assert_eq!(f.take(), vec![1, 2, 3]);
    assert!(!f.pending());
}

#[test]
fn an_opened_body_keeps_its_kind_and_a_refusal_its_reason() {
    assert_eq!(settle(8, Ok(vec![1])).unwrap(), (8, vec![1]));
    assert_eq!(settle(8, Err("no".to_string())).unwrap_err(), "no");
}
