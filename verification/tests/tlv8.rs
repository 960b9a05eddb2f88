use apple_tv::tlv8::{decode, encode, error, get, ERROR, METHOD, PUBLIC_KEY, SALT, STATE};

#[test]
fn a_short_value_round_trips() {
    let items = vec![(STATE, vec![1]), (METHOD, vec![0])];
    assert_eq!(decode(&encode(&items)), items);
}

/// An SRP public key is 384 bytes, so it is always fragmented, and a reader that stops at the
/// first entry gets 255 bytes that look like a key.
#[test]
fn a_long_value_is_fragmented_and_rejoined() {
    let key: Vec<u8> = (0..384).map(|i| (i % 251) as u8).collect();
    let wire = encode(&[(PUBLIC_KEY, key.clone())]);

    assert_eq!(wire[0], PUBLIC_KEY);
    assert_eq!(wire[1], 255, "the first fragment should be full");
    assert_eq!(wire[257], PUBLIC_KEY, "the second fragment repeats the type");
    assert_eq!(wire[258], (384 - 255) as u8);

    let back = decode(&wire);
    assert_eq!(back.len(), 1, "fragments must rejoin into one entry");
    assert_eq!(get(&back, PUBLIC_KEY), Some(key.as_slice()));
}

/// Two values of the same type that are not fragments of one another stay separate as long as
/// something sits between them.
#[test]
fn separated_entries_of_one_type_stay_separate() {
    let wire = encode(&[(STATE, vec![1]), (METHOD, vec![0]), (STATE, vec![3])]);
    let back = decode(&wire);
    assert_eq!(back.len(), 3);
    assert_eq!(back[0], (STATE, vec![1]));
    assert_eq!(back[2], (STATE, vec![3]));
}

#[test]
fn a_truncated_message_keeps_what_parsed() {
    let wire = encode(&[(SALT, vec![9; 16]), (PUBLIC_KEY, vec![1; 200])]);
    let back = decode(&wire[..30]);
    assert_eq!(get(&back, SALT), Some([9u8; 16].as_slice()));
}

#[test]
fn an_error_becomes_something_a_person_can_act_on() {
    let wire = encode(&[(STATE, vec![4]), (ERROR, vec![0x02])]);
    assert!(error(&decode(&wire)).unwrap().contains("wrong PIN"));
    assert!(error(&decode(&encode(&[(STATE, vec![2])]))).is_none());
}

#[test]
fn every_refusal_has_its_words() {
    let said = |code: u8| error(&[(ERROR, vec![code])]).unwrap();
    assert_eq!(said(1), "the Apple TV refused the request");
    assert_eq!(said(2), "wrong PIN — the Apple TV rejected the code");
    assert_eq!(said(3), "too many attempts; the Apple TV is refusing new ones for a while");
    assert_eq!(said(4), "the Apple TV will not pair with any more controllers");
    assert_eq!(said(5), "too many wrong PINs — restart the Apple TV to try again");
    assert_eq!(said(6), "the Apple TV is not accepting pairings right now");
    assert_eq!(said(7), "the Apple TV is busy pairing with something else");
    assert_eq!(said(0), "the Apple TV refused pairing (code 0)");
    assert_eq!(said(250), "the Apple TV refused pairing (code 250)");
    assert_eq!(error(&[(ERROR, vec![])]), None);
}

#[test]
fn the_boundaries_of_a_fragment() {
    assert_eq!(encode(&[(SALT, vec![])]), vec![SALT, 0]);
    for n in [0usize, 1, 254, 255, 256, 510, 511, 1000] {
        let items = vec![(STATE, vec![1]), (SALT, vec![5; n]), (STATE, vec![2])];
        assert_eq!(decode(&encode(&items)), items);
    }
    assert_eq!(encode(&[(SALT, vec![5; 510])]).len(), 510 + 4);
}

#[test]
fn neighbours_of_one_type_are_joined() {
    assert_eq!(decode(&encode(&[(SALT, vec![1]), (SALT, vec![2])])), vec![(SALT, vec![1, 2])]);
}

#[test]
fn the_first_of_a_type_is_the_one_that_is_found() {
    let items = vec![(STATE, vec![1]), (SALT, vec![9]), (STATE, vec![2])];
    assert_eq!(get(&items, STATE), Some(&[1u8][..]));
    assert_eq!(get(&items, METHOD), None);
}

#[test]
fn a_lone_byte_says_nothing() {
    assert_eq!(decode(&[]), vec![]);
    assert_eq!(decode(&[STATE]), vec![]);
    assert_eq!(decode(&[STATE, 2, 1]), vec![]);
}
