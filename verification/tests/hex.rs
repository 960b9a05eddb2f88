use apple_tv::hex::{hex, unhex, unhex32, uuid_like};

#[test]
fn bytes_are_written_and_read_back() {
    let all: Vec<u8> = (0..=255).collect();
    let text = hex(&all);
    assert!(text.starts_with("000102030405060708090a0b"));
    assert_eq!(unhex(&text), Some(all));
    assert_eq!(hex(&[]), "");
    assert_eq!(unhex(""), Some(vec![]));
}

#[test]
fn either_case_is_read_and_anything_else_is_refused() {
    assert_eq!(unhex("aBcD"), Some(vec![0xAB, 0xCD]));
    assert_eq!(unhex("+f"), Some(vec![15]));
    assert_eq!(unhex("f+"), None);
    assert_eq!(unhex("++"), None);
    assert_eq!(unhex("-1"), None);
    assert_eq!(unhex("abc"), None);
    assert_eq!(unhex("0g"), None);
    assert_eq!(unhex("é"), None);
    assert_eq!(unhex("00é0"), None);
}

#[test]
fn a_key_has_thirty_two_bytes() {
    assert_eq!(unhex32(&hex(&[7; 32])), Some([7; 32]));
    assert_eq!(unhex32(&hex(&[7; 31])), None);
    assert_eq!(unhex32(&hex(&[7; 33])), None);
    assert_eq!(unhex32("zz"), None);
}

#[test]
fn an_identifier_looks_like_a_uuid() {
    let mut seed = [0u8; 32];
    for i in 0..32 {
        seed[i] = (i * 11) as u8;
    }
    assert_eq!(uuid_like(&seed), "000B1621-2C37-424D-5863-6E79848F9AA5");
    assert_eq!(uuid_like(&[0xFF; 32]), "FFFFFFFF-FFFF-FFFF-FFFF-FFFFFFFFFFFF");
}
