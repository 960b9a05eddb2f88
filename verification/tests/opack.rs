use apple_tv::opack::{dict, pack, s, unpack, Val};
use apple_tv::strmap::StrMap;

fn round(v: Val) {
    let packed = pack(&v);
    let back = unpack(&packed).expect("decodes");
    assert_eq!(back, v, "packed as {packed:02x?}");
}

#[test]
fn scalars_survive_a_round_trip() {
    round(Val::Null);
    round(Val::Bool(true));
    round(Val::Bool(false));
    for i in [0u64, 1, 0x27, 0x28, 0xFF, 0x100, 0xFFFF, 0x1_0000, 0xFFFF_FFFF] {
        round(Val::Int(i));
    }
    round(Val::Uuid([7u8; 16]));
}

/// The tag encodes the length up to 0x20, then a separate width byte takes over. Both sides of
/// that boundary, because an off-by-one there is a frame that decodes as garbage.
#[test]
fn strings_and_data_cross_their_length_boundaries() {
    for n in [0usize, 1, 0x1F, 0x20, 0x21, 0xFF, 0x100, 0x1234] {
        round(Val::Str("a".repeat(n)));
        round(Val::Data(vec![0xABu8; n]));
    }
}

/// A collection of 15 or more switches to a terminator instead of an inline count.
#[test]
fn collections_cross_the_endless_boundary() {
    for n in [0usize, 1, 14, 15, 16, 40] {
        round(Val::Arr((0..n).map(|i| Val::Int(i as u64)).collect()));
        let mut map = StrMap::new();
        for i in 0..n {
            map.insert(format!("k{i}"), Val::Int(i as u64));
        }
        round(Val::Dict(map));
    }
}

/// A repeated value encodes as an index, and the decoder has to have built the same table in the
/// same order to resolve it. So this asserts both that the repeat is compressed and that it comes
/// back as the value itself.
#[test]
fn a_repeated_value_becomes_a_back_reference_and_resolves_to_itself() {
    let long = "com.apple.tvremoteservices";
    let v = Val::Arr(vec![s(long), s(long), s(long)]);
    let packed = pack(&v);

    let once = pack(&Val::Arr(vec![s(long)]));
    assert!(
        packed.len() < once.len() + 2 * long.len(),
        "the repeats were not compressed: {} bytes",
        packed.len()
    );
    assert_eq!(unpack(&packed).unwrap(), v);
}

/// Nested collections share one table with their parent.
#[test]
fn nesting_shares_one_back_reference_table() {
    let long = "FetchLaunchableApplicationsEvent";
    let v = dict([
        ("_i", s(long)),
        ("_c", dict([("again", s(long)), ("n", Val::Int(3))])),
    ]);
    round(v);
}

/// What a button press looks like on the wire.
#[test]
fn a_hid_command_round_trips() {
    let v = dict([
        ("_i", s("_hidC")),
        ("_t", Val::Int(2)),
        ("_x", Val::Int(12345)),
        ("_c", dict([("_hBtS", Val::Int(1)), ("_hidC", Val::Int(6))])),
    ]);
    round(v);
}

/// Truncation is an error, not a panic.
#[test]
fn a_truncated_frame_is_refused_rather_than_panicking() {
    let packed = pack(&dict([("_i", s("_systemInfo")), ("_c", Val::Int(9))]));
    for cut in 1..packed.len() {
        // Any prefix either decodes (a shorter valid value) or errors. Neither panics.
        let _ = unpack(&packed[..cut]);
    }
    assert!(unpack(&[]).is_err(), "an empty frame has no value in it");
}

#[test]
fn each_kind_of_value_has_its_bytes() {
    assert_eq!(pack(&Val::Null), vec![0x04]);
    assert_eq!(pack(&Val::Bool(true)), vec![0x01]);
    assert_eq!(pack(&Val::Bool(false)), vec![0x02]);
    assert_eq!(pack(&Val::Int(0)), vec![0x08]);
    assert_eq!(pack(&Val::Int(0x27)), vec![0x2F]);
    assert_eq!(pack(&Val::Int(0x28)), vec![0x30, 0x28]);
    assert_eq!(pack(&Val::Int(0x1234)), vec![0x31, 0x34, 0x12]);
    assert_eq!(pack(&Val::Int(0x1234_5678)), vec![0x32, 0x78, 0x56, 0x34, 0x12]);
    assert_eq!(
        pack(&Val::Int(0x0102_0304_0506_0708)),
        vec![0x33, 8, 7, 6, 5, 4, 3, 2, 1]
    );
    assert_eq!(pack(&s("hi")), vec![0x42, b'h', b'i']);
    assert_eq!(pack(&s("é")), vec![0x42, 0xC3, 0xA9]);
    assert_eq!(pack(&Val::Data(vec![9, 8])), vec![0x72, 9, 8]);
    assert_eq!(pack(&Val::Data(vec![7; 0x21]))[..3], [0x91, 0x21, 7]);
    assert_eq!(pack(&Val::Uuid([1; 16]))[..2], [0x05, 1]);
    assert_eq!(pack(&Val::Arr(vec![Val::Null])), vec![0xD1, 0x04]);
    assert_eq!(pack(&dict([("a", Val::Null)])), vec![0xE1, 0x41, b'a', 0x04]);
    let many = Val::Arr((0..15).map(|_| Val::Null).collect());
    let mut wire = vec![0xDF];
    wire.extend([0x04; 15]);
    wire.push(0x03);
    assert_eq!(pack(&many), wire);
}

#[test]
fn a_string_of_each_width_has_its_head() {
    assert_eq!(pack(&s(&"a".repeat(0x21)))[..2], [0x61, 0x21]);
    assert_eq!(pack(&s(&"a".repeat(0x100)))[..3], [0x62, 0x00, 0x01]);
    assert_eq!(pack(&s(&"a".repeat(0x1_0000)))[..4], [0x63, 0x00, 0x00, 0x01]);
    assert_eq!(pack(&s(&"a".repeat(0x100_0000)))[..5], [0x64, 0x00, 0x00, 0x00, 0x01]);
    round(s(&"a".repeat(0x1_0000)));
    round(s(&"a".repeat(0x100_0000)));
    assert_eq!(pack(&Val::Data(vec![0; 0x1_0000]))[..5], [0x93, 0, 0, 1, 0]);
    round(Val::Data(vec![0; 0x1_0000]));
}

#[test]
fn an_index_takes_as_many_bytes_as_it_needs() {
    // Index 0x20 is the last that fits in the tag.
    let mut items: Vec<Val> = (0..0x21u64).map(|i| Val::Int(0x100 + i)).collect();
    items.push(Val::Int(0x100 + 0x20));
    items.push(Val::Int(0x1000));
    items.push(Val::Int(0x1000));
    let v = Val::Arr(items);
    let wire = pack(&v);
    let n = wire.len();
    assert_eq!(wire[n - 7..], [0xC0, 0x31, 0x00, 0x10, 0xC1, 0x21, 0x03]);
    round(v);

    // Past 0xFF it takes two bytes.
    let mut items: Vec<Val> = (0..0x102u64).map(|i| Val::Int(0x100 + i)).collect();
    items.push(Val::Int(0x100 + 0x101));
    let v = Val::Arr(items);
    let wire = pack(&v);
    assert_eq!(wire[wire.len() - 4..], [0xC2, 0x01, 0x01, 0x03]);
    round(v);
}

#[test]
fn an_index_is_read_in_one_two_four_or_eight_bytes() {
    let want = Val::Arr(vec![s("ab"), s("ab")]);
    for sent in [
        vec![0xA0],
        vec![0xC1, 0],
        vec![0xC2, 0, 0],
        vec![0xC3, 0, 0, 0, 0],
        vec![0xC4, 0, 0, 0, 0, 0, 0, 0, 0],
    ] {
        let mut wire = vec![0xD2, 0x42, b'a', b'b'];
        wire.extend(sent);
        assert_eq!(unpack(&wire).unwrap(), want);
    }
}

#[test]
fn each_refusal_says_what_was_wrong() {
    assert_eq!(unpack(&[]).unwrap_err(), "opack: wanted 1 bytes, 0 left");
    assert_eq!(unpack(&[0x05, 1, 2]).unwrap_err(), "opack: wanted 16 bytes, 2 left");
    assert_eq!(unpack(&[0x61]).unwrap_err(), "opack: wanted 1 bytes, 0 left");
    assert_eq!(unpack(&[0x61, 9, 1]).unwrap_err(), "opack: wanted 9 bytes, 1 left");
    assert_eq!(unpack(&[0xC3, 1]).unwrap_err(), "opack: wanted 4 bytes, 1 left");
    assert_eq!(unpack(&[0xA3]).unwrap_err(), "opack: back-reference 3 past the end");
    assert_eq!(unpack(&[0xC2, 1, 1]).unwrap_err(), "opack: back-reference 257 past the end");
    assert_eq!(unpack(&[0x00]).unwrap_err(), "opack: unknown tag 0x00");
    assert_eq!(unpack(&[0x03]).unwrap_err(), "opack: unknown tag 0x03");
    assert_eq!(unpack(&[0xFA]).unwrap_err(), "opack: unknown tag 0xfa");
    assert_eq!(unpack(&[0xDF, 0x04]).unwrap_err(), "opack: wanted 1 bytes, 0 left");
    assert_eq!(unpack(&[0xE1, 0x41, b'a']).unwrap_err(), "opack: wanted 1 bytes, 0 left");
}

#[test]
fn floats_are_kept_as_their_bits() {
    assert_eq!(unpack(&[0x35, 1, 2, 0, 0]).unwrap(), Val::Int(0x201));
    assert_eq!(
        unpack(&[0x36, 1, 0, 0, 0, 0, 0, 0, 1]).unwrap(),
        Val::Int(0x0100_0000_0000_0001)
    );
}

#[test]
fn text_that_is_not_utf8_is_read_all_the_same() {
    assert_eq!(unpack(&[0x42, 0xFF, b'a']).unwrap(), s("\u{FFFD}a"));
}

#[test]
fn what_follows_a_value_is_left_alone() {
    assert_eq!(unpack(&[0x09, 0xFF, 0xFF]).unwrap(), Val::Int(1));
}

#[test]
fn a_key_that_is_no_text_is_written_out() {
    let v = unpack(&[0xE1, 0x0D, 0x04]).unwrap();
    assert_eq!(v.get("Int(5)"), Some(&Val::Null));
    let v = unpack(&[0xE1, 0xD2, 0x01, 0x42, b'a', b'"', 0x04]).unwrap();
    assert_eq!(v.get("Arr([Bool(true), Str(\"a\\\"\")])"), Some(&Val::Null));
    let v = unpack(&[0xE1, 0x72, 1, 20, 0x04]).unwrap();
    assert_eq!(v.get("Data([1, 20])"), Some(&Val::Null));
    let v = unpack(&[0xE1, 0xE2, 0x41, b'k', 0x02, 0x41, b'l', 0x04, 0x04]).unwrap();
    assert_eq!(v.get("Dict({\"k\": Bool(false), \"l\": Null})"), Some(&Val::Null));
    let v = unpack(&[0xE1, 0xD0, 0x04]).unwrap();
    assert_eq!(v.get("Arr([])"), Some(&Val::Null));
}

#[test]
fn a_later_entry_stands_over_an_earlier_one() {
    assert_eq!(
        dict([("a", Val::Int(1)), ("b", Val::Int(2)), ("a", Val::Int(3))]),
        dict([("b", Val::Int(2)), ("a", Val::Int(3))])
    );
    let v = unpack(&[0xE2, 0x41, b'a', 0x09, 0x41, b'a', 0x0A]).unwrap();
    assert_eq!(v, dict([("a", Val::Int(2))]));
}

#[test]
fn a_value_answers_for_its_own_kind_only() {
    assert_eq!(s("x").as_str(), Some("x"));
    assert_eq!(Val::Null.as_str(), None);
    assert_eq!(Val::Data(vec![1]).as_data(), Some(&[1u8][..]));
    assert_eq!(s("x").as_data(), None);
    assert_eq!(Val::Int(4).as_u64(), Some(4));
    assert_eq!(Val::Bool(true).as_u64(), None);
    let v = dict([("a", Val::Int(1))]);
    assert_eq!(v.get("a"), Some(&Val::Int(1)));
    assert_eq!(v.get("b"), None);
    assert_eq!(Val::Null.get("a"), None);
    assert_eq!(Val::Arr(vec![Val::Null]).as_array(), Some(&[Val::Null][..]));
    assert_eq!(v.as_array(), None);
    assert_eq!(v.clone(), v);
    assert_ne!(v, dict([("a", Val::Int(2))]));
}

/// The two tables differ on collections and on empty text, so some values do not come back. These
/// are what the format does.
#[test]
fn a_repeated_collection_is_sent_as_an_index_that_means_nothing() {
    let pair = || Val::Arr(vec![Val::Int(1), Val::Int(2)]);
    let v = Val::Arr(vec![pair(), pair()]);
    assert_eq!(pack(&v), vec![0xD2, 0xD2, 0x09, 0x0A, 0xA0]);
    assert_eq!(unpack(&pack(&v)).unwrap_err(), "opack: back-reference 0 past the end");

    let v = Val::Arr(vec![s(""), s("ab"), s("ab")]);
    assert_eq!(unpack(&pack(&v)).unwrap(), Val::Arr(vec![s(""), s("ab"), s("")]));
}

#[test]
fn a_map_keeps_its_keys_in_order() {
    let mut m: StrMap<u8> = StrMap::new();
    m.insert("b".to_string(), 1);
    m.insert("a".to_string(), 2);
    m.insert("ab".to_string(), 3);
    m.insert("b".to_string(), 4);
    assert_eq!(m.len(), 3);
    assert_eq!((m.key(0), m.key(1), m.key(2)), ("a", "ab", "b"));
    assert_eq!((*m.value(0), *m.value(1), *m.value(2)), (2, 3, 4));
    assert_eq!(m.get("b"), Some(&4));
    assert_eq!(m.get("c"), None);
}

#[test]
fn a_flat_collection_comes_back_whatever_repeats_in_it() {
    round(Val::Arr(vec![
        s("ab"),
        Val::Int(300),
        Val::Data(vec![7, 7]),
        Val::Int(300),
        s("ab"),
        Val::Null,
        Val::Uuid([3u8; 16]),
        Val::Data(vec![7, 7]),
        Val::Uuid([3u8; 16]),
    ]));
    let v = dict([("ab", s("cd")), ("cd", s("ab")), ("n", Val::Int(300)), ("m", Val::Int(300))]);
    // The two texts are sent once each, and so is the number.
    assert_eq!(
        pack(&v),
        vec![
            0xE4, 0x42, b'a', b'b', 0x42, b'c', b'd', 0xA1, 0xA0, 0x41, b'm', 0x31, 0x2C, 0x01,
            0x41, b'n', 0xA3,
        ]
    );
    round(v);
}

#[test]
fn empty_collections_among_the_members_come_back() {
    let nothing = || Val::Arr(vec![]);
    round(Val::Arr(vec![nothing(), s("ab"), dict([]), nothing(), s("ab"), dict([]), Val::Int(300)]));
    let v = dict([("a", dict([])), ("b", s("a")), ("c", nothing()), ("d", dict([]))]);
    assert_eq!(
        pack(&v),
        vec![0xE4, 0x41, b'a', 0xE0, 0x41, b'b', 0xA0, 0x41, b'c', 0xD0, 0x41, b'd', 0xE0]
    );
    round(v);
}

#[test]
fn whatever_is_cut_short_is_refused() {
    let values = [
        Val::Null,
        Val::Int(300),
        s("abc"),
        Val::Data(vec![1; 300]),
        Val::Uuid([9; 16]),
        Val::Arr(vec![s("ab"), s("ab"), Val::Arr(vec![Val::Int(1)]), nested()]),
        Val::Arr((0..20u64).map(|i| Val::Int(i * 100)).collect()),
        nested(),
    ];
    for v in values {
        let wire = pack(&v);
        for cut in 0..wire.len() {
            assert!(unpack(&wire[..cut]).is_err(), "{v:?} cut at {cut}");
        }
    }
}

fn nested() -> Val {
    dict([("_i", s("_systemInfo")), ("_c", dict([("again", s("_systemInfo")), ("n", Val::Int(9))]))])
}

#[test]
fn a_value_without_repeats_comes_back_however_deep() {
    round(Val::Arr(vec![
        dict([("a", Val::Arr(vec![s("b"), s(""), s(""), Val::Int(5), Val::Int(5)]))]),
        Val::Arr(vec![Val::Int(300), Val::Arr(vec![Val::Int(301), Val::Arr(vec![])])]),
        dict([("c", dict([("d", Val::Data(vec![1, 2])), ("e", Val::Uuid([4; 16]))]))]),
        Val::Arr(vec![]),
    ]));
}

#[test]
fn a_value_is_written_out_for_a_reader() {
    let v = dict([("k", Val::Arr(vec![Val::Null, s("a\"b")])), ("l", Val::Data(vec![1, 20]))]);
    assert_eq!(
        v.debug_text(),
        "Dict({\"k\": Arr([Null, Str(\"a\\\"b\")]), \"l\": Data([1, 20])})"
    );
    assert_eq!(dict([]).debug_text(), "Dict({})");
    assert_eq!(Val::Bool(true).debug_text(), "Bool(true)");
    // Without a dictionary in it the derived form is the same.
    let v = Val::Arr(vec![Val::Int(7), Val::Uuid([1; 16]), Val::Bool(false)]);
    assert_eq!(v.debug_text(), format!("{v:?}"));
}
