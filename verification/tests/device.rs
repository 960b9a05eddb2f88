use apple_tv::device::{
    data_of, dpad_key, holdable, pairing_frame, text_of, AppleTv, Session, DOWN, HOME, LEFT, MEDIA,
    MENU, PLAY_PAUSE, RIGHT, SELECT, UP, VOLUME_DOWN, VOLUME_UP,
};
use apple_tv::frame::{encode, Framer, E_OPACK, PS_START, PV_NEXT, PV_START};
use apple_tv::hex::hex;
use apple_tv::host::{bytes_of, Args, HostCall, Instance, Note};
use apple_tv::opack::{dict, pack, s, unpack, Val};
use apple_tv::strmap::StrMap;
use apple_tv::tlv8;

const WRITE: [u8; 32] = [1u8; 32];
const READ: [u8; 32] = [2u8; 32];

fn online() -> Instance {
    let mut inst = Instance::new(1);
    Session::store(&mut inst, WRITE, READ);
    inst
}

/// The messages that went out, read as the device reads them, from the counter `from` on.
fn said(calls: &[HostCall], from: u64) -> Vec<Val> {
    let mut out = Vec::new();
    let mut counter = from;
    for call in calls {
        if let HostCall::Tx { control, data } = call {
            assert_eq!(*control, 0);
            let mut f = Framer::default();
            f.feed(data);
            let (kind, payload) = f.next(Some(&WRITE), counter).unwrap().unwrap();
            assert_eq!(kind, E_OPACK);
            assert!(!f.pending());
            out.push(unpack(&payload).unwrap());
            counter += 1;
        }
    }
    out
}

fn warning(calls: &[HostCall]) -> String {
    assert_eq!(calls.len(), 1);
    match &calls[0] {
        HostCall::Log { level, msg } => {
            assert_eq!(level, "warn");
            msg.clone()
        }
        other => panic!("expected a warning, got {other:?}"),
    }
}

fn button(xid: u64, state: u64, code: u64) -> Val {
    dict([
        ("_i", s("_hidC")),
        ("_t", Val::Int(2)),
        ("_x", Val::Int(xid)),
        ("_c", dict([("_hBtS", Val::Int(state)), ("_hidC", Val::Int(code))])),
    ])
}

fn rx(bytes: &[u8]) -> Args {
    let mut args = Args::new();
    args.bytes = Some(bytes.iter().map(|b| Some(*b as u64)).collect());
    args
}

#[test]
fn a_tap_is_a_press_and_a_release_under_their_own_transactions() {
    let mut inst = online();
    let calls = AppleTv::button(&mut inst, SELECT);
    assert_eq!(said(&calls, 0), vec![button(2, 1, 6), button(3, 2, 6)]);
    assert_eq!(inst.scratch.sent, Some(2));
    assert_eq!(inst.scratch.xid, Some(3));

    // The counters go on where they were.
    let calls = AppleTv::press(&mut inst, UP);
    assert_eq!(said(&calls, 2), vec![button(4, 1, 1)]);
    let calls = AppleTv::lift(&mut inst, UP);
    assert_eq!(said(&calls, 3), vec![button(5, 2, 1)]);
}

#[test]
fn a_request_that_repeats_itself_is_read_as_what_it_is() {
    let mut inst = online();
    inst.scratch.xid = Some(299);
    let content = dict([("_hBtS", Val::Int(300)), ("_hidC", Val::Int(300))]);
    let calls = AppleTv::request(&mut inst, "_hidC", content);
    assert_eq!(said(&calls, 0), vec![button(300, 300, 300)]);
}

#[test]
fn each_command_has_its_button() {
    let cases = [
        ("play", PLAY_PAUSE),
        ("pause", PLAY_PAUSE),
        ("stop", MENU),
        ("volume_up", VOLUME_UP),
        ("volume_down", VOLUME_DOWN),
        ("search", HOME),
    ];
    for (cmd, code) in cases {
        let mut inst = online();
        let calls = AppleTv.on_command(&mut inst, MEDIA, cmd, &Args::new());
        assert_eq!(said(&calls, 0), vec![button(2, 1, code), button(3, 2, code)]);
    }
}

#[test]
fn each_key_of_the_pad_has_its_button() {
    let cases = [
        ("up", UP),
        ("down", DOWN),
        ("left", LEFT),
        ("right", RIGHT),
        ("select", SELECT),
        ("back", MENU),
        ("menu", MENU),
        ("home", HOME),
    ];
    for (key, code) in cases {
        assert_eq!(dpad_key(key), Some(code));
        let mut inst = online();
        let mut args = Args::new();
        args.key = Some(key.to_string());
        let calls = AppleTv.on_command(&mut inst, MEDIA, "dpad", &args);
        assert_eq!(said(&calls, 0), vec![button(2, 1, code), button(3, 2, code)]);
    }
    assert_eq!(dpad_key("info"), None);
    assert_eq!(holdable("volume_down"), Some(9));
    assert_eq!(holdable("right"), Some(4));
    assert_eq!(holdable("select"), None);
}

#[test]
fn each_refused_command_says_why() {
    let mut inst = online();
    let mut warn = |cmd: &str, args: &Args| warning(&AppleTv.on_command(&mut inst, MEDIA, cmd, args));
    assert_eq!(warn("launch_app", &Args::new()), "apple-tv: launch_app needs an app");
    assert_eq!(warn("dpad", &Args::new()), "apple-tv: dpad needs a key");
    assert_eq!(warn("hold", &Args::new()), "apple-tv: hold needs a key");
    assert_eq!(warn("on", &Args::new()), "apple-tv: unhandled `on`");
    let mut args = Args::new();
    args.key = Some("info".to_string());
    args.what = Some("select".to_string());
    assert_eq!(warn("dpad", &args), "apple-tv: tvOS has no `info` key");
    assert_eq!(
        warn("hold", &args),
        "apple-tv: `select` cannot be held; try up, down, left, right, volume_up or volume_down"
    );
    assert_eq!(inst.scratch.sent, Some(0));
    assert_eq!(inst.scratch.xid, None);
}

#[test]
fn nothing_is_sent_before_the_session_is_up() {
    let mut inst = Instance::new(1);
    let calls = AppleTv::press(&mut inst, UP);
    assert_eq!(
        warning(&calls),
        "apple-tv: not connected yet — the session is still coming up"
    );
    assert_eq!(inst.scratch.sent, None);
}

#[test]
fn a_message_that_fits_no_frame_is_said_and_not_counted() {
    let mut inst = online();
    let calls = AppleTv::send(&mut inst, Val::Data(vec![0; 0x100_0000]));
    assert_eq!(warning(&calls), "apple-tv: frame too large for a 24-bit length");
    assert_eq!(inst.scratch.sent, Some(0));
}

#[test]
fn holding_the_same_key_again_only_presses() {
    let mut inst = online();
    let mut args = Args::new();
    args.what = Some("left".to_string());
    AppleTv.on_command(&mut inst, MEDIA, "hold", &args);
    let calls = AppleTv.on_command(&mut inst, MEDIA, "hold", &args);
    assert_eq!(said(&calls, 1), vec![button(3, 1, LEFT)]);
    // Another key: the first comes up before the second goes down.
    args.what = Some("right".to_string());
    let calls = AppleTv.on_command(&mut inst, MEDIA, "hold", &args);
    assert_eq!(said(&calls, 2), vec![button(4, 2, LEFT), button(5, 1, RIGHT)]);
    let calls = AppleTv.on_command(&mut inst, MEDIA, "release", &Args::new());
    assert_eq!(said(&calls, 4), vec![button(6, 2, RIGHT)]);
}

fn launch(inst: &mut Instance, args: &Args) -> (Val, Vec<HostCall>) {
    let mut calls = AppleTv.on_command(inst, MEDIA, "launch_app", args);
    let said = said(&calls, 0);
    assert_eq!(said.len(), 1);
    assert_eq!(text_of(&said[0], "_i"), Some("_launchApp"));
    let rest = calls.split_off(1);
    (said[0].get("_c").unwrap().clone(), rest)
}

#[test]
fn a_title_is_launched_by_its_link() {
    let mut inst = online();
    let mut args = Args::new();
    args.app = Some("Hulu".to_string());
    args.content_id = Some("x1".to_string());
    args.content_kind = Some("episode".to_string());
    let (content, rest) = launch(&mut inst, &args);
    assert_eq!(content, dict([("_urlS", s("hulu://series/x1"))]));
    assert_eq!(rest.len(), 1);
    match &rest[0] {
        HostCall::Notify { proxy: MEDIA, note, args: Note::App(app) } => {
            assert_eq!(note, "app_changed");
            assert_eq!(app, "Hulu");
        }
        other => panic!("expected a notification, got {other:?}"),
    }
}

#[test]
fn a_title_that_cannot_be_opened_is_explained() {
    let mut inst = online();
    let mut args = Args::new();
    args.app = Some("Netflix".to_string());
    args.content_id = Some("80234304".to_string());
    let (content, rest) = launch(&mut inst, &args);
    assert_eq!(content, dict([("_bundleID", s("com.netflix.Netflix"))]));
    assert_eq!(rest.len(), 2);
    match &rest[1] {
        HostCall::Log { level, msg } => {
            assert_eq!(level, "info");
            assert!(msg.starts_with("opened Netflix on its home screen"));
        }
        other => panic!("expected a word, got {other:?}"),
    }
}

#[test]
fn the_device_is_asked_by_the_name_it_reported() {
    let mut bundles = StrMap::new();
    bundles.insert("SVT Play".to_string(), "se.svt.play".to_string());
    bundles.insert("Netflix".to_string(), "com.box.netflix".to_string());
    let mut inst = online();
    inst.scratch.bundles = Some(bundles);
    let mut args = Args::new();
    args.app = Some("svt".to_string());
    args.launch_id = Some("from.the.catalog".to_string());
    assert_eq!(launch(&mut inst, &args).0, dict([("_bundleID", s("se.svt.play"))]));
    inst.scratch.sent = Some(0);
    args.app = Some("NETFLIX on the box".to_string());
    assert_eq!(launch(&mut inst, &args).0, dict([("_bundleID", s("com.box.netflix"))]));
    // Where the device said nothing, the catalog is believed, and then the table.
    inst.scratch.sent = Some(0);
    args.app = Some("YouTube".to_string());
    assert_eq!(launch(&mut inst, &args).0, dict([("_bundleID", s("from.the.catalog"))]));
    inst.scratch.sent = Some(0);
    args.launch_id = None;
    assert_eq!(launch(&mut inst, &args).0, dict([("_bundleID", s("com.google.ios.youtube"))]));
}

#[test]
fn an_unpaired_device_is_not_bound() {
    let mut inst = online();
    let calls = AppleTv.on_bind(&mut inst);
    assert_eq!(
        warning(&calls),
        "apple-tv: this device has not been paired — run its setup again"
    );
    assert_eq!(inst.scratch.write, None);
}

#[test]
fn binding_offers_a_public_key_in_clear() {
    let mut inst = online();
    inst.scratch.buffer = Some("00".to_string());
    let calls = AppleTv::bind_with(&mut inst, [9u8; 32]);
    assert_eq!(inst.scratch.verify_seed, Some(hex(&[9u8; 32])));
    assert_eq!(inst.scratch.buffer, None);
    assert!(Session::load(&inst).is_none());
    assert_eq!(calls.len(), 1);
    let HostCall::Tx { data, .. } = &calls[0] else { panic!("expected bytes") };
    let mut f = Framer::default();
    f.feed(data);
    let (kind, payload) = f.next(None, 0).unwrap().unwrap();
    assert_eq!(kind, PV_START);
    let message = unpack(&payload).unwrap();
    assert_eq!(message.get("_auTy"), Some(&Val::Int(4)));
    assert_eq!(message.get("_x"), Some(&Val::Int(1)));
    let items = tlv8::decode(data_of(&message, "_pd").unwrap());
    assert_eq!(tlv8::get(&items, tlv8::STATE), Some(&[1u8][..]));
    let secret = x25519_dalek::StaticSecret::from([9u8; 32]);
    assert_eq!(
        tlv8::get(&items, tlv8::PUBLIC_KEY),
        Some(&x25519_dalek::PublicKey::from(&secret).to_bytes()[..])
    );
}

#[test]
fn two_binds_do_not_offer_the_same_key() {
    let mut inst = Instance::new(1);
    inst.properties.device_id = Some("00".to_string());
    inst.properties.device_key = Some("00".to_string());
    inst.properties.controller_id = Some("00".to_string());
    inst.properties.controller_key = Some(hex(&[1u8; 32]));
    AppleTv.on_bind(&mut inst);
    let one = inst.scratch.verify_seed.clone().unwrap();
    AppleTv.on_bind(&mut inst);
    assert_eq!(one.len(), 64);
    assert_ne!(Some(one), inst.scratch.verify_seed);
}

fn reply(inst: &mut Instance, message: &Val, counter: u64) -> Vec<HostCall> {
    let wire = encode(E_OPACK, &pack(message), Some(&READ), counter).unwrap();
    AppleTv.on_event(inst, 0, "rx", &rx(&wire))
}

#[test]
fn a_list_of_apps_is_kept_and_told_in_order() {
    let mut inst = online();
    let calls = reply(
        &mut inst,
        &dict([(
            "_c",
            dict([
                ("com.b", s("Zebra")),
                ("com.a", s("Apple")),
                ("com.c", Val::Int(5)),
                ("com.d", s("Apple")),
            ]),
        )]),
        0,
    );
    assert_eq!(calls.len(), 1);
    match &calls[0] {
        HostCall::Notify { note, args: Note::Apps(names), .. } => {
            assert_eq!(note, "apps_changed");
            assert_eq!(names, &["Apple", "Apple", "Zebra"]);
        }
        other => panic!("expected a notification, got {other:?}"),
    }
    let bundles = inst.scratch.bundles.as_ref().unwrap();
    assert_eq!(bundles.get("Apple"), Some(&"com.d".to_string()));
    assert_eq!(bundles.get("Zebra"), Some(&"com.b".to_string()));
    assert_eq!(bundles.len(), 2);
    assert_eq!(inst.scratch.received, Some(1));
    assert_eq!(inst.scratch.buffer, Some(String::new()));
}

#[test]
fn a_failure_is_said_and_other_replies_are_passed_over() {
    let mut inst = online();
    let calls = reply(&mut inst, &dict([("_em", s("no such app"))]), 0);
    assert_eq!(warning(&calls), "apple-tv: no such app");
    assert!(reply(&mut inst, &dict([("_c", Val::Int(1))]), 1).is_empty());
    assert!(reply(&mut inst, &dict([("_c", dict([]))]), 2).is_empty());
    assert!(reply(&mut inst, &Val::Null, 3).is_empty());
    assert_eq!(inst.scratch.received, Some(4));
}

#[test]
fn a_frame_of_another_kind_or_without_a_value_is_passed_over() {
    let mut inst = Instance::new(1);
    assert!(AppleTv.on_frame(&mut inst, PS_START, &pack(&dict([("_em", s("x"))]))).is_empty());
    assert!(AppleTv.on_frame(&mut inst, E_OPACK, &[]).is_empty());
    assert!(AppleTv.on_frame(&mut inst, E_OPACK, &[0xFF]).is_empty());
    assert!(AppleTv.on_frame(&mut inst, PV_NEXT, &pack(&dict([]))).is_empty());
}

#[test]
fn a_refused_verification_ends_the_session() {
    let mut inst = online();
    let tlv = tlv8::encode(&[(tlv8::STATE, vec![4]), (tlv8::ERROR, vec![2])]);
    let payload = pack(&pairing_frame(tlv, ("_auTy", 4), 9));
    let calls = AppleTv.on_frame(&mut inst, PV_NEXT, &payload);
    assert_eq!(warning(&calls), "apple-tv: wrong PIN — the Apple TV rejected the code");
    assert!(Session::load(&inst).is_none());
}

#[test]
fn a_frame_that_does_not_open_ends_the_session() {
    let mut inst = online();
    let mut wire = encode(E_OPACK, &pack(&Val::Null), Some(&READ), 5).unwrap();
    wire.extend([8, 0, 0, 9]);
    let calls = AppleTv.on_event(&mut inst, 0, "rx", &rx(&wire));
    assert_eq!(
        warning(&calls),
        "apple-tv: could not decrypt a frame — the session is out of step"
    );
    assert!(Session::load(&inst).is_none());
    assert_eq!(inst.scratch.buffer, Some("08000009".to_string()));
}

#[test]
fn reads_in_any_pieces_come_to_the_same() {
    let mut wire = encode(E_OPACK, &pack(&dict([("_em", s("one"))])), Some(&READ), 0).unwrap();
    wire.extend(encode(E_OPACK, &pack(&dict([("_em", s("two"))])), Some(&READ), 1).unwrap());
    wire.extend([8, 0]);
    for cut in 0..wire.len() {
        let mut inst = online();
        let mut calls = AppleTv.on_event(&mut inst, 0, "rx", &rx(&wire[..cut]));
        calls.extend(AppleTv.on_event(&mut inst, 0, "rx", &rx(&wire[cut..])));
        assert_eq!(calls.len(), 2);
        assert_eq!(warning(&calls[..1]), "apple-tv: one");
        assert_eq!(warning(&calls[1..]), "apple-tv: two");
        assert_eq!(inst.scratch.received, Some(2));
        assert_eq!(inst.scratch.buffer, Some("0800".to_string()));
    }
}

#[test]
fn other_events_change_nothing() {
    let mut inst = online();
    assert!(AppleTv.on_event(&mut inst, 0, "connected", &rx(&[8, 0, 0, 0])).is_empty());
    assert!(AppleTv.on_event(&mut inst, 0, "rx", &Args::new()).is_empty());
    assert_eq!(inst.scratch.buffer, None);
}

#[test]
fn only_numbers_are_bytes_and_only_their_low_bits() {
    assert_eq!(bytes_of(&[Some(1), None, Some(0x1FF), Some(256)]), vec![1, 0xFF, 0]);
}

#[test]
fn counters_wrap_rather_than_stop() {
    let mut inst = online();
    inst.scratch.sent = Some(u64::MAX);
    inst.scratch.received = Some(7);
    Session::advance_out(&mut inst);
    Session::advance_in(&mut inst);
    assert_eq!((inst.scratch.sent, inst.scratch.received), (Some(0), Some(8)));
}

#[test]
fn a_stored_session_is_loaded() {
    let inst = online();
    let session = Session::load(&inst).unwrap();
    assert_eq!((session.write, session.read), (WRITE, READ));
    assert_eq!((session.sent, session.received), (0, 0));
    assert!(Session::load(&Instance::new(1)).is_none());
}

#[test]
fn a_pairing_is_read_from_four_properties() {
    let mut inst = Instance::new(1);
    assert!(AppleTv::pairing(&inst).is_none());
    inst.properties.device_id = Some(hex(b"dev"));
    inst.properties.device_key = Some(hex(&[3; 32]));
    inst.properties.controller_id = Some(hex(b"us"));
    inst.properties.controller_key = Some(hex(&[4; 31]));
    assert!(AppleTv::pairing(&inst).is_none());
    inst.properties.controller_key = Some(hex(&[4; 32]));
    let pairing = AppleTv::pairing(&inst).unwrap();
    assert_eq!(pairing.device_id, b"dev");
    assert_eq!(pairing.device_ltpk, vec![3; 32]);
    assert_eq!(pairing.client_id, b"us");
    assert_eq!(pairing.client_sk, [4; 32]);
}

#[test]
fn the_outcome_of_a_verification_opens_up_or_is_said() {
    let mut inst = Instance::new(1);
    let calls = AppleTv::settle(&mut inst, b"us", Ok((vec![7], WRITE, READ)));
    assert_eq!(calls.len(), 5);
    let HostCall::Tx { data, .. } = &calls[0] else { panic!("expected bytes") };
    let mut f = Framer::default();
    f.feed(data);
    let (kind, payload) = f.next(None, 0).unwrap().unwrap();
    assert_eq!(kind, PV_NEXT);
    let message = unpack(&payload).unwrap();
    assert_eq!(data_of(&message, "_pd"), Some(&[7u8][..]));
    assert_eq!(message.get("_x"), Some(&Val::Int(2)));
    let said = said(&calls[1..], 0);
    assert_eq!(text_of(&said[0], "_i"), Some("_systemInfo"));
    assert_eq!(text_of(&said[1], "_i"), Some("_sessionStart"));
    assert_eq!(text_of(&said[2], "_i"), Some("FetchLaunchableApplicationsEvent"));
    let info = said[0].get("_c").unwrap();
    assert_eq!(data_of(info, "_idsID"), Some(&b"us"[..]));
    assert_eq!(text_of(info, "_sv"), Some("170.18"));
    assert_eq!(info.get("_cf"), Some(&Val::Int(512)));
    assert_eq!(
        said[1].get("_c"),
        Some(&dict([("_srvT", s("com.apple.tvremoteservices")), ("_sid", Val::Int(1))]))
    );
    match &calls[4] {
        HostCall::Notify { note, args: Note::Online(true), .. } => {
            assert_eq!(note, "online_changed");
        }
        other => panic!("expected a notification, got {other:?}"),
    }

    let calls = AppleTv::settle(&mut inst, b"us", Err("no".to_string()));
    assert_eq!(warning(&calls), "apple-tv: no");
    assert!(Session::load(&inst).is_none());
}
