use apple_tv::device::{pairing_frame, AppleTv};
use apple_tv::frame::{encode, PS_NEXT};
use apple_tv::hex::hex;
use apple_tv::opack::pack;
use apple_tv::setup::{
    host_and_port, offered, pairing_failure, pairing_reply, pairing_tlv, received_bytes,
    typed_address,
};
use apple_tv::srp::Pairing;
use apple_tv::steps::{Found, Property, SetupInput, SetupState, SetupStep};
use apple_tv::tlv8;

fn found(name: &str) -> Found {
    Found {
        service: Some("_companion-link._tcp".to_string()),
        address: Some("10.0.0.2".to_string()),
        port: Some(7000),
        name: Some(name.to_string()),
        txt_name: None,
        txt_model: None,
    }
}

fn in_phase(phase: &str) -> SetupState {
    let mut state = SetupState::new();
    state.phase = Some(phase.to_string());
    state
}

fn reason(turn: (SetupStep, Option<SetupState>)) -> String {
    assert!(turn.1.is_none());
    match turn.0 {
        SetupStep::Failed { reason } => reason,
        other => panic!("expected a failure, got {other:?}"),
    }
}

fn frame_of(items: &[(u8, Vec<u8>)]) -> Vec<u8> {
    let tlv = tlv8::encode(items);
    encode(PS_NEXT, &pack(&pairing_frame(tlv, ("_pwTy", 1), 1)), None, 0).unwrap()
}

fn brought(items: &[(u8, Vec<u8>)]) -> SetupInput {
    let mut input = SetupInput::new();
    input.received_bytes =
        Some(frame_of(items).iter().map(|b| Some(*b as u64)).collect());
    input
}

#[test]
fn nothing_found_still_offers_an_address_and_ir() {
    let (step, next) = AppleTv.discover(&SetupState::new(), &SetupInput::new());
    let SetupStep::Pick { title, body, columns, rows, field, manual } = step else {
        panic!("expected rows")
    };
    assert_eq!(title, "No Apple TV answered");
    assert!(body.starts_with("Nothing answered on the network. It has to be awake"));
    assert!(body.contains("entirely.\n\nEnter its address by hand (Settings → Network"));
    assert_eq!(columns, ["Name", "Model", "Address"]);
    assert_eq!(field, "address");
    assert_eq!(manual.unwrap().name, "address");
    assert_eq!(rows.len(), 1);
    assert_eq!(rows[0].value, "__ir__");
    assert_eq!(rows[0].cells, ["Use IR instead", "IR emitter", "no network"]);
    assert_eq!(next.unwrap().phase.as_deref(), Some("mode"));
    assert_eq!(
        typed_address().help,
        "for example 192.168.1.40 — on the Apple TV, Settings → Network"
    );
}

#[test]
fn what_answered_is_offered_by_name_hardware_and_address() {
    let mut named = found("den.local");
    named.txt_name = Some("Den".to_string());
    named.txt_model = Some("AppleTV14,1".to_string());
    let mut bare = found("x");
    bare.name = None;
    bare.port = None;
    let mut elsewhere = found("printer");
    elsewhere.service = Some("_ipp._tcp".to_string());
    let mut nowhere = found("ghost");
    nowhere.address = None;
    let mut silent = found("silent");
    silent.service = None;
    assert!(offered(&elsewhere).is_none());
    assert!(offered(&nowhere).is_none());
    assert!(offered(&silent).is_none());

    let mut state = SetupState::new();
    state.mdns_candidates = Some(vec![named, elsewhere, bare, nowhere, silent]);
    let (step, _) = AppleTv.discover(&state, &SetupInput::new());
    let SetupStep::Pick { title, body, rows, .. } = step else { panic!("expected rows") };
    assert_eq!(title, "Found 2 Apple TVs");
    assert!(body.starts_with("Pick one to control it over the network"));
    assert_eq!(rows.len(), 3);
    assert_eq!(rows[0].value, "10.0.0.2:7000");
    assert_eq!(rows[0].cells, ["Den", "AppleTV14,1", "10.0.0.2"]);
    assert_eq!(rows[0].note, "apps, and can open a title");
    assert_eq!(rows[1].value, "10.0.0.2:0");
    assert_eq!(rows[1].cells, ["Apple TV", "Apple TV", "10.0.0.2"]);
    assert_eq!(rows[2].value, "__ir__");

    state.mdns_candidates = Some(vec![found("x")]);
    let (step, _) = AppleTv.discover(&state, &SetupInput::new());
    let SetupStep::Pick { title, rows, .. } = step else { panic!("expected rows") };
    assert_eq!(title, "Found 1 Apple TV");
    assert_eq!(rows[0].cells[0], "x");
}

#[test]
fn picking_ir_ends_setup() {
    let mut input = SetupInput::new();
    input.answers.address = Some("__ir__".to_string());
    let (step, next) = AppleTv.setup(&in_phase("mode"), &input);
    assert!(next.is_none());
    let SetupStep::Done { candidates } = step else { panic!("expected a device") };
    assert_eq!(candidates[0].driver_id, "apple.tv.ir");
    assert_eq!(candidates[0].label, "Apple TV (IR)");
    assert!(candidates[0].properties.is_empty());
    assert_eq!(
        candidates[0].verified,
        "IR only — bind an emitter to it, and see its README about the codes"
    );
}

#[test]
fn picking_nothing_asks_again() {
    let (step, next) = AppleTv.setup(&in_phase("mode"), &SetupInput::new());
    assert!(matches!(step, SetupStep::Pick { .. }));
    assert_eq!(next.unwrap().phase.as_deref(), Some("mode"));
}

#[test]
fn an_address_is_a_host_and_a_port_where_it_has_one() {
    let split = |a: &str| host_and_port(a);
    assert_eq!(split("10.0.0.2:80"), ("10.0.0.2".to_string(), 80));
    assert_eq!(split("10.0.0.2"), ("10.0.0.2".to_string(), 49152));
    assert_eq!(split("tv:"), ("tv".to_string(), 49152));
    assert_eq!(split("tv:65535"), ("tv".to_string(), 65535));
    assert_eq!(split("tv:65536"), ("tv".to_string(), 49152));
    assert_eq!(split("tv:000080"), ("tv".to_string(), 80));
    assert_eq!(split("tv:99999999999999999999"), ("tv".to_string(), 49152));
    assert_eq!(split("tv:+80"), ("tv:+80".to_string(), 49152));
    assert_eq!(split("fe80::1:9"), ("fe80::1".to_string(), 9));
    assert_eq!(split("a:b:c"), ("a:b:c".to_string(), 49152));
    assert_eq!(split(""), ("".to_string(), 49152));
}

#[test]
fn an_unknown_phase_is_refused_by_name() {
    assert_eq!(
        reason(AppleTv.setup(&in_phase("later"), &SetupInput::new())),
        "unknown setup phase `later`"
    );
}

#[test]
fn a_device_that_does_not_answer_is_said_so() {
    assert_eq!(
        reason(AppleTv.setup(&in_phase("asked"), &SetupInput::new())),
        "the Apple TV did not answer as a Companion device. Check the address, and that it is awake."
    );
    assert_eq!(
        reason(AppleTv.setup(&in_phase("asked"), &brought(&[(tlv8::ERROR, vec![3])]))),
        "too many attempts; the Apple TV is refusing new ones for a while"
    );
    let half = brought(&[(tlv8::SALT, vec![1])]);
    assert!(reason(AppleTv.setup(&in_phase("asked"), &half)).contains("did not answer"));
}

#[test]
fn asking_for_a_code_keeps_what_is_needed() {
    let mut state = in_phase("asked");
    state.answers.host = Some("tv".to_string());
    state.port = Some(7);
    let (step, next) = AppleTv::ask_for_code(&state, Some(3), &[1, 2], &[3], [0xAB; 32]);
    let SetupStep::Form { title, body, fields } = step else { panic!("expected a form") };
    assert_eq!(title, "Enter the code on the television");
    assert!(body.starts_with("The Apple TV is showing a four-digit code."));
    assert_eq!(fields[0].label, "Code");
    let next = next.unwrap();
    assert_eq!(next.phase.as_deref(), Some("pin"));
    assert_eq!(next.answers.salt.as_deref(), Some("0102"));
    assert_eq!(next.answers.device_pub.as_deref(), Some("03"));
    assert_eq!(next.answers.seed, Some(hex(&[0xAB; 32])));
    assert_eq!(
        next.answers.client_id.as_deref(),
        Some("ABABABAB-ABAB-ABAB-ABAB-ABABABABABAB")
    );
    assert_eq!(next.session, Some(3));
    assert_eq!(next.answers.host.as_deref(), Some("tv"));
    assert_eq!(next.port, Some(7));
}

fn placed(phase: &str) -> SetupState {
    let mut state = in_phase(phase);
    state.answers.salt = Some(hex(&[7; 16]));
    state.answers.device_pub = Some(hex(&[1; 384]));
    state.answers.seed = Some(hex(&[9; 32]));
    state.answers.client_id = Some("us".to_string());
    state
}

#[test]
fn a_pairing_that_lost_its_place_starts_again() {
    let lost = "the pairing lost its place; start again";
    let pin = |state: &SetupState| {
        let mut input = SetupInput::new();
        input.answers.pin = Some("1234".to_string());
        AppleTv.setup(state, &input)
    };
    assert!(matches!(pin(&placed("pin")).0, SetupStep::Session { .. }));
    let mut state = placed("pin");
    state.answers.salt = None;
    assert_eq!(reason(pin(&state)), lost);
    let mut state = placed("pin");
    state.answers.seed = Some(hex(&[9; 31]));
    assert_eq!(reason(pin(&state)), lost);
    let mut state = placed("pin");
    state.answers.device_pub = Some("x".to_string());
    assert_eq!(reason(pin(&state)), lost);
    let mut state = placed("pin");
    state.answers.client_id = None;
    assert_eq!(reason(pin(&state)), lost);

    let proof = brought(&[(tlv8::PROOF, vec![1])]);
    assert_eq!(reason(AppleTv.setup(&placed("proved"), &proof)), lost);
    let data = brought(&[(tlv8::ENCRYPTED_DATA, vec![1])]);
    assert_eq!(reason(AppleTv.setup(&placed("exchanged"), &data)), lost);
}

#[test]
fn each_step_refuses_in_its_own_words() {
    assert_eq!(
        reason(AppleTv.setup(&placed("pin"), &SetupInput::new())),
        "the PIN on the Apple TV is 4 digits (or 6 or 8 on older ones)"
    );
    let refused = brought(&[(tlv8::ERROR, vec![2])]);
    let wrong = "wrong PIN — the Apple TV rejected the code";
    assert_eq!(reason(AppleTv.setup(&placed("proved"), &refused)), wrong);
    assert_eq!(reason(AppleTv.setup(&placed("exchanged"), &refused)), wrong);
    assert_eq!(
        reason(AppleTv.setup(&placed("proved"), &SetupInput::new())),
        "the Apple TV sent no proof — the code may have been wrong"
    );
    assert_eq!(
        reason(AppleTv.setup(&placed("exchanged"), &SetupInput::new())),
        "the Apple TV did not send its identity back"
    );
    let mut state = placed("proved");
    state.answers.pin = Some("1234".to_string());
    let proof = brought(&[(tlv8::PROOF, vec![1])]);
    assert_eq!(
        reason(AppleTv.setup(&state, &proof)),
        "the Apple TV's proof did not match — wrong PIN"
    );
    state.phase = Some("exchanged".to_string());
    let data = brought(&[(tlv8::ENCRYPTED_DATA, vec![0; 40])]);
    assert_eq!(
        reason(AppleTv.setup(&state, &data)),
        "could not decrypt the Apple TV's reply — wrong key or wrong PIN"
    );
}

#[test]
fn what_the_state_holds_comes_before_what_is_brought() {
    let mut state = placed("pin");
    state.answers.pin = Some("12".to_string());
    let mut input = SetupInput::new();
    input.answers.pin = Some("1234".to_string());
    assert!(reason(AppleTv.setup(&state, &input)).contains("4 digits"));
}

#[test]
fn the_pairing_message_is_found_in_the_frames() {
    let wire = frame_of(&[(tlv8::SALT, vec![1]), (tlv8::PUBLIC_KEY, vec![2])]);
    assert_eq!(pairing_tlv(&wire).len(), 2);
    assert_eq!(pairing_reply(&wire), Some((vec![1], vec![2])));
    assert_eq!(pairing_failure(&wire), None);
    assert_eq!(pairing_tlv(&wire[..wire.len() - 1]), vec![]);
    assert_eq!(pairing_tlv(&[]), vec![]);
    assert_eq!(
        pairing_failure(&frame_of(&[(tlv8::ERROR, vec![6])])).unwrap(),
        "the Apple TV is not accepting pairings right now"
    );
    let mut input = SetupInput::new();
    assert_eq!(received_bytes(&input), vec![]);
    input.received_bytes = Some(vec![Some(1), None, Some(258)]);
    assert_eq!(received_bytes(&input), vec![1, 2]);
}

#[test]
fn a_pairing_becomes_properties() {
    let pairing = Pairing {
        device_id: vec![1],
        device_ltpk: vec![2],
        client_id: vec![3],
        client_sk: [4; 32],
    };
    let c = AppleTv::paired("tv".to_string(), 9, &pairing);
    let said: Vec<(String, String)> = c
        .properties
        .iter()
        .map(|(k, v)| match v {
            Property::Text(t) => (k.clone(), t.clone()),
            Property::Number(n) => (k.clone(), n.to_string()),
        })
        .collect();
    let want = [
        ("Address", "tv".to_string()),
        ("Port", "9".to_string()),
        ("Device id", "01".to_string()),
        ("Device key", "02".to_string()),
        ("Controller id", "03".to_string()),
        ("Controller key", "04".repeat(32)),
    ];
    assert_eq!(said.len(), want.len());
    for ((k, v), (name, value)) in said.iter().zip(want) {
        assert_eq!((k.as_str(), v), (name, &value));
    }
}
