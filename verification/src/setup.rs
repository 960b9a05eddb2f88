//! Setting an Apple TV up: finding it, showing a code, and pairing with it step by step.
//!
//! The host performs each step and comes back with what it brought. The driver is entered afresh
//! each time, so what it needs later is in the state that it hands back.

pub mod laws;

use crate::bytes;
use crate::crypto;
use crate::device;
use crate::device::AppleTv;
use crate::frame;
use crate::hex;
use crate::host;
use crate::opack;
use crate::opack::model;
use crate::srp;
use crate::steps;
use crate::steps::{
    AnswersView, Candidate, CandidateView, Connect, ConnectView, Field, FieldView, Found,
    FoundView, InputView, PickRow, Property, PropertyView, RowView, SetupInput, SetupState,
    SetupStep, StateView, StepView,
};
use crate::text;
use crate::tlv8;
use vstd::prelude::*;
use vstd::utf8::*;

verus! {

/// The value of the row that means: do not use the network at all.
pub const IR_ROW: &'static str = "__ir__";

/// The port that is tried where none is known.
pub const DEFAULT_PORT: u16 = 49152;

// --------------------------------------------------------------------------------------------
// Finding one
// --------------------------------------------------------------------------------------------

/// The question for an address typed by hand.
pub open spec fn address_field() -> FieldView {
    FieldView {
        name: "address"@,
        label: "Address"@,
        kind: "string"@,
        help: "for example 192.168.1.40 — on the Apple TV, Settings → Network"@,
        required: true,
    }
}

/// A field for typing an address by hand, since multicast is blocked on plenty of networks.
pub fn typed_address() -> (r: Field)
    ensures
        r@ == address_field(),
{
    Field {
        name: "address".to_string(),
        label: "Address".to_string(),
        kind: "string".to_string(),
        help: "for example 192.168.1.40 — on the Apple TV, Settings → Network".to_string(),
        required: true,
    }
}

/// Whether something that answered is of the service that is wanted.
pub open spec fn wanted(f: FoundView) -> bool {
    f.service is Some && text::occurs("companion"@, f.service->0)
}

/// The row of something that answered: where it is, what it is called, and its hardware, which is
/// all that tells two of the same name apart.
pub open spec fn row_of(f: FoundView) -> RowView {
    let address = f.address->0;
    let name = match (f.txt_name, f.name) {
        (Some(name), _) => name,
        (None, Some(name)) => name,
        (None, None) => "Apple TV"@,
    };
    let hardware = match f.txt_model {
        Some(hardware) => hardware,
        None => "Apple TV"@,
    };
    RowView {
        value: address + ":"@ + text::decimal(f.port.unwrap_or(0) as nat),
        cells: seq![name, hardware, address],
        note: "apps, and can open a title"@,
    }
}

/// The rows of what answered, without what is of another service or has no address.
pub open spec fn found_rows(found: Seq<FoundView>) -> Seq<RowView>
    decreases found.len(),
{
    if found.len() == 0 {
        seq![]
    } else {
        let f = found.last();
        if wanted(f) && f.address is Some {
            found_rows(found.drop_last()).push(row_of(f))
        } else {
            found_rows(found.drop_last())
        }
    }
}

/// The row for an emitter, which needs no address at all.
pub open spec fn ir_row() -> RowView {
    RowView {
        value: IR_ROW@,
        cells: seq!["Use IR instead"@, "IR emitter"@, "no network"@],
        note: "arrows, select, menu, play — no apps and no titles"@,
    }
}

/// What is said over the rows.
pub open spec fn pick_title(n: nat) -> Seq<char> {
    if n == 0 {
        "No Apple TV answered"@
    } else {
        "Found "@ + text::decimal(n) + " Apple TV"@ + (if n == 1 {
            seq![]
        } else {
            "s"@
        })
    }
}

/// What is said about the rows.
pub open spec fn pick_body(n: nat) -> Seq<char> {
    if n == 0 {
        "Nothing answered on the network. It has to be awake and on the same network as the controller — one asleep on ethernet still answers, one on Wi-Fi usually does not, and plenty of networks block multicast entirely.\n\nEnter its address by hand (Settings → Network on the device), or set it up for IR, which needs no address."@
    } else {
        "Pick one to control it over the network — that is the only way to launch an app or open a title. IR is there for a box the controller cannot reach."@
    }
}

/// Offer what answered, an address to type, and IR, all in one step.
pub open spec fn asking(state: StateView) -> steps::Turn {
    let found = found_rows(state.mdns_candidates.unwrap_or(seq![]));
    (
        StepView::Pick {
            title: pick_title(found.len()),
            body: pick_body(found.len()),
            columns: seq!["Name"@, "Model"@, "Address"@],
            rows: found.push(ir_row()),
            field: "address"@,
            manual: Some(address_field()),
        },
        Some(StateView { phase: Some("mode"@), ..steps::blank() }),
    )
}

fn three(a: String, b: String, c: String) -> (r: Vec<String>)
    ensures
        host::texts(r@) == seq![a@, b@, c@],
{
    let mut out: Vec<String> = Vec::new();
    out.push(a);
    out.push(b);
    out.push(c);
    assert(host::texts(out@) =~= seq![a@, b@, c@]);
    out
}

/// The row of something that answered, if it is to be offered.
pub fn offered(f: &Found) -> (r: Option<PickRow>)
    ensures
        match r {
            Some(row) => wanted(f@) && f@.address is Some && row@ == row_of(f@),
            None => !(wanted(f@) && f@.address is Some),
        },
{
    match &f.service {
        Some(service) => {
            if !text::contains(service.as_str(), "companion") {
                return None;
            }
        },
        None => {
            return None;
        },
    }
    let address = match &f.address {
        Some(address) => address.as_str(),
        None => {
            return None;
        },
    };
    let name = match &f.txt_name {
        Some(name) => name.clone(),
        None => match &f.name {
            Some(name) => name.clone(),
            None => "Apple TV".to_string(),
        },
    };
    let hardware = match &f.txt_model {
        Some(hardware) => hardware.clone(),
        None => "Apple TV".to_string(),
    };
    let port = text::decimal_text(f.port.unwrap_or(0));
    Some(
        PickRow {
            value: text::concat3(address, ":", port.as_str()),
            cells: three(name, hardware, address.to_string()),
            note: "apps, and can open a title".to_string(),
        },
    )
}

impl AppleTv {
    /// Offer what answered over mDNS, an address to type, and IR, all in one step.
    pub fn ask_for_address(state: &SetupState) -> (r: (SetupStep, Option<SetupState>))
        ensures
            steps::took(r, asking(state@)),
    {
        let mut rows: Vec<PickRow> = Vec::new();
        let ghost all = state@.mdns_candidates.unwrap_or(seq![]);
        assert(steps::rows(rows@) =~= found_rows(all.take(0)));
        match &state.mdns_candidates {
            None => {
                assert(all.take(0) =~= all);
            },
            Some(found) => {
                let mut i: usize = 0;
                while i < found.len()
                    invariant
                        i <= found@.len(),
                        all == steps::founds(found@),
                        steps::rows(rows@) == found_rows(all.take(i as int)),
                    decreases found@.len() - i,
                {
                    let ghost before = rows@;
                    assert(all.take(i + 1).drop_last() =~= all.take(i as int));
                    assert(all.take(i + 1).last() == found@[i as int]@);
                    match offered(&found[i]) {
                        Some(row) => {
                            rows.push(row);
                            assert(steps::rows(rows@) =~= steps::rows(before).push(row@));
                        },
                        None => {},
                    }
                    i += 1;
                }
                assert(all.take(all.len() as int) =~= all);
            },
        }
        let n: usize = rows.len();
        let ghost found = steps::rows(rows@);
        assert(found.len() == n);
        rows.push(
            PickRow {
                value: IR_ROW.to_string(),
                cells: three(
                    "Use IR instead".to_string(),
                    "IR emitter".to_string(),
                    "no network".to_string(),
                ),
                note: "arrows, select, menu, play — no apps and no titles".to_string(),
            },
        );
        assert(steps::rows(rows@) =~= found.push(ir_row()));
        let (title, body) = if n == 0 {
            (
                "No Apple TV answered".to_string(),
                "Nothing answered on the network. It has to be awake and on the same network as the controller — one asleep on ethernet still answers, one on Wi-Fi usually does not, and plenty of networks block multicast entirely.\n\nEnter its address by hand (Settings → Network on the device), or set it up for IR, which needs no address.".to_string(),
            )
        } else {
            let mut title = text::concat3(
                "Found ",
                text::decimal_text(n as u64).as_str(),
                " Apple TV",
            );
            if n != 1 {
                title.append("s");
            }
            assert(title@ =~= pick_title(n as nat));
            (
                title,
                "Pick one to control it over the network — that is the only way to launch an app or open a title. IR is there for a box the controller cannot reach.".to_string(),
            )
        };
        let mut next = SetupState::new();
        next.phase = Some("mode".to_string());
        (
            SetupStep::Pick {
                title,
                body,
                columns: three("Name".to_string(), "Model".to_string(), "Address".to_string()),
                rows,
                field: "address".to_string(),
                manual: Some(typed_address()),
            },
            Some(next),
        )
    }
}

// --------------------------------------------------------------------------------------------
// What was picked
// --------------------------------------------------------------------------------------------

/// An answer: what the state holds, else what was brought.
pub open spec fn answer(state: Option<Seq<char>>, input: Option<Seq<char>>) -> Option<Seq<char>> {
    match state {
        Some(t) => Some(t),
        None => input,
    }
}

fn get(state: &Option<String>, input: &Option<String>) -> (r: Option<String>)
    ensures
        host::maybe(r) == answer(host::maybe(*state), host::maybe(*input)),
{
    match state {
        Some(t) => Some(t.clone()),
        None => host::copied(input),
    }
}

/// Where the last colon of `s` is.
pub open spec fn last_colon(s: Seq<char>) -> Option<int>
    decreases s.len(),
{
    if s.len() == 0 {
        None
    } else if s.last() == ':' {
        Some(s.len() - 1)
    } else {
        last_colon(s.drop_last())
    }
}

/// Digits only.
pub open spec fn all_digits(s: Seq<char>) -> bool {
    forall|i: int| 0 <= i < s.len() ==> text::is_digit(#[trigger] s[i])
}

/// The port that digits spell, if they spell one; else the default.
pub open spec fn port_of(s: Seq<char>) -> u16 {
    if s.len() > 0 && text::decimal_value(s) <= u16::MAX {
        text::decimal_value(s) as u16
    } else {
        DEFAULT_PORT
    }
}

/// The host and port of an address. What stands after the last colon is a port if it is digits
/// only; else the whole is a host, and the port has to be guessed.
pub open spec fn split(address: Seq<char>) -> (Seq<char>, u16) {
    match last_colon(address) {
        Some(i) => if all_digits(address.skip(i + 1)) {
            (address.take(i), port_of(address.skip(i + 1)))
        } else {
            (address, DEFAULT_PORT)
        },
        None => (address, DEFAULT_PORT),
    }
}

proof fn lemma_last_colon(s: Seq<char>, n: int)
    requires
        0 <= n <= s.len(),
        forall|j: int| n <= j < s.len() ==> #[trigger] s[j] != ':',
    ensures
        last_colon(s) == last_colon(s.take(n)),
    decreases s.len() - n,
{
    if n < s.len() {
        assert(s[s.len() - 1] != ':');
        lemma_last_colon(s.drop_last(), n);
        assert(s.drop_last().take(n) =~= s.take(n));
    } else {
        assert(s.take(n) =~= s);
    }
}

/// More digits spell no smaller number.
proof fn lemma_digits_grow(s: Seq<char>, n: int)
    requires
        0 <= n <= s.len(),
        all_digits(s),
    ensures
        text::decimal_value(s.take(n)) <= text::decimal_value(s),
    decreases s.len() - n,
{
    if n < s.len() {
        assert forall|i: int| 0 <= i < s.drop_last().len() implies text::is_digit(
            #[trigger] s.drop_last()[i],
        ) by {
            assert(text::is_digit(s[i]));
        }
        lemma_digits_grow(s.drop_last(), n);
        assert(s.drop_last().take(n) =~= s.take(n));
        assert(text::is_digit(s[s.len() - 1]));
    } else {
        assert(s.take(n) =~= s);
    }
}

fn read_port(digits: &[char]) -> (r: u16)
    requires
        all_digits(digits@),
    ensures
        r == port_of(digits@),
{
    if digits.len() == 0 {
        return DEFAULT_PORT;
    }
    let mut value: u32 = 0;
    let mut i: usize = 0;
    assert(digits@.take(0) =~= seq![]);
    while i < digits.len()
        invariant
            i <= digits@.len(),
            all_digits(digits@),
            digits@.len() > 0,
            value <= u16::MAX,
            value == text::decimal_value(digits@.take(i as int)),
        decreases digits@.len() - i,
    {
        assert(text::is_digit(digits@[i as int]));
        assert(digits@.take(i + 1).drop_last() =~= digits@.take(i as int));
        value = 10 * value + (digits[i] as u32 - 48);
        i += 1;
        if value > 0xFFFF {
            proof {
                lemma_digits_grow(digits@, i as int);
            }
            return DEFAULT_PORT;
        }
    }
    assert(digits@.take(digits@.len() as int) =~= digits@);
    value as u16
}

/// The host and port of an address.
pub fn host_and_port(address: &str) -> (r: (String, u16))
    ensures
        (r.0@, r.1) == split(address@),
{
    let chars = text::chars_of(address);
    let mut i: usize = chars.len();
    assert(address@.take(address@.len() as int) =~= address@);
    while i > 0 && chars[i - 1] != ':'
        invariant
            chars@ == address@,
            i <= address@.len(),
            forall|j: int| i <= j < address@.len() ==> #[trigger] address@[j] != ':',
        decreases i,
    {
        i -= 1;
    }
    proof {
        lemma_last_colon(address@, i as int);
    }
    if i == 0 {
        return (address.to_string(), DEFAULT_PORT);
    }
    let ghost at = i - 1;
    assert(address@.take(i as int).last() == ':');
    assert(last_colon(address@) == Some(at));
    let mut j: usize = i;
    let ghost tail = address@.skip(at + 1);
    while j < chars.len()
        invariant
            chars@ == address@,
            1 <= i <= j <= address@.len(),
            at == i - 1,
            tail == address@.skip(at + 1),
            last_colon(address@) == Some(at),
            forall|k: int| i <= k < j ==> text::is_digit(#[trigger] address@[k]),
        decreases address@.len() - j,
    {
        let c = chars[j];
        if !('0' <= c && c <= '9') {
            proof {
                assert(tail[j - i] == c);
                assert(!all_digits(tail));
            }
            return (address.to_string(), DEFAULT_PORT);
        }
        j += 1;
    }
    let all = chars.as_slice();
    let digits = vstd::slice::slice_subrange(all, i, chars.len());
    assert(digits@ =~= tail);
    assert(all_digits(tail)) by {
        assert forall|k: int| 0 <= k < tail.len() implies text::is_digit(#[trigger] tail[k]) by {
            assert(tail[k] == address@[i + k]);
        }
    }
    let port: u16 = read_port(digits);
    let name = text::text_of(vstd::slice::slice_subrange(all, 0, i - 1));
    assert(name@ =~= address@.take(at));
    (name, port)
}

/// The device of somebody who picked IR.
pub open spec fn ir_candidate() -> CandidateView {
    CandidateView {
        label: "Apple TV (IR)"@,
        kind: "Apple TV"@,
        driver_id: "apple.tv.ir"@,
        properties: seq![],
        verified: "IR only — bind an emitter to it, and see its README about the codes"@,
    }
}

/// A pairing message in a frame of its own.
pub open spec fn pairing_wire(kind: u8, tlv: Seq<u8>, xid: u64) -> Option<Seq<u8>> {
    frame::framed(kind, model::wire_of(device::pairing_node(tlv, "_pwTy"@, 1, xid)), None, 0)
}

fn pairing_bytes(kind: u8, tlv: Vec<u8>, xid: u64) -> (r: Option<Vec<u8>>)
    ensures
        match r {
            Some(wire) => pairing_wire(kind, tlv@, xid) == Some(wire@),
            None => pairing_wire(kind, tlv@, xid) is None,
        },
{
    let payload = opack::pack(&device::pairing_frame(tlv, ("_pwTy", 1), xid));
    match frame::encode(kind, payload.as_slice(), None, 0) {
        Ok(wire) => Some(wire),
        Err(_) => None,
    }
}

/// What was picked decides everything: the IR row is an answer and ends here. Anything else is an
/// address, and the device is asked to show a code.
pub open spec fn choosing(state: StateView, input: InputView) -> steps::Turn {
    match answer(state.answers.address, input.answers.address) {
        None => asking(state),
        Some(address) => if address == IR_ROW@ {
            steps::finishing(ir_candidate())
        } else {
            let (name, port) = split(address);
            match pairing_wire(frame::PS_START, srp::start_message(), 1) {
                None => steps::failing("could not build the pairing request"@),
                Some(wire) => (
                    StepView::Session {
                        session: None,
                        open: Some(ConnectView { host: name, port, tls: false }),
                        send_bytes: wire,
                        read_ms: 5000,
                        close: false,
                        note: "asking the Apple TV to show a code"@,
                    },
                    Some(
                        StateView {
                            phase: Some("asked"@),
                            answers: AnswersView { host: Some(name), ..steps::unanswered() },
                            port: Some(port as u64),
                            ..steps::blank()
                        },
                    ),
                ),
            }
        },
    }
}

impl AppleTv {
    fn choose_mode(state: &SetupState, input: &SetupInput) -> (r: (SetupStep, Option<SetupState>))
        ensures
            steps::took(r, choosing(state@, input@)),
    {
        let address = match get(&state.answers.address, &input.answers.address) {
            Some(address) => address,
            None => {
                return Self::ask_for_address(state);
            },
        };
        if text::same(address.as_str(), IR_ROW) {
            let candidate = Candidate {
                label: "Apple TV (IR)".to_string(),
                kind: "Apple TV".to_string(),
                driver_id: "apple.tv.ir".to_string(),
                properties: Vec::new(),
                verified:
                    "IR only — bind an emitter to it, and see its README about the codes".to_string(),
            };
            assert(candidate@.properties =~= seq![]);
            return steps::finish(candidate);
        }
        let (name, port) = host_and_port(address.as_str());
        let wire = match pairing_bytes(frame::PS_START, srp::setup_start(), 1) {
            Some(wire) => wire,
            None => {
                return steps::fail("could not build the pairing request".to_string());
            },
        };
        let mut next = SetupState::new();
        next.phase = Some("asked".to_string());
        next.answers.host = Some(name.clone());
        next.port = Some(port as u64);
        (
            SetupStep::Session {
                session: None,
                open: Some(Connect { host: name, port, tls: false }),
                send_bytes: wire,
                read_ms: 5000,
                close: false,
                note: "asking the Apple TV to show a code".to_string(),
            },
            Some(next),
        )
    }
}

// --------------------------------------------------------------------------------------------
// What the device answered
// --------------------------------------------------------------------------------------------

/// The bytes that the host brought.
pub open spec fn brought(input: InputView) -> Seq<u8> {
    match input.received_bytes {
        Some(values) => host::low_bytes(values),
        None => seq![],
    }
}

/// The bytes that the host brought.
pub fn received_bytes(input: &SetupInput) -> (r: Vec<u8>)
    ensures
        r@ == brought(input@),
{
    match &input.received_bytes {
        Some(values) => host::bytes_of(values.as_slice()),
        None => {
            let none: Vec<u8> = Vec::new();
            assert(none@ =~= seq![]);
            none
        },
    }
}

/// The pairing data that a payload carries.
pub open spec fn pairing_data(payload: Seq<u8>) -> Option<Seq<u8>> {
    match model::said_by(payload) {
        Ok(message) => device::data_under(message, "_pd"@),
        Err(_) => None,
    }
}

/// The pairing message in the first frame of `received` that carries one.
pub open spec fn pairing_items(received: Seq<u8>) -> Seq<(u8, Seq<u8>)>
    decreases received.len(),
{
    if !frame::complete(received) {
        seq![]
    } else {
        let payload = received.subrange(
            frame::HEADER as int,
            frame::HEADER + frame::declared(received),
        );
        match pairing_data(payload) {
            Some(data) => tlv8::decoded(data),
            None => pairing_items(frame::left(received)),
        }
    }
}

/// The pairing message in whatever frames arrived.
pub fn pairing_tlv(received: &[u8]) -> (r: Vec<(u8, Vec<u8>)>)
    ensures
        tlv8::entries(r@) == pairing_items(received@),
{
    let mut framer = frame::Framer::default();
    framer.feed(received);
    assert(framer@ =~= received@);
    loop
        invariant
            pairing_items(framer@) == pairing_items(received@),
        decreases framer@.len(),
    {
        match framer.next(None, 0) {
            Some(Ok((_, payload))) => {
                match opack::unpack(payload.as_slice()) {
                    Ok(message) => {
                        match device::data_of(&message, "_pd") {
                            Some(data) => {
                                return tlv8::decode(data);
                            },
                            None => {},
                        }
                    },
                    Err(_) => {},
                }
            },
            _ => {
                let none: Vec<(u8, Vec<u8>)> = Vec::new();
                assert(tlv8::entries(none@) =~= seq![]);
                return none;
            },
        }
    }
}

/// The salt and the public value in a pairing message.
pub open spec fn challenge(items: Seq<(u8, Seq<u8>)>) -> Option<(Seq<u8>, Seq<u8>)> {
    match (tlv8::lookup(items, tlv8::SALT), tlv8::lookup(items, tlv8::PUBLIC_KEY)) {
        (Some(salt), Some(public)) => Some((salt, public)),
        _ => None,
    }
}

/// The salt and the public value that the device answered with.
pub fn pairing_reply(received: &[u8]) -> (r: Option<(Vec<u8>, Vec<u8>)>)
    ensures
        match r {
            Some((salt, public)) => challenge(pairing_items(received@)) == Some((salt@, public@)),
            None => challenge(pairing_items(received@)) is None,
        },
{
    let tlv = pairing_tlv(received);
    match (
        tlv8::get(tlv.as_slice(), tlv8::SALT),
        tlv8::get(tlv.as_slice(), tlv8::PUBLIC_KEY),
    ) {
        (Some(salt), Some(public)) => Some((bytes::copy(salt), bytes::copy(public))),
        _ => None,
    }
}

/// Why the device refused, if it did.
pub fn pairing_failure(received: &[u8]) -> (r: Option<String>)
    ensures
        host::maybe(r) == tlv8::refused(pairing_items(received@)),
{
    tlv8::error(pairing_tlv(received).as_slice())
}

// --------------------------------------------------------------------------------------------
// The code
// --------------------------------------------------------------------------------------------

/// The question for the code.
pub open spec fn code_field() -> FieldView {
    FieldView {
        name: "pin"@,
        label: "Code"@,
        kind: "string"@,
        help: "as shown on screen"@,
        required: true,
    }
}

/// Have somebody read the code off the television. What is needed to go on is kept: the salt, the
/// device's public value, our secret, and the identifier that is made from it.
pub open spec fn asking_for_code(
    state: StateView,
    session: Option<u64>,
    salt: Seq<u8>,
    public: Seq<u8>,
    seed: Seq<u8>,
) -> steps::Turn {
    (
        StepView::Form {
            title: "Enter the code on the television"@,
            body:
                "The Apple TV is showing a four-digit code. If it is not, it went to sleep before the request arrived — go back and try again."@,
            fields: seq![code_field()],
        },
        Some(
            StateView {
                phase: Some("pin"@),
                answers: AnswersView {
                    salt: Some(hex::hex_of(salt)),
                    device_pub: Some(hex::hex_of(public)),
                    seed: Some(hex::hex_of(seed)),
                    client_id: Some(hex::uuid_text(seed)),
                    ..state.answers
                },
                session,
                ..state
            },
        ),
    )
}

/// Why the device did not answer with a salt and a public value.
pub open spec fn no_challenge(items: Seq<(u8, Seq<u8>)>) -> Seq<char> {
    match tlv8::refused(items) {
        Some(why) => why,
        None =>
            "the Apple TV did not answer as a Companion device. Check the address, and that it is awake."@,
    }
}

/// What is kept of a pairing on the way: the salt, the device's public value, our secret, and our
/// identifier.
pub struct Kept {
    pub salt: Seq<u8>,
    pub public: Seq<u8>,
    pub seed: Seq<u8>,
    pub client_id: Seq<char>,
}

/// What is kept of a pairing on the way, if all of it is there.
pub open spec fn kept(state: StateView, input: InputView) -> Option<Kept> {
    let a = state.answers;
    let b = input.answers;
    match (
        device::property_bytes(answer(a.salt, b.salt)),
        device::property_bytes(answer(a.device_pub, b.device_pub)),
        device::key_bytes(answer(a.seed, b.seed)),
        answer(a.client_id, b.client_id),
    ) {
        (Some(salt), Some(public), Some(seed), Some(client_id)) => Some(
            Kept { salt, public, seed, client_id },
        ),
        _ => None,
    }
}

/// The complaint that something of it is missing.
pub open spec fn lost() -> Seq<char> {
    "the pairing lost its place; start again"@
}

/// What is kept of a pairing on the way.
struct Place {
    salt: Vec<u8>,
    public: Vec<u8>,
    seed: [u8; 32],
    client_id: String,
}

spec fn place_view(p: Place) -> Kept {
    Kept { salt: p.salt@, public: p.public@, seed: p.seed@, client_id: p.client_id@ }
}

fn find_place(state: &SetupState, input: &SetupInput) -> (r: Option<Place>)
    ensures
        match r {
            Some(p) => kept(state@, input@) == Some(place_view(p)),
            None => kept(state@, input@) is None,
        },
{
    let a = &state.answers;
    let b = &input.answers;
    let salt = match get(&a.salt, &b.salt) {
        Some(t) => hex::unhex(t.as_str()),
        None => None,
    };
    let public = match get(&a.device_pub, &b.device_pub) {
        Some(t) => hex::unhex(t.as_str()),
        None => None,
    };
    let seed = match get(&a.seed, &b.seed) {
        Some(t) => hex::unhex32(t.as_str()),
        None => None,
    };
    match (salt, public, seed, get(&a.client_id, &b.client_id)) {
        (Some(salt), Some(public), Some(seed), Some(client_id)) => Some(
            Place { salt, public, seed, client_id },
        ),
        _ => None,
    }
}

/// The exchange for a code and what is kept.
pub open spec fn exchange(pin: Seq<char>, k: Kept) -> srp::Agreement {
    srp::agree(srp::digits(pin), k.salt, bytes::be_nat(k.public), bytes::be_nat(k.seed))
}

/// The number of a connection, as the host takes it.
pub open spec fn connection(session: Option<u64>) -> Option<u32> {
    match session {
        Some(n) => Some((n % 0x1_0000_0000) as u32),
        None => None,
    }
}

fn connection_of(session: Option<u64>) -> (r: Option<u32>)
    ensures
        r == connection(session),
{
    match session {
        Some(n) => Some((n % 0x1_0000_0000) as u32),
        None => None,
    }
}

/// The next message of a pairing, on the connection that is open.
pub open spec fn saying(
    state: StateView,
    wire: Seq<u8>,
    close: bool,
    note: Seq<char>,
) -> StepView {
    StepView::Session {
        session: connection(state.session),
        open: None,
        send_bytes: wire,
        read_ms: 5000,
        close,
        note,
    }
}

/// Prove that we know the code.
pub open spec fn proving(state: StateView, input: InputView) -> steps::Turn {
    let pin = answer(state.answers.pin, input.answers.pin).unwrap_or(seq![]);
    match kept(state, input) {
        None => steps::failing(lost()),
        Some(k) => match srp::setup_refusal(pin, k.public) {
            Some(why) => steps::failing(why),
            None => {
                let agreed = exchange(pin, k);
                match pairing_wire(
                    frame::PS_NEXT,
                    srp::prove_message(agreed.public, agreed.proven),
                    2,
                ) {
                    None => steps::failing("could not build the pairing proof"@),
                    Some(wire) => (
                        saying(state, wire, false, "checking the code"@),
                        Some(
                            StateView {
                                phase: Some("proved"@),
                                answers: AnswersView { pin: Some(pin), ..state.answers },
                                ..state
                            },
                        ),
                    ),
                }
            },
        },
    }
}

/// The device proved that it knows the code too: hand over our identity.
pub open spec fn exchanging(state: StateView, input: InputView) -> steps::Turn {
    let items = pairing_items(brought(input));
    match (tlv8::refused(items), tlv8::lookup(items, tlv8::PROOF)) {
        (Some(why), _) => steps::failing(why),
        (None, None) => steps::failing(
            "the Apple TV sent no proof — the code may have been wrong"@,
        ),
        (None, Some(device_proof)) => match (
            kept(state, input),
            answer(state.answers.pin, input.answers.pin),
        ) {
            (Some(k), Some(pin)) => match srp::setup_refusal(pin, k.public) {
                Some(why) => steps::failing(why),
                None => match srp::exchanged(
                    exchange(pin, k),
                    k.seed,
                    encode_utf8(k.client_id),
                    device_proof,
                    "Juno"@,
                ) {
                    Err(why) => steps::failing(why),
                    Ok(tlv) => match pairing_wire(frame::PS_NEXT, tlv, 3) {
                        None => steps::failing("could not build the pairing exchange"@),
                        Some(wire) => (
                            saying(state, wire, true, "storing the pairing"@),
                            Some(StateView { phase: Some("exchanged"@), ..state }),
                        ),
                    },
                },
            },
            _ => steps::failing(lost()),
        },
    }
}

/// The device that a pairing makes. Its four properties hold the pairing.
pub open spec fn paired_candidate(
    address: Seq<char>,
    port: u64,
    pairing: srp::PairingView,
) -> CandidateView {
    CandidateView {
        label: "Apple TV"@,
        kind: "Apple TV"@,
        driver_id: "apple.tv"@,
        properties: seq![
            ("Address"@, PropertyView::Text(address)),
            ("Port"@, PropertyView::Number(port)),
            ("Device id"@, PropertyView::Text(hex::hex_of(pairing.device_id))),
            ("Device key"@, PropertyView::Text(hex::hex_of(pairing.device_ltpk))),
            ("Controller id"@, PropertyView::Text(hex::hex_of(pairing.client_id))),
            ("Controller key"@, PropertyView::Text(hex::hex_of(pairing.client_sk))),
        ],
        verified: "paired over Companion"@,
    }
}

/// Keep the identity that came back: this is the pairing.
pub open spec fn concluding(state: StateView, input: InputView) -> steps::Turn {
    let items = pairing_items(brought(input));
    match (tlv8::refused(items), tlv8::lookup(items, tlv8::ENCRYPTED_DATA)) {
        (Some(why), _) => steps::failing(why),
        (None, None) => steps::failing("the Apple TV did not send its identity back"@),
        (None, Some(encrypted)) => match (
            kept(state, input),
            answer(state.answers.pin, input.answers.pin),
        ) {
            (Some(k), Some(pin)) => match srp::setup_refusal(pin, k.public) {
                Some(why) => steps::failing(why),
                None => match srp::opened(
                    srp::setup_key(exchange(pin, k).key),
                    encode_utf8("PS-Msg06"@),
                    encrypted,
                ) {
                    None => steps::failing(srp::unopened()),
                    Some(plain) => match srp::finished(plain, encode_utf8(k.client_id), k.seed) {
                        Err(why) => steps::failing(why),
                        Ok(pairing) => steps::finishing(
                            paired_candidate(
                                answer(state.answers.host, input.answers.host).unwrap_or(seq![]),
                                state.port.unwrap_or(DEFAULT_PORT as u64),
                                pairing,
                            ),
                        ),
                    },
                },
            },
            _ => steps::failing(lost()),
        },
    }
}

impl AppleTv {
    /// Have somebody read the code off the television, and keep what is needed to go on.
    pub fn ask_for_code(
        state: &SetupState,
        session: Option<u64>,
        salt: &[u8],
        public: &[u8],
        seed: [u8; 32],
    ) -> (r: (SetupStep, Option<SetupState>))
        ensures
            steps::took(r, asking_for_code(state@, session, salt@, public@, seed@)),
    {
        let mut next = state.clone();
        next.phase = Some("pin".to_string());
        next.answers.salt = Some(hex::hex(salt));
        next.answers.device_pub = Some(hex::hex(public));
        next.answers.seed = Some(hex::hex(seed.as_slice()));
        next.answers.client_id = Some(hex::uuid_like(&seed));
        next.session = session;
        let mut fields: Vec<Field> = Vec::new();
        fields.push(
            Field {
                name: "pin".to_string(),
                label: "Code".to_string(),
                kind: "string".to_string(),
                help: "as shown on screen".to_string(),
                required: true,
            },
        );
        let step = SetupStep::Form {
            title: "Enter the code on the television".to_string(),
            body:
                "The Apple TV is showing a four-digit code. If it is not, it went to sleep before the request arrived — go back and try again.".to_string(),
            fields,
        };
        assert(step@->fields =~= seq![code_field()]);
        (step, Some(next))
    }

    fn asked(state: &SetupState, input: &SetupInput) -> (r: (SetupStep, Option<SetupState>))
        ensures
            challenge(pairing_items(brought(input@))) is None ==> steps::took(
                r,
                steps::failing(no_challenge(pairing_items(brought(input@)))),
            ),
            challenge(pairing_items(brought(input@))) is Some ==> exists|seed: Seq<u8>|
                seed.len() == 32 && #[trigger] steps::took(
                    r,
                    asking_for_code(
                        state@,
                        input@.session,
                        challenge(pairing_items(brought(input@))).unwrap().0,
                        challenge(pairing_items(brought(input@))).unwrap().1,
                        seed,
                    ),
                ),
    {
        let received = received_bytes(input);
        let (salt, public) = match pairing_reply(received.as_slice()) {
            Some(found) => found,
            None => {
                return match pairing_failure(received.as_slice()) {
                    Some(why) => steps::fail(why),
                    None => steps::fail(
                        "the Apple TV did not answer as a Companion device. Check the address, and that it is awake.".to_string(),
                    ),
                };
            },
        };
        let seed = crypto::random32();
        let r = Self::ask_for_code(
            state,
            input.session,
            salt.as_slice(),
            public.as_slice(),
            seed,
        );
        proof {
            let found = challenge(pairing_items(brought(input@)));
            assert(found == Some((salt@, public@)));
            assert(found.unwrap().0 == salt@ && found.unwrap().1 == public@);
            assert(seed@.len() == 32);
            assert(steps::took(
                r,
                asking_for_code(
                    state@,
                    input@.session,
                    found.unwrap().0,
                    found.unwrap().1,
                    seed@,
                ),
            ));
        }
        r
    }

    fn prove(state: &SetupState, input: &SetupInput) -> (r: (SetupStep, Option<SetupState>))
        ensures
            steps::took(r, proving(state@, input@)),
    {
        let pin = match get(&state.answers.pin, &input.answers.pin) {
            Some(pin) => pin,
            None => {
                let none = String::new();
                assert(none@ =~= seq![]);
                none
            },
        };
        let place = match find_place(state, input) {
            Some(place) => place,
            None => {
                return steps::fail("the pairing lost its place; start again".to_string());
            },
        };
        let tlv = match srp::setup_prove(
            pin.as_str(),
            place.salt.as_slice(),
            place.public.as_slice(),
            place.seed,
            bytes::copy(place.client_id.as_str().as_bytes()),
        ) {
            Ok((_, tlv)) => tlv,
            Err(e) => {
                return steps::fail(e);
            },
        };
        let wire = match pairing_bytes(frame::PS_NEXT, tlv, 2) {
            Some(wire) => wire,
            None => {
                return steps::fail("could not build the pairing proof".to_string());
            },
        };
        let mut next = state.clone();
        next.phase = Some("proved".to_string());
        next.answers.pin = Some(pin);
        (
            SetupStep::Session {
                session: connection_of(state.session),
                open: None,
                send_bytes: wire,
                read_ms: 5000,
                close: false,
                note: "checking the code".to_string(),
            },
            Some(next),
        )
    }

    fn exchange(state: &SetupState, input: &SetupInput) -> (r: (SetupStep, Option<SetupState>))
        ensures
            steps::took(r, exchanging(state@, input@)),
    {
        let tlv = pairing_tlv(received_bytes(input).as_slice());
        match tlv8::error(tlv.as_slice()) {
            Some(why) => {
                return steps::fail(why);
            },
            None => {},
        }
        let device_proof = match tlv8::get(tlv.as_slice(), tlv8::PROOF) {
            Some(device_proof) => device_proof,
            None => {
                return steps::fail(
                    "the Apple TV sent no proof — the code may have been wrong".to_string(),
                );
            },
        };
        let (place, pin) = match (
            find_place(state, input),
            get(&state.answers.pin, &input.answers.pin),
        ) {
            (Some(place), Some(pin)) => (place, pin),
            _ => {
                return steps::fail("the pairing lost its place; start again".to_string());
            },
        };
        // Rebuilt from the state: the same arguments give the same exchange.
        let setup = match srp::setup_prove(
            pin.as_str(),
            place.salt.as_slice(),
            place.public.as_slice(),
            place.seed,
            bytes::copy(place.client_id.as_str().as_bytes()),
        ) {
            Ok((setup, _)) => setup,
            Err(e) => {
                return steps::fail(e);
            },
        };
        let message = match setup.setup_exchange(device_proof, "Juno") {
            Ok(message) => message,
            Err(e) => {
                return steps::fail(e);
            },
        };
        let wire = match pairing_bytes(frame::PS_NEXT, message, 3) {
            Some(wire) => wire,
            None => {
                return steps::fail("could not build the pairing exchange".to_string());
            },
        };
        let mut next = state.clone();
        next.phase = Some("exchanged".to_string());
        (
            SetupStep::Session {
                session: connection_of(state.session),
                open: None,
                send_bytes: wire,
                read_ms: 5000,
                close: true,
                note: "storing the pairing".to_string(),
            },
            Some(next),
        )
    }

    /// The device that a pairing makes.
    pub fn paired(address: String, port: u64, pairing: &srp::Pairing) -> (r: Candidate)
        ensures
            r@ == paired_candidate(address@, port, pairing@),
    {
        let ghost a = address@;
        let mut properties: Vec<(String, Property)> = Vec::new();
        properties.push(("Address".to_string(), Property::Text(address)));
        properties.push(("Port".to_string(), Property::Number(port)));
        properties.push(
            ("Device id".to_string(), Property::Text(hex::hex(pairing.device_id.as_slice()))),
        );
        properties.push(
            ("Device key".to_string(), Property::Text(hex::hex(pairing.device_ltpk.as_slice()))),
        );
        properties.push(
            ("Controller id".to_string(), Property::Text(hex::hex(pairing.client_id.as_slice()))),
        );
        properties.push(
            ("Controller key".to_string(), Property::Text(hex::hex(pairing.client_sk.as_slice()))),
        );
        let r = Candidate {
            label: "Apple TV".to_string(),
            kind: "Apple TV".to_string(),
            driver_id: "apple.tv".to_string(),
            properties,
            verified: "paired over Companion".to_string(),
        };
        assert(r@.properties =~= paired_candidate(a, port, pairing@).properties);
        r
    }

    fn conclude(state: &SetupState, input: &SetupInput) -> (r: (SetupStep, Option<SetupState>))
        ensures
            steps::took(r, concluding(state@, input@)),
    {
        let tlv = pairing_tlv(received_bytes(input).as_slice());
        match tlv8::error(tlv.as_slice()) {
            Some(why) => {
                return steps::fail(why);
            },
            None => {},
        }
        let encrypted = match tlv8::get(tlv.as_slice(), tlv8::ENCRYPTED_DATA) {
            Some(encrypted) => encrypted,
            None => {
                return steps::fail("the Apple TV did not send its identity back".to_string());
            },
        };
        let (place, pin) = match (
            find_place(state, input),
            get(&state.answers.pin, &input.answers.pin),
        ) {
            (Some(place), Some(pin)) => (place, pin),
            _ => {
                return steps::fail("the pairing lost its place; start again".to_string());
            },
        };
        let setup = match srp::setup_prove(
            pin.as_str(),
            place.salt.as_slice(),
            place.public.as_slice(),
            place.seed,
            bytes::copy(place.client_id.as_str().as_bytes()),
        ) {
            Ok((setup, _)) => setup,
            Err(e) => {
                return steps::fail(e);
            },
        };
        let pairing = match setup.setup_finish(encrypted) {
            Ok(pairing) => pairing,
            Err(e) => {
                return steps::fail(e);
            },
        };
        let address = match get(&state.answers.host, &input.answers.host) {
            Some(address) => address,
            None => {
                let none = String::new();
                assert(none@ =~= seq![]);
                none
            },
        };
        let port: u64 = state.port.unwrap_or(DEFAULT_PORT as u64);
        steps::finish(Self::paired(address, port, &pairing))
    }
}

// --------------------------------------------------------------------------------------------
// The whole
// --------------------------------------------------------------------------------------------

/// The phase that a state is in.
pub open spec fn phase_of(state: StateView) -> Seq<char> {
    state.phase.unwrap_or("start"@)
}

/// What a step comes to. The secret matters only where a code is asked for.
pub open spec fn flowing(state: StateView, input: InputView, seed: Seq<u8>) -> steps::Turn {
    let phase = phase_of(state);
    if phase == "start"@ {
        asking(state)
    } else if phase == "mode"@ {
        choosing(state, input)
    } else if phase == "asked"@ {
        let items = pairing_items(brought(input));
        match challenge(items) {
            None => steps::failing(no_challenge(items)),
            Some((salt, public)) => asking_for_code(state, input.session, salt, public, seed),
        }
    } else if phase == "pin"@ {
        proving(state, input)
    } else if phase == "proved"@ {
        exchanging(state, input)
    } else if phase == "exchanged"@ {
        concluding(state, input)
    } else {
        steps::failing("unknown setup phase `"@ + phase + "`"@)
    }
}

impl AppleTv {
    /// One step of setup. Where a code is asked for the driver makes up a secret, and that is
    /// chance; whatever it is, the step is what it makes.
    pub fn flow(&self, state: &SetupState, input: &SetupInput) -> (r: (
        SetupStep,
        Option<SetupState>,
    ))
        ensures
            exists|seed: Seq<u8>|
                seed.len() == 32 && #[trigger] steps::took(r, flowing(state@, input@, seed)),
    {
        let phase = match &state.phase {
            Some(phase) => phase.as_str(),
            None => "start",
        };
        if text::same(phase, "asked") {
            proof {
                reveal_strlit("asked");
                reveal_strlit("start");
                reveal_strlit("mode");
                assert("asked"@[0] == 'a' && "start"@[0] == 's' && "mode"@[0] == 'm');
            }
            let r = Self::asked(state, input);
            proof {
                let items = pairing_items(brought(input@));
                match challenge(items) {
                    None => {
                        let seed = bytes::zeros(32);
                        assert(steps::took(r, flowing(state@, input@, seed)));
                    },
                    Some((salt, public)) => {
                        let seed = choose|seed: Seq<u8>|
                            seed.len() == 32 && #[trigger] steps::took(
                                r,
                                asking_for_code(state@, input@.session, salt, public, seed),
                            );
                        assert(steps::took(r, flowing(state@, input@, seed)));
                    },
                }
            }
            return r;
        }
        let r = if text::same(phase, "start") {
            Self::ask_for_address(state)
        } else if text::same(phase, "mode") {
            Self::choose_mode(state, input)
        } else if text::same(phase, "pin") {
            Self::prove(state, input)
        } else if text::same(phase, "proved") {
            Self::exchange(state, input)
        } else if text::same(phase, "exchanged") {
            Self::conclude(state, input)
        } else {
            steps::fail(text::concat3("unknown setup phase `", phase, "`"))
        };
        assert(bytes::zeros(32).len() == 32);
        assert(steps::took(r, flowing(state@, input@, bytes::zeros(32))));
        r
    }

    /// Look for devices: the same steps as setup.
    pub fn discover(&self, state: &SetupState, input: &SetupInput) -> (r: (
        SetupStep,
        Option<SetupState>,
    ))
        ensures
            exists|seed: Seq<u8>|
                seed.len() == 32 && #[trigger] steps::took(r, flowing(state@, input@, seed)),
    {
        self.flow(state, input)
    }

    /// Set a device up.
    pub fn setup(&self, state: &SetupState, input: &SetupInput) -> (r: (
        SetupStep,
        Option<SetupState>,
    ))
        ensures
            exists|seed: Seq<u8>|
                seed.len() == 32 && #[trigger] steps::took(r, flowing(state@, input@, seed)),
    {
        self.flow(state, input)
    }
}

// --------------------------------------------------------------------------------------------
// Laws
// --------------------------------------------------------------------------------------------

/// What is kept when a code is asked for is what is found again at any later step, whatever is
/// brought to it.
pub proof fn law_place_is_found_again(
    state: StateView,
    session: Option<u64>,
    salt: Seq<u8>,
    public: Seq<u8>,
    seed: Seq<u8>,
    input: InputView,
)
    requires
        seed.len() == 32,
    ensures
        kept(asking_for_code(state, session, salt, public, seed).1->0, input) == Some(
            Kept { salt, public, seed, client_id: hex::uuid_text(seed) },
        ),
{
    hex::law_hex_round_trip(salt);
    hex::law_hex_round_trip(public);
    hex::law_hex_round_trip(seed);
}

/// The exchange that was proved is the one that goes on: whatever is brought later, the code and
/// what is kept are those of the step that proved it. So is it at the step after.
pub proof fn law_exchange_is_rebuilt(state: StateView, input: InputView, later: InputView)
    requires
        proving(state, input).1 is Some,
        state.answers.salt is Some,
        state.answers.device_pub is Some,
        state.answers.seed is Some,
        state.answers.client_id is Some,
    ensures
        ({
            let next = proving(state, input).1->0;
            let pin = answer(state.answers.pin, input.answers.pin).unwrap_or(seq![]);
            &&& phase_of(next) == "proved"@
            &&& kept(next, later) == kept(state, input)
            &&& answer(next.answers.pin, later.answers.pin) == Some(pin)
            &&& exchanging(next, later).1 is Some ==> {
                let last = exchanging(next, later).1->0;
                &&& phase_of(last) == "exchanged"@
                &&& last.answers == next.answers
                &&& forall|after: InputView| #[trigger] kept(last, after) == kept(state, input)
            }
        }),
{
}

/// The pairing that setup comes to is the pairing that a device with its properties has.
pub proof fn law_paired_device_is_paired(address: Seq<char>, port: u64, pairing: srp::PairingView)
    requires
        pairing.client_sk.len() == 32,
    ensures
        ({
            let p = paired_candidate(address, port, pairing).properties;
            device::pairing_in(
                host::PropertiesView {
                    device_id: Some(p[2].1->Text_0),
                    device_key: Some(p[3].1->Text_0),
                    controller_id: Some(p[4].1->Text_0),
                    controller_key: Some(p[5].1->Text_0),
                },
            ) == Some(pairing)
        }),
{
    hex::law_hex_round_trip(pairing.device_id);
    hex::law_hex_round_trip(pairing.device_ltpk);
    hex::law_hex_round_trip(pairing.client_id);
    hex::law_hex_round_trip(pairing.client_sk);
}

/// IR can always be picked, whatever answered, and picking it ends setup without an address.
pub proof fn law_ir_is_always_offered(state: StateView, input: InputView)
    ensures
        asking(state).0 is Pick,
        asking(state).0->rows.last() == ir_row(),
        state.answers.address == Some(IR_ROW@) ==> choosing(state, input) == steps::finishing(
            ir_candidate(),
        ),
{
}

/// What was offered for a device that answered leads to that device: the address of its row is
/// split into the host and port that it has, if its port is one.
pub proof fn law_row_leads_to_its_device(f: FoundView)
    requires
        f.address is Some,
    ensures
        ({
            let (name, port) = split(row_of(f).value);
            &&& name == f.address->0
            &&& f.port.unwrap_or(0) <= u16::MAX ==> port == f.port.unwrap_or(0)
        }),
{
    let address = f.address->0;
    let n = f.port.unwrap_or(0) as nat;
    let value = row_of(f).value;
    let digits = text::decimal(n);
    reveal_strlit(":");
    text::law_decimal_reads_back(n);
    let at = address.len() as int;
    assert(value[at] == ':');
    assert forall|j: int| at + 1 <= j < value.len() implies #[trigger] value[j] != ':' by {
        assert(value[j] == digits[j - at - 1]);
        assert(text::is_digit(digits[j - at - 1]));
    }
    lemma_last_colon(value, at + 1);
    assert(value.take(at + 1).last() == ':');
    assert(value.skip(at + 1) =~= digits);
    assert(value.take(at) =~= address);
}

} // verus!
