//! What holds of setting up, said by what somebody at the controller sees and what the device is
//! sent.

use super::Kept;
use crate::bytes;
use crate::crypto;
use crate::device;
use crate::frame;
use crate::hex;
use crate::host;
use crate::opack::model;
use crate::setup;
use crate::srp;
use crate::steps;
use crate::steps::{
    AnswersView, ConnectView, FoundView, InputView, PropertyView, RowView, StateView, StepView,
};
use crate::text;
use crate::tlv8;
use vstd::prelude::*;
use vstd::utf8::*;

verus! {

// --------------------------------------------------------------------------------------------
// Finding one
// --------------------------------------------------------------------------------------------

/// What is offered of something that answered.
pub open spec fn is_offered(f: FoundView) -> bool {
    f.service is Some && text::occurs("companion"@, f.service->0) && f.address is Some
}

/// The rows are those of what answered for the service that is wanted and has an address, every one
/// of them and in order.
pub proof fn law_rows_are_what_answered(found: Seq<FoundView>)
    ensures
        setup::found_rows(found) == found.filter(|f: FoundView| is_offered(f)).map_values(
            |f: FoundView| setup::row_of(f),
        ),
    decreases found.len(),
{
    reveal(Seq::filter);
    let offered = |f: FoundView| is_offered(f);
    let row = |f: FoundView| setup::row_of(f);
    if found.len() > 0 {
        law_rows_are_what_answered(found.drop_last());
        assert(setup::found_rows(found) =~= found.filter(offered).map_values(row));
    } else {
        assert(setup::found_rows(found) =~= found.filter(offered).map_values(row));
    }
}

/// A row says the address and port of the device, what somebody called it or else its own name, and
/// its hardware. What is not known is an Apple TV.
pub proof fn law_row_says(f: FoundView)
    requires
        f.address is Some,
    ensures
        ({
            let row = setup::row_of(f);
            &&& row.cells.len() == 3
            &&& row.cells[2] == f.address->0
            &&& f.txt_name is Some ==> row.cells[0] == f.txt_name->0
            &&& f.txt_name is None && f.name is Some ==> row.cells[0] == f.name->0
            &&& f.txt_name is None && f.name is None ==> row.cells[0] == "Apple TV"@
            &&& f.txt_model is Some ==> row.cells[1] == f.txt_model->0
            &&& f.txt_model is None ==> row.cells[1] == "Apple TV"@
            &&& f.port is Some ==> row.value == f.address->0 + ":"@ + text::decimal(
                f.port->0 as nat,
            )
            &&& f.port is None ==> row.value == f.address->0 + ":"@ + text::decimal(0)
            &&& row.note == "apps, and can open a title"@
        }),
{
}

/// The first step offers what answered, with how many they are; IR behind them; and an address to
/// type. What comes back is a choice, and nothing else is kept.
pub proof fn law_first_step(state: StateView)
    ensures
        ({
            let (step, next) = setup::asking(state);
            let found = if state.mdns_candidates is Some {
                setup::found_rows(state.mdns_candidates->0)
            } else {
                Seq::<RowView>::empty()
            };
            &&& step is Pick
            &&& step->rows.len() == found.len() + 1
            &&& step->rows.drop_last() == found
            &&& step->rows.last().value == "__ir__"@
            &&& step->rows.last().cells == seq!["Use IR instead"@, "IR emitter"@, "no network"@]
            &&& step->rows.last().note
                == "arrows, select, menu, play — no apps and no titles"@
            &&& found.len() == 0 ==> step->Pick_body
                == "Nothing answered on the network. It has to be awake and on the same network as the controller — one asleep on ethernet still answers, one on Wi-Fi usually does not, and plenty of networks block multicast entirely.\n\nEnter its address by hand (Settings → Network on the device), or set it up for IR, which needs no address."@
            &&& found.len() > 0 ==> step->Pick_body
                == "Pick one to control it over the network — that is the only way to launch an app or open a title. IR is there for a box the controller cannot reach."@
            &&& found.len() == 0 ==> step->Pick_title == "No Apple TV answered"@
            &&& found.len() == 1 ==> step->Pick_title == "Found "@ + text::decimal(1)
                + " Apple TV"@
            &&& found.len() > 1 ==> step->Pick_title == "Found "@ + text::decimal(found.len())
                + " Apple TV"@ + "s"@
            &&& step->columns == seq!["Name"@, "Model"@, "Address"@]
            &&& step->field == "address"@
            &&& step->manual is Some
            &&& step->manual->0.name == "address"@
            &&& step->manual->0.kind == "string"@
            &&& step->manual->0.label == "Address"@
            &&& step->manual->0.help
                == "for example 192.168.1.40 — on the Apple TV, Settings → Network"@
            &&& step->manual->0.required
            &&& next is Some
            &&& next->0.phase == Some("mode"@)
            &&& nothing_answered(next->0.answers)
            &&& next->0.port is None
            &&& next->0.session is None
            &&& next->0.mdns_candidates is None
        }),
{
    let found = setup::found_rows(state.mdns_candidates.unwrap_or(seq![]));
    assert(found.push(setup::ir_row()).drop_last() =~= found);
    if state.mdns_candidates is None {
        assert(found =~= Seq::<RowView>::empty());
    }
    assert("Found "@ + text::decimal(1) + " Apple TV"@ + Seq::<char>::empty() =~= "Found "@
        + text::decimal(1) + " Apple TV"@);
}

/// No answer is there.
pub open spec fn nothing_answered(a: AnswersView) -> bool {
    &&& a.address is None
    &&& a.pin is None
    &&& a.salt is None
    &&& a.device_pub is None
    &&& a.seed is None
    &&& a.client_id is None
    &&& a.host is None
}

// --------------------------------------------------------------------------------------------
// What was picked
// --------------------------------------------------------------------------------------------

/// An answer that the state holds counts, and else the one that was brought.
pub proof fn law_state_answers_first(state: Option<Seq<char>>, input: Option<Seq<char>>)
    ensures
        state is Some ==> setup::answer(state, input) == state,
        state is None ==> setup::answer(state, input) == input,
{
}

/// The last colon of a text is behind everything up to it and in front of no other.
proof fn lemma_last_colon_at(front: Seq<char>, back: Seq<char>)
    requires
        !back.contains(':'),
    ensures
        setup::last_colon(front + seq![':'] + back) == Some(front.len() as int),
    decreases back.len(),
{
    let s = front + seq![':'] + back;
    if back.len() > 0 {
        assert(back[back.len() - 1] != ':') by {
            assert(back.contains(back[back.len() - 1]));
        }
        assert(s.last() == back.last());
        assert(s.drop_last() =~= front + seq![':'] + back.drop_last());
        assert forall|i: int| 0 <= i < back.drop_last().len() implies back.drop_last()[i]
            != ':' by {
            assert(back.contains(back[i]));
        }
        lemma_last_colon_at(front, back.drop_last());
    } else {
        assert(s.last() == ':');
    }
}

proof fn lemma_no_colon(s: Seq<char>)
    requires
        !s.contains(':'),
    ensures
        setup::last_colon(s) is None,
    decreases s.len(),
{
    if s.len() > 0 {
        assert(s.contains(s[s.len() - 1]));
        assert forall|i: int| 0 <= i < s.drop_last().len() implies s.drop_last()[i] != ':' by {
            assert(s.contains(s[i]));
        }
        lemma_no_colon(s.drop_last());
    }
}

/// An address is a host where it has no colon, or where something other than a digit stands behind
/// the last. Else what stands in front of the last colon is the host, and what stands behind it the
/// port, where it is a number that a port can be. A port that is not known is 49152.
pub proof fn law_address_is_split(front: Seq<char>, back: Seq<char>)
    requires
        !back.contains(':'),
    ensures
        setup::split(back) == (back, 49152u16),
        ({
            let whole = front + seq![':'] + back;
            let digits = forall|i: int|
                0 <= i < back.len() ==> '0' <= #[trigger] back[i] && back[i] <= '9';
            let n = text::decimal_value(back);
            &&& digits && back.len() > 0 && n <= 65535 ==> setup::split(whole).0 == front
                && setup::split(whole).1 == n
            &&& digits && (back.len() == 0 || n > 65535) ==> setup::split(whole) == (
                front,
                49152u16,
            )
            &&& !digits ==> setup::split(whole) == (whole, 49152u16)
        }),
{
    lemma_no_colon(back);
    lemma_last_colon_at(front, back);
    let whole = front + seq![':'] + back;
    let at = front.len() as int;
    assert(whole.take(at) =~= front);
    assert(whole.skip(at + 1) =~= back);
    if forall|i: int| 0 <= i < back.len() ==> '0' <= #[trigger] back[i] && back[i] <= '9' {
        assert(setup::all_digits(back));
    } else {
        let i = choose|i: int| 0 <= i < back.len() && !('0' <= #[trigger] back[i] && back[i]
            <= '9');
        assert(!text::is_digit(back[i]));
        assert(!setup::all_digits(back));
    }
}

/// A pairing message travels in clear, in a frame of the type that it is given, with its flag
/// `_pwTy` at 1.
pub proof fn law_pairing_wire(kind: u8, tlv: Seq<u8>, xid: u64)
    ensures
        setup::pairing_wire(kind, tlv, xid) == frame::framed(
            kind,
            model::wire_of(device::pairing_node(tlv, "_pwTy"@, 1, xid)),
            None,
            0,
        ),
{
}

/// Without an address the first step comes again. The IR row ends setup with a device that needs no
/// network. Any other address is split, and the device there is asked, in a frame of type 3 and
/// under the transaction 1, to show a code; what is kept is where it is.
pub proof fn law_what_was_picked(state: StateView, input: InputView)
    ensures
        ({
            let address = if state.answers.address is Some {
                state.answers.address
            } else {
                input.answers.address
            };
            let turn = setup::choosing(state, input);
            let (name, port) = setup::split(address->0);
            let wire = setup::pairing_wire(3, srp::start_message(), 1);
            &&& address is None ==> turn == setup::asking(state)
            &&& address == Some("__ir__"@) ==> {
                &&& turn.0 is Done
                &&& turn.0->candidates.len() == 1
                &&& turn.0->candidates[0].driver_id == "apple.tv.ir"@
                &&& turn.0->candidates[0].label == "Apple TV (IR)"@
                &&& turn.0->candidates[0].kind == "Apple TV"@
                &&& turn.0->candidates[0].properties.len() == 0
                &&& turn.0->candidates[0].verified
                    == "IR only — bind an emitter to it, and see its README about the codes"@
                &&& turn.1 is None
            }
            &&& address is Some && address->0 != "__ir__"@ && wire is Some ==> {
                &&& turn.0 == (StepView::Session {
                    session: None,
                    open: Some(ConnectView { host: name, port, tls: false }),
                    send_bytes: wire->0,
                    read_ms: 5000,
                    close: false,
                    note: "asking the Apple TV to show a code"@,
                })
                &&& turn.1 is Some
                &&& turn.1->0.phase == Some("asked"@)
                &&& turn.1->0.port == Some(port as u64)
                &&& turn.1->0.answers.host == Some(name)
                &&& nothing_answered(AnswersView { host: None, ..turn.1->0.answers })
                &&& turn.1->0.session is None
                &&& turn.1->0.mdns_candidates is None
            }
            &&& address is Some && address->0 != "__ir__"@ && wire is None ==> turn == failed(
                "could not build the pairing request"@,
            )
        }),
{
}

/// Setup is over, with a reason and nothing to come back with.
pub open spec fn failed(reason: Seq<char>) -> steps::Turn {
    (StepView::Failed { reason }, None)
}

// --------------------------------------------------------------------------------------------
// What the device answered
// --------------------------------------------------------------------------------------------

/// What the host brought is bytes: of each number its low eight bits, in order, and nothing of
/// what is no number.
pub proof fn law_what_is_brought(input: InputView)
    ensures
        input.received_bytes is Some ==> setup::brought(input)
            == input.received_bytes->0.filter(|v: Option<u64>| v is Some).map_values(
            |v: Option<u64>| (v->0 % 256) as u8,
        ),
        input.received_bytes is None ==> setup::brought(input) == Seq::<u8>::empty(),
{
    if let Some(values) = input.received_bytes {
        host::law_low_bytes(values);
    }
}

/// The pairing message is that of the first whole frame which carries one under `_pd`, whatever its
/// type: a frame that carries none is passed over, and part of a frame carries nothing.
pub proof fn law_first_pairing_message(received: Seq<u8>)
    ensures
        !frame::complete(received) ==> setup::pairing_items(received) == Seq::<
            (u8, Seq<u8>),
        >::empty(),
        frame::complete(received) ==> {
            let n = bytes::be_nat(received.subrange(1, 4)) as int;
            let said = model::said_by(received.subrange(4, 4 + n));
            let data = device::data_under(said->Ok_0, "_pd"@);
            &&& said is Ok && data is Some ==> setup::pairing_items(received) == tlv8::decoded(
                data->0,
            )
            &&& said is Err || data is None ==> setup::pairing_items(received)
                == setup::pairing_items(received.skip(4 + n))
        },
{
    if frame::complete(received) {
        frame::law_reading_layout(received, None, 0);
        let n = bytes::be_nat(received.subrange(1, 4)) as int;
        assert(frame::left(received) == received.skip(4 + n));
        assert(frame::declared(received) == n) by {
            assert(frame::read(received, None, 0)->Ok_0.1 == received.subrange(4, 4 + n));
            assert(received.subrange(4, 4 + n).len() == n);
        }
    }
}

/// A challenge is a salt (2) and a public value (3).
pub proof fn law_challenge(items: Seq<(u8, Seq<u8>)>, salt: Seq<u8>, public: Seq<u8>)
    ensures
        setup::challenge(items) == Some((salt, public)) <==> tlv8::lookup(items, 2) == Some(salt)
            && tlv8::lookup(items, 3) == Some(public),
{
}

/// With a challenge the code is asked for. What is kept from then on, beside what was, is the salt,
/// the device's public value and our secret, in hexadecimal, the identifier that is made of the
/// secret, and the connection. Without one setup fails, with the device's refusal where there is
/// one.
pub proof fn law_code_is_asked_for(state: StateView, input: InputView, seed: Seq<u8>)
    requires
        state.phase == Some("asked"@),
    ensures
        ({
            let items = setup::pairing_items(setup::brought(input));
            let turn = setup::flowing(state, input, seed);
            let salt = tlv8::lookup(items, 2);
            let public = tlv8::lookup(items, 3);
            let next = turn.1->0;
            &&& salt is Some && public is Some ==> {
                &&& turn.0 is Form
                &&& turn.0->fields.len() == 1
                &&& turn.0->Form_title == "Enter the code on the television"@
                &&& turn.0->Form_body
                    == "The Apple TV is showing a four-digit code. If it is not, it went to sleep before the request arrived — go back and try again."@
                &&& turn.0->fields[0].name == "pin"@
                &&& turn.0->fields[0].label == "Code"@
                &&& turn.0->fields[0].kind == "string"@
                &&& turn.0->fields[0].help == "as shown on screen"@
                &&& turn.0->fields[0].required
                &&& turn.1 is Some
                &&& next.phase == Some("pin"@)
                &&& next.answers.salt is Some
                &&& hex::unhex_of(next.answers.salt->0) == Some(salt->0)
                &&& next.answers.device_pub is Some
                &&& hex::unhex_of(next.answers.device_pub->0) == Some(public->0)
                &&& next.answers.seed is Some
                &&& hex::unhex_of(next.answers.seed->0) == Some(seed)
                &&& next.answers.client_id == Some(hex::uuid_text(seed))
                &&& next.answers.address == state.answers.address
                &&& next.answers.pin == state.answers.pin
                &&& next.answers.host == state.answers.host
                &&& next.session == input.session
                &&& next.port == state.port
                &&& next.mdns_candidates == state.mdns_candidates
            }
            &&& (salt is None || public is None) && tlv8::refused(items) is Some ==> turn
                == failed(tlv8::refused(items)->0)
            &&& (salt is None || public is None) && tlv8::refused(items) is None ==> turn
                == failed(
                "the Apple TV did not answer as a Companion device. Check the address, and that it is awake."@,
            )
        }),
{
    lemma_phases();
    let items = setup::pairing_items(setup::brought(input));
    if let (Some(salt), Some(public)) = (tlv8::lookup(items, 2), tlv8::lookup(items, 3)) {
        hex::law_hex_round_trip(salt);
        hex::law_hex_round_trip(public);
        hex::law_hex_round_trip(seed);
    }
}

// --------------------------------------------------------------------------------------------
// The code
// --------------------------------------------------------------------------------------------

/// What is kept is there exactly where the salt, the device's public value and our secret are bytes
/// in hexadecimal, the last thirty-two of them, and our identifier is there: each as the state
/// holds it, or else as it was brought.
pub proof fn law_what_is_kept(state: StateView, input: InputView, k: Kept)
    ensures
        ({
            let a = state.answers;
            let b = input.answers;
            let salt = if a.salt is Some {
                a.salt
            } else {
                b.salt
            };
            let public = if a.device_pub is Some {
                a.device_pub
            } else {
                b.device_pub
            };
            let seed = if a.seed is Some {
                a.seed
            } else {
                b.seed
            };
            let id = if a.client_id is Some {
                a.client_id
            } else {
                b.client_id
            };
            setup::kept(state, input) == Some(k) <==> {
                &&& salt is Some && hex::unhex_of(salt->0) == Some(k.salt)
                &&& public is Some && hex::unhex_of(public->0) == Some(k.public)
                &&& seed is Some && hex::unhex_of(seed->0) == Some(k.seed) && k.seed.len() == 32
                &&& id == Some(k.client_id)
            }
        }),
{
}

/// A connection is numbered by the low thirty-two bits of what the host said.
pub proof fn law_connection_number(session: Option<u64>)
    ensures
        session is None ==> setup::connection(session) is None,
        session is Some ==> setup::connection(session) is Some && setup::connection(session)->0
            == session->0 % 0x1_0000_0000,
{
}

/// Every exchange of a setup is made of the code's digits, the salt and public value that are kept,
/// and our secret as the exponent.
pub proof fn law_exchange_of_a_code(pin: Seq<char>, k: Kept)
    ensures
        setup::exchange(pin, k) == srp::agree(
            pin.filter(|c: char| '0' <= c && c <= '9'),
            k.salt,
            bytes::be_nat(k.public),
            bytes::be_nat(k.seed),
        ),
{
    srp::law_digits_of_a_text(pin);
}

/// With a code and what is kept, our proof goes out in a frame of type 4 under the transaction 2,
/// and the connection stays open; the code is kept, and so is all else. Where something of it is
/// missing, or the code or the public value is refused, setup fails and says why.
pub proof fn law_code_is_proved(state: StateView, input: InputView, seed: Seq<u8>)
    requires
        state.phase == Some("pin"@),
    ensures
        ({
            let turn = setup::flowing(state, input, seed);
            let said = setup::answer(state.answers.pin, input.answers.pin);
            let pin = if said is Some {
                said->0
            } else {
                Seq::<char>::empty()
            };
            let k = setup::kept(state, input);
            let agreed = setup::exchange(pin, k->0);
            let refusal = srp::setup_refusal(pin, k->0.public);
            let wire = setup::pairing_wire(
                4,
                srp::prove_message(agreed.public, agreed.proven),
                2,
            );
            &&& k is None ==> turn == failed("the pairing lost its place; start again"@)
            &&& k is Some && refusal is Some ==> turn == failed(refusal->0)
            &&& k is Some && refusal is None && wire is None ==> turn == failed(
                "could not build the pairing proof"@,
            )
            &&& k is Some && refusal is None && wire is Some ==> {
                &&& turn.0 == (StepView::Session {
                    session: setup::connection(state.session),
                    open: None,
                    send_bytes: wire->0,
                    read_ms: 5000,
                    close: false,
                    note: "checking the code"@,
                })
                &&& turn.1 is Some
                &&& turn.1->0.phase == Some("proved"@)
                &&& turn.1->0.answers == (AnswersView { pin: Some(pin), ..state.answers })
                &&& turn.1->0.port == state.port
                &&& turn.1->0.session == state.session
                &&& turn.1->0.mdns_candidates == state.mdns_candidates
            }
        }),
{
    lemma_phases();
}

/// With the device's proof (4), our identity goes out in a frame of type 4 under the transaction 3,
/// and the connection is closed behind it; nothing else changes. A refusal, a missing proof, a code
/// or a place that was lost, and what the exchange refuses, end setup and are said, in this order.
pub proof fn law_identities_are_exchanged(state: StateView, input: InputView, seed: Seq<u8>)
    requires
        state.phase == Some("proved"@),
    ensures
        ({
            let turn = setup::flowing(state, input, seed);
            let items = setup::pairing_items(setup::brought(input));
            let why = tlv8::refused(items);
            let theirs = tlv8::lookup(items, 4);
            let k = setup::kept(state, input);
            let pin = setup::answer(state.answers.pin, input.answers.pin);
            let refusal = srp::setup_refusal(pin->0, k->0.public);
            let ours = srp::exchanged(
                setup::exchange(pin->0, k->0),
                k->0.seed,
                encode_utf8(k->0.client_id),
                theirs->0,
                "Juno"@,
            );
            let wire = setup::pairing_wire(4, ours->Ok_0, 3);
            let ready = why is None && theirs is Some;
            let placed = ready && k is Some && pin is Some;
            &&& why is Some ==> turn == failed(why->0)
            &&& why is None && theirs is None ==> turn == failed(
                "the Apple TV sent no proof — the code may have been wrong"@,
            )
            &&& ready && !placed ==> turn == failed("the pairing lost its place; start again"@)
            &&& placed && refusal is Some ==> turn == failed(refusal->0)
            &&& placed && refusal is None && ours is Err ==> turn == failed(ours->Err_0)
            &&& placed && refusal is None && ours is Ok && wire is None ==> turn == failed(
                "could not build the pairing exchange"@,
            )
            &&& placed && refusal is None && ours is Ok && wire is Some ==> {
                &&& turn.0 == (StepView::Session {
                    session: setup::connection(state.session),
                    open: None,
                    send_bytes: wire->0,
                    read_ms: 5000,
                    close: true,
                    note: "storing the pairing"@,
                })
                &&& turn.1 == Some(StateView { phase: Some("exchanged"@), ..state })
            }
        }),
{
    lemma_phases();
}

/// With the device's identity, sealed (5), that opens under the key of the exchange and the label
/// `PS-Msg06`, setup comes to one device, which holds the pairing. A refusal, a missing identity, a
/// code or a place that was lost, and what does not open or is missing in it, end setup and are
/// said.
pub proof fn law_pairing_is_concluded(state: StateView, input: InputView, seed: Seq<u8>)
    requires
        state.phase == Some("exchanged"@),
    ensures
        ({
            let turn = setup::flowing(state, input, seed);
            let items = setup::pairing_items(setup::brought(input));
            let why = tlv8::refused(items);
            let sealed = tlv8::lookup(items, 5);
            let k = setup::kept(state, input);
            let pin = setup::answer(state.answers.pin, input.answers.pin);
            let refusal = srp::setup_refusal(pin->0, k->0.public);
            let plain = srp::opened(
                crypto::hkdf_expanded(
                    encode_utf8("Pair-Setup-Encrypt-Salt"@),
                    encode_utf8("Pair-Setup-Encrypt-Info"@),
                    setup::exchange(pin->0, k->0).key,
                ),
                encode_utf8("PS-Msg06"@),
                sealed->0,
            );
            let made = srp::finished(plain->0, encode_utf8(k->0.client_id), k->0.seed);
            let ready = why is None && sealed is Some;
            let placed = ready && k is Some && pin is Some;
            let told = setup::answer(state.answers.host, input.answers.host);
            &&& why is Some ==> turn == failed(why->0)
            &&& why is None && sealed is None ==> turn == failed(
                "the Apple TV did not send its identity back"@,
            )
            &&& ready && !placed ==> turn == failed("the pairing lost its place; start again"@)
            &&& placed && refusal is Some ==> turn == failed(refusal->0)
            &&& placed && refusal is None && plain is None ==> turn == failed(
                "could not decrypt the Apple TV's reply — wrong key or wrong PIN"@,
            )
            &&& placed && refusal is None && plain is Some && made is Err ==> turn == failed(
                made->Err_0,
            )
            &&& placed && refusal is None && plain is Some && made is Ok ==> {
                &&& turn.0 is Done
                &&& turn.0->candidates.len() == 1
                &&& turn.0->candidates[0] == setup::paired_candidate(
                    if told is Some {
                        told->0
                    } else {
                        Seq::<char>::empty()
                    },
                    if state.port is Some {
                        state.port->0
                    } else {
                        49152
                    },
                    made->Ok_0,
                )
                &&& turn.1 is None
            }
        }),
{
    lemma_phases();
}

/// The device that a pairing makes has six properties: where it is, and the four parts of the
/// pairing in hexadecimal.
pub proof fn law_paired_device_says(address: Seq<char>, port: u64, pairing: srp::PairingView)
    ensures
        ({
            let made = setup::paired_candidate(address, port, pairing);
            let p = made.properties;
            &&& made.driver_id == "apple.tv"@
            &&& made.label == "Apple TV"@
            &&& made.kind == "Apple TV"@
            &&& made.verified == "paired over Companion"@
            &&& p.len() == 6
            &&& p[0] == ("Address"@, PropertyView::Text(address))
            &&& p[1] == ("Port"@, PropertyView::Number(port))
            &&& p[2].0 == "Device id"@ && p[2].1 is Text
            &&& hex::unhex_of(p[2].1->Text_0) == Some(pairing.device_id)
            &&& p[3].0 == "Device key"@ && p[3].1 is Text
            &&& hex::unhex_of(p[3].1->Text_0) == Some(pairing.device_ltpk)
            &&& p[4].0 == "Controller id"@ && p[4].1 is Text
            &&& hex::unhex_of(p[4].1->Text_0) == Some(pairing.client_id)
            &&& p[5].0 == "Controller key"@ && p[5].1 is Text
            &&& hex::unhex_of(p[5].1->Text_0) == Some(pairing.client_sk)
        }),
{
    hex::law_hex_round_trip(pairing.device_id);
    hex::law_hex_round_trip(pairing.device_ltpk);
    hex::law_hex_round_trip(pairing.client_id);
    hex::law_hex_round_trip(pairing.client_sk);
}

/// The names of the phases, told apart.
proof fn lemma_phases()
    ensures
        "start"@.len() == 5 && "start"@[0] == 's',
        "mode"@.len() == 4,
        "asked"@.len() == 5 && "asked"@[0] == 'a',
        "pin"@.len() == 3,
        "proved"@.len() == 6,
        "exchanged"@.len() == 9,
{
    reveal_strlit("start");
    reveal_strlit("mode");
    reveal_strlit("asked");
    reveal_strlit("pin");
    reveal_strlit("proved");
    reveal_strlit("exchanged");
}

/// Setup begins by asking for an address, and goes on to what was picked. A phase that is none
/// fails and is named.
pub proof fn law_phases(state: StateView, input: InputView, seed: Seq<u8>)
    ensures
        state.phase is None || state.phase == Some("start"@) ==> setup::flowing(
            state,
            input,
            seed,
        ) == setup::asking(state),
        state.phase == Some("mode"@) ==> setup::flowing(state, input, seed) == setup::choosing(
            state,
            input,
        ),
        state.phase matches Some(t) ==> (t != "start"@ && t != "mode"@ && t != "asked"@ && t
            != "pin"@ && t != "proved"@ && t != "exchanged"@ ==> setup::flowing(
            state,
            input,
            seed,
        ) == failed("unknown setup phase `"@ + t + "`"@)),
{
    lemma_phases();
}

} // verus!
