//! Driving a paired Apple TV: opening the session, sending commands, reading what comes back.
//!
//! The driver is entered afresh for each event and keeps what it knows in the instance's scratch.

pub mod conduct;
pub mod laws;

use crate::bytes;
use crate::crypto;
use crate::frame;
use crate::hex;
use crate::host;
use crate::host::{
    Args, ArgsView, CallView, HostCall, Instance, LocalId, Note, NoteView, PropertiesView,
    ScratchView,
};
use crate::links;
use crate::opack;
use crate::opack::model;
use crate::opack::model::Node;
use crate::opack::Val;
use crate::srp;
use crate::strmap;
use crate::strmap::StrMap;
use crate::text;
use crate::tlv8;
use vstd::prelude::*;

verus! {

/// The only proxy. An Apple TV is a source: it has no screen and no inputs of its own.
pub const MEDIA: LocalId = 1;

/// Button numbers.
pub const UP: u64 = 1;

pub const DOWN: u64 = 2;

pub const LEFT: u64 = 3;

pub const RIGHT: u64 = 4;

pub const MENU: u64 = 5;

pub const SELECT: u64 = 6;

pub const HOME: u64 = 7;

pub const VOLUME_UP: u64 = 8;

pub const VOLUME_DOWN: u64 = 9;

pub const PLAY_PAUSE: u64 = 14;

/// The driver.
#[derive(Default)]
pub struct AppleTv;

// --------------------------------------------------------------------------------------------
// Messages
// --------------------------------------------------------------------------------------------

/// The payload of a pairing frame: the TLV, the flag that the step needs, and a transaction.
pub open spec fn pairing_node(tlv: Seq<u8>, flag: Seq<char>, value: u64, xid: u64) -> Node {
    opack::dict_of(
        seq![("_pd"@, Node::Data(tlv)), (flag, Node::Int(value)), ("_x"@, Node::Int(xid))],
    )
}

/// The payload of a pairing frame: the TLV, the flag that the step needs, and a transaction.
pub fn pairing_frame(tlv: Vec<u8>, flag: (&str, u64), xid: u64) -> (r: Val)
    ensures
        r@ == pairing_node(tlv@, flag.0@, flag.1, xid),
{
    let ghost t = tlv@;
    let pairs = [("_pd", Val::Data(tlv)), (flag.0, Val::Int(flag.1)), ("_x", Val::Int(xid))];
    assert(opack::named(pairs@) =~= seq![
        ("_pd"@, Node::Data(t)),
        (flag.0@, Node::Int(flag.1)),
        ("_x"@, Node::Int(xid)),
    ]);
    opack::dict(pairs)
}

/// A request: its name, that it is one, its transaction, and what it is about.
pub open spec fn request_node(name: Seq<char>, xid: u64, content: Node) -> Node {
    opack::dict_of(
        seq![
            ("_i"@, Node::Str(name)),
            ("_t"@, Node::Int(2)),
            ("_x"@, Node::Int(xid)),
            ("_c"@, content),
        ],
    )
}

fn request_message(name: &str, xid: u64, content: Val) -> (r: Val)
    ensures
        r@ == request_node(name@, xid, content@),
{
    let ghost c = content@;
    let pairs = [
        ("_i", opack::s(name)),
        ("_t", Val::Int(2)),
        ("_x", Val::Int(xid)),
        ("_c", content),
    ];
    assert(opack::named(pairs@) =~= seq![
        ("_i"@, Node::Str(name@)),
        ("_t"@, Node::Int(2)),
        ("_x"@, Node::Int(xid)),
        ("_c"@, c),
    ]);
    opack::dict(pairs)
}

/// A button that goes down (1) or up (2).
pub open spec fn button_node(state: u64, code: u64) -> Node {
    opack::dict_of(seq![("_hBtS"@, Node::Int(state)), ("_hidC"@, Node::Int(code))])
}

fn button_message(state: u64, code: u64) -> (r: Val)
    ensures
        r@ == button_node(state, code),
{
    let pairs = [("_hBtS", Val::Int(state)), ("_hidC", Val::Int(code))];
    assert(opack::named(pairs@) =~= seq![
        ("_hBtS"@, Node::Int(state)),
        ("_hidC"@, Node::Int(code)),
    ]);
    opack::dict(pairs)
}

/// Who we are, which tvOS wants to know before it answers anything else.
pub open spec fn system_info_node(client_id: Seq<u8>) -> Node {
    opack::dict_of(
        seq![
            ("_bf"@, Node::Int(0)),
            ("_cf"@, Node::Int(512)),
            ("_clFl"@, Node::Int(128)),
            ("_i"@, Node::Str("juno"@)),
            ("_idsID"@, Node::Data(client_id)),
            ("_pubID"@, Node::Str("juno"@)),
            ("_sf"@, Node::Int(256)),
            ("_sv"@, Node::Str("170.18"@)),
            ("model"@, Node::Str("Juno"@)),
            ("name"@, Node::Str("Juno"@)),
        ],
    )
}

fn system_info(client_id: &[u8]) -> (r: Val)
    ensures
        r@ == system_info_node(client_id@),
{
    let pairs = [
        ("_bf", Val::Int(0)),
        ("_cf", Val::Int(512)),
        ("_clFl", Val::Int(128)),
        ("_i", opack::s("juno")),
        ("_idsID", Val::Data(bytes::copy(client_id))),
        ("_pubID", opack::s("juno")),
        ("_sf", Val::Int(256)),
        ("_sv", opack::s("170.18")),
        ("model", opack::s("Juno")),
        ("name", opack::s("Juno")),
    ];
    assert(opack::named(pairs@) =~= seq![
        ("_bf"@, Node::Int(0)),
        ("_cf"@, Node::Int(512)),
        ("_clFl"@, Node::Int(128)),
        ("_i"@, Node::Str("juno"@)),
        ("_idsID"@, Node::Data(client_id@)),
        ("_pubID"@, Node::Str("juno"@)),
        ("_sf"@, Node::Int(256)),
        ("_sv"@, Node::Str("170.18"@)),
        ("model"@, Node::Str("Juno"@)),
        ("name"@, Node::Str("Juno"@)),
    ]);
    opack::dict(pairs)
}

/// The session of the remote's service.
pub open spec fn session_start_node() -> Node {
    opack::dict_of(
        seq![("_srvT"@, Node::Str("com.apple.tvremoteservices"@)), ("_sid"@, Node::Int(1))],
    )
}

fn session_start() -> (r: Val)
    ensures
        r@ == session_start_node(),
{
    let pairs = [("_srvT", opack::s("com.apple.tvremoteservices")), ("_sid", Val::Int(1))];
    assert(opack::named(pairs@) =~= seq![
        ("_srvT"@, Node::Str("com.apple.tvremoteservices"@)),
        ("_sid"@, Node::Int(1)),
    ]);
    opack::dict(pairs)
}

/// One entry of text.
pub open spec fn single_node(key: Seq<char>, value: Seq<char>) -> Node {
    opack::dict_of(seq![(key, Node::Str(value))])
}

fn single(key: &str, value: &str) -> (r: Val)
    ensures
        r@ == single_node(key@, value@),
{
    let pairs = [(key, opack::s(value))];
    assert(opack::named(pairs@) =~= seq![(key@, Node::Str(value@))]);
    opack::dict(pairs)
}

fn empty() -> (r: Val)
    ensures
        r@ == opack::dict_of(seq![]),
{
    let pairs: [(&str, Val); 0] = [];
    assert(opack::named(pairs@) =~= seq![]);
    opack::dict(pairs)
}

// --------------------------------------------------------------------------------------------
// The session
// --------------------------------------------------------------------------------------------

/// The bytes that a property holds in hexadecimal.
pub open spec fn property_bytes(t: Option<Seq<char>>) -> Option<Seq<u8>> {
    match t {
        Some(t) => hex::unhex_of(t),
        None => None,
    }
}

/// The thirty-two bytes that a text holds in hexadecimal.
pub open spec fn key_bytes(t: Option<Seq<char>>) -> Option<Seq<u8>> {
    match t {
        Some(t) => hex::unhex_32(t),
        None => None,
    }
}

/// The pairing that a device was set up with, if its properties hold one.
pub open spec fn pairing_in(p: PropertiesView) -> Option<srp::PairingView> {
    match (
        property_bytes(p.device_id),
        property_bytes(p.device_key),
        property_bytes(p.controller_id),
        key_bytes(p.controller_key),
    ) {
        (Some(device_id), Some(device_ltpk), Some(client_id), Some(client_sk)) => Some(
            srp::PairingView { device_id, device_ltpk, client_id, client_sk },
        ),
        _ => None,
    }
}

fn unhex_property(t: &Option<String>) -> (r: Option<Vec<u8>>)
    ensures
        match r {
            Some(b) => property_bytes(host::maybe(*t)) == Some(b@),
            None => property_bytes(host::maybe(*t)) is None,
        },
{
    match t {
        Some(t) => hex::unhex(t.as_str()),
        None => None,
    }
}

fn unhex_key(t: &Option<String>) -> (r: Option<[u8; 32]>)
    ensures
        match r {
            Some(b) => key_bytes(host::maybe(*t)) == Some(b@),
            None => key_bytes(host::maybe(*t)) is None,
        },
{
    match t {
        Some(t) => hex::unhex32(t.as_str()),
        None => None,
    }
}

/// The keys and counters of a session, as a mathematical object.
pub struct SessionView {
    pub write: Seq<u8>,
    pub read: Seq<u8>,
    pub sent: u64,
    pub received: u64,
}

/// The session that a scratch holds, if it holds one.
pub open spec fn session_in(s: ScratchView) -> Option<SessionView> {
    match (key_bytes(s.write), key_bytes(s.read)) {
        (Some(write), Some(read)) => Some(
            SessionView {
                write,
                read,
                sent: s.sent.unwrap_or(0),
                received: s.received.unwrap_or(0),
            },
        ),
        _ => None,
    }
}

/// The next number; after the last one comes nought.
pub open spec fn after(n: u64) -> u64 {
    if n == u64::MAX {
        0
    } else {
        (n + 1) as u64
    }
}

fn next_number(n: u64) -> (r: u64)
    ensures
        r == after(n),
{
    if n == u64::MAX {
        0
    } else {
        n + 1
    }
}

/// A scratch with a new session.
pub open spec fn opened(s: ScratchView, write: Seq<u8>, read: Seq<u8>) -> ScratchView {
    ScratchView {
        write: Some(hex::hex_of(write)),
        read: Some(hex::hex_of(read)),
        sent: Some(0),
        received: Some(0),
        ..s
    }
}

/// A scratch after a frame went out.
pub open spec fn sent_one(s: ScratchView) -> ScratchView {
    ScratchView { sent: Some(after(s.sent.unwrap_or(0))), ..s }
}

/// A scratch after a frame came in.
pub open spec fn received_one(s: ScratchView) -> ScratchView {
    ScratchView { received: Some(after(s.received.unwrap_or(0))), ..s }
}

/// A scratch without its session: the keys, the counters, a verification, what is half-received,
/// and a key that was being held are forgotten.
pub open spec fn cleared(s: ScratchView) -> ScratchView {
    ScratchView {
        write: None,
        read: None,
        sent: None,
        received: None,
        verify_seed: None,
        buffer: None,
        held: None,
        ..s
    }
}

/// The session keys and counters.
pub struct Session {
    pub write: [u8; 32],
    pub read: [u8; 32],
    pub sent: u64,
    pub received: u64,
}

impl View for Session {
    type V = SessionView;

    open spec fn view(&self) -> SessionView {
        SessionView {
            write: self.write@,
            read: self.read@,
            sent: self.sent,
            received: self.received,
        }
    }
}

/// A session, part by part.
pub proof fn law_session_says(s: Session)
    ensures
        s@.write == s.write@,
        s@.read == s.read@,
        s@.sent == s.sent,
        s@.received == s.received,
{
}

impl Session {
    /// The session that an instance holds.
    pub fn load(inst: &Instance) -> (r: Option<Session>)
        ensures
            match r {
                Some(session) => session_in(inst.scratch@) == Some(session@),
                None => session_in(inst.scratch@) is None,
            },
    {
        match (unhex_key(&inst.scratch.write), unhex_key(&inst.scratch.read)) {
            (Some(write), Some(read)) => Some(
                Session {
                    write,
                    read,
                    sent: inst.scratch.sent.unwrap_or(0),
                    received: inst.scratch.received.unwrap_or(0),
                },
            ),
            _ => None,
        }
    }

    /// Start a session.
    pub fn store(inst: &mut Instance, write: [u8; 32], read: [u8; 32])
        ensures
            final(inst).scratch@ == opened(old(inst).scratch@, write@, read@),
            final(inst).properties@ == old(inst).properties@,
            final(inst).id == old(inst).id,
    {
        inst.scratch.write = Some(hex::hex(write.as_slice()));
        inst.scratch.read = Some(hex::hex(read.as_slice()));
        inst.scratch.sent = Some(0);
        inst.scratch.received = Some(0);
    }

    /// Count a frame that went out.
    pub fn advance_out(inst: &mut Instance)
        ensures
            final(inst).scratch@ == sent_one(old(inst).scratch@),
            old(inst).scratch.sent.unwrap_or(0) < u64::MAX ==> {
                &&& final(inst).scratch.sent is Some
                &&& final(inst).scratch.sent->0 == old(inst).scratch.sent.unwrap_or(0) + 1
            },
            final(inst).properties@ == old(inst).properties@,
            final(inst).id == old(inst).id,
    {
        inst.scratch.sent = Some(next_number(inst.scratch.sent.unwrap_or(0)));
    }

    /// Count a frame that came in.
    pub fn advance_in(inst: &mut Instance)
        ensures
            final(inst).scratch@ == received_one(old(inst).scratch@),
            old(inst).scratch.received.unwrap_or(0) < u64::MAX ==> {
                &&& final(inst).scratch.received is Some
                &&& final(inst).scratch.received->0 == old(inst).scratch.received.unwrap_or(0) + 1
            },
            final(inst).properties@ == old(inst).properties@,
            final(inst).id == old(inst).id,
    {
        inst.scratch.received = Some(next_number(inst.scratch.received.unwrap_or(0)));
    }

    /// Forget the session. A key that was being held is forgotten with it: its release can no
    /// longer be sent, and tvOS drops it with the session.
    pub fn clear(inst: &mut Instance)
        ensures
            final(inst).scratch@ == cleared(old(inst).scratch@),
            final(inst).properties@ == old(inst).properties@,
            final(inst).id == old(inst).id,
    {
        inst.scratch.write = None;
        inst.scratch.read = None;
        inst.scratch.sent = None;
        inst.scratch.received = None;
        inst.scratch.verify_seed = None;
        inst.scratch.buffer = None;
        inst.scratch.held = None;
    }
}

/// A session that was started is the session that is loaded, with both counters at nought.
pub proof fn law_stored_session_loads(s: ScratchView, write: Seq<u8>, read: Seq<u8>)
    requires
        write.len() == 32,
        read.len() == 32,
    ensures
        session_in(opened(s, write, read)) == Some(
            SessionView { write, read, sent: 0, received: 0 },
        ),
{
    hex::law_hex_round_trip(write);
    hex::law_hex_round_trip(read);
}

/// The two counters advance independently, and each counts one frame at a time.
pub proof fn law_counters_are_independent(s: ScratchView)
    requires
        session_in(s) is Some,
    ensures
        session_in(sent_one(s)) == Some(
            SessionView { sent: after(session_in(s)->0.sent), ..session_in(s)->0 },
        ),
        session_in(received_one(s)) == Some(
            SessionView { received: after(session_in(s)->0.received), ..session_in(s)->0 },
        ),
{
}

/// After a session is forgotten there is none, nothing is half-received and no key is held.
pub proof fn law_cleared_session_is_gone(s: ScratchView)
    ensures
        session_in(cleared(s)) is None,
        cleared(s).buffer is None,
        cleared(s).held is None,
        cleared(s).xid == s.xid,
        cleared(s).bundles == s.bundles,
{
}

// --------------------------------------------------------------------------------------------
// Sending
// --------------------------------------------------------------------------------------------

/// What becomes of a scratch, and what is asked of the host.
pub type Effect = (ScratchView, Seq<CallView>);

/// One thing after another.
pub open spec fn and_then(first: Effect, second: Effect) -> Effect {
    (second.0, first.1 + second.1)
}

/// A complaint of this driver.
pub open spec fn complaint(why: Seq<char>) -> CallView {
    host::warning("apple-tv: "@ + why)
}

/// Bytes for the device.
pub open spec fn transmit(data: Seq<u8>) -> CallView {
    CallView::Tx { control: 0, data }
}

/// The complaint that a frame's length cannot be declared.
pub open spec fn too_large() -> Seq<char> {
    "frame too large for a 24-bit length"@
}

fn complain(why: &str) -> (r: HostCall)
    ensures
        r@ == complaint(why@),
{
    HostCall::warn(text::concat("apple-tv: ", why))
}

/// Send a message inside the session. Without one it is dropped: by the time that there is one,
/// nobody wants it any more. A frame that goes out is counted, and only such a frame.
pub open spec fn sending(s: ScratchView, message: Node) -> Effect {
    match session_in(s) {
        None => (
            s,
            seq![
                host::warning(
                    "apple-tv: not connected yet — the session is still coming up"@,
                ),
            ],
        ),
        Some(session) => match frame::framed(
            frame::E_OPACK,
            model::wire_of(message),
            Some(session.write),
            session.sent,
        ) {
            Some(data) => (sent_one(s), seq![transmit(data)]),
            None => (s, seq![complaint(too_large())]),
        },
    }
}

/// A call that is no frame, or a frame that a reader with the session's key to write with, and
/// the counter at which it was sent, reads as `message`.
pub open spec fn readable(call: CallView, s: ScratchView, message: Node) -> bool {
    call matches CallView::Tx { control, data } ==> {
        &&& session_in(s) is Some
        &&& frame::complete(data)
        &&& frame::read(data, Some(session_in(s)->0.write), session_in(s)->0.sent) == Ok::<
            (u8, Seq<u8>),
            Seq<char>,
        >((frame::E_OPACK, model::wire_of(message)))
        &&& frame::left(data) == Seq::<u8>::empty()
    }
}

/// The transaction of the next request.
pub open spec fn next_xid(s: ScratchView) -> u64 {
    after(s.xid.unwrap_or(1))
}

/// Send a request under the next transaction.
pub open spec fn requesting(s: ScratchView, name: Seq<char>, content: Node) -> Effect {
    let xid = next_xid(s);
    sending(ScratchView { xid: Some(xid), ..s }, request_node(name, xid, content))
}

/// A button goes down.
pub open spec fn pressing(s: ScratchView, code: u64) -> Effect {
    requesting(s, "_hidC"@, button_node(1, code))
}

/// A button comes up.
pub open spec fn lifting(s: ScratchView, code: u64) -> Effect {
    requesting(s, "_hidC"@, button_node(2, code))
}

/// A tap: a button goes down and comes up.
pub open spec fn tapping(s: ScratchView, code: u64) -> Effect {
    and_then(pressing(s, code), lifting(pressing(s, code).0, code))
}

/// The code of a key that can be held.
pub open spec fn held_code(what: Seq<char>) -> Option<u64> {
    if what == "volume_up"@ {
        Some(VOLUME_UP)
    } else if what == "volume_down"@ {
        Some(VOLUME_DOWN)
    } else if what == "up"@ {
        Some(UP)
    } else if what == "down"@ {
        Some(DOWN)
    } else if what == "left"@ {
        Some(LEFT)
    } else if what == "right"@ {
        Some(RIGHT)
    } else {
        None
    }
}

/// The keys that can be held. tvOS has no scan keys: scrubbing is a hold of left or right.
pub fn holdable(what: &str) -> (r: Option<u64>)
    ensures
        r == held_code(what@),
{
    if text::same(what, "volume_up") {
        Some(VOLUME_UP)
    } else if text::same(what, "volume_down") {
        Some(VOLUME_DOWN)
    } else if text::same(what, "up") {
        Some(UP)
    } else if text::same(what, "down") {
        Some(DOWN)
    } else if text::same(what, "left") {
        Some(LEFT)
    } else if text::same(what, "right") {
        Some(RIGHT)
    } else {
        None
    }
}

/// The code of a key of the pad.
pub open spec fn pad_code(key: Seq<char>) -> Option<u64> {
    if key == "up"@ {
        Some(UP)
    } else if key == "down"@ {
        Some(DOWN)
    } else if key == "left"@ {
        Some(LEFT)
    } else if key == "right"@ {
        Some(RIGHT)
    } else if key == "select"@ {
        Some(SELECT)
    } else if key == "back"@ || key == "menu"@ {
        Some(MENU)
    } else if key == "home"@ {
        Some(HOME)
    } else {
        None
    }
}

/// The keys of the pad. tvOS has no separate back: menu is the way out of anything.
pub fn dpad_key(key: &str) -> (r: Option<u64>)
    ensures
        r == pad_code(key@),
{
    if text::same(key, "up") {
        Some(UP)
    } else if text::same(key, "down") {
        Some(DOWN)
    } else if text::same(key, "left") {
        Some(LEFT)
    } else if text::same(key, "right") {
        Some(RIGHT)
    } else if text::same(key, "select") {
        Some(SELECT)
    } else if text::same(key, "back") || text::same(key, "menu") {
        Some(MENU)
    } else if text::same(key, "home") {
        Some(HOME)
    } else {
        None
    }
}

/// An instance changed as an effect says, and otherwise as it was.
pub open spec fn did(
    before: Instance,
    now: Instance,
    out: Seq<HostCall>,
    effect: Effect,
) -> bool {
    &&& now.scratch@ == effect.0
    &&& host::calls(out) == effect.1
    &&& now.properties@ == before.properties@
    &&& now.id == before.id
}

impl AppleTv {
    /// The pairing that a device was set up with.
    pub fn pairing(inst: &Instance) -> (r: Option<srp::Pairing>)
        ensures
            match r {
                Some(p) => pairing_in(inst.properties@) == Some(p@),
                None => pairing_in(inst.properties@) is None,
            },
    {
        match (
            unhex_property(&inst.properties.device_id),
            unhex_property(&inst.properties.device_key),
            unhex_property(&inst.properties.controller_id),
            unhex_key(&inst.properties.controller_key),
        ) {
            (Some(device_id), Some(device_ltpk), Some(client_id), Some(client_sk)) => Some(
                srp::Pairing { device_id, device_ltpk, client_id, client_sk },
            ),
            _ => None,
        }
    }

    /// Send a message inside the session, if there is one. What goes out is read as the message
    /// by a reader with the same key and counter.
    pub fn send(inst: &mut Instance, message: Val) -> (r: Vec<HostCall>)
        ensures
            did(*old(inst), *final(inst), r@, sending(old(inst).scratch@, message@)),
            forall|i: int|
                0 <= i < host::calls(r@).len() ==> #[trigger] readable(
                    host::calls(r@)[i],
                    old(inst).scratch@,
                    message@,
                ),
    {
        let keys = match Session::load(inst) {
            Some(keys) => keys,
            None => {
                return host::only(
                    HostCall::warn(
                        "apple-tv: not connected yet — the session is still coming up".to_string(),
                    ),
                );
            },
        };
        let payload = opack::pack(&message);
        match frame::encode(frame::E_OPACK, payload.as_slice(), Some(&keys.write), keys.sent) {
            Ok(data) => {
                proof {
                    assert(data@ + Seq::<u8>::empty() =~= data@);
                }
                Session::advance_out(inst);
                host::only(HostCall::Tx { control: 0, data })
            },
            Err(e) => host::only(complain(e.as_str())),
        }
    }

    /// Send a request. The reply echoes its transaction.
    pub fn request(inst: &mut Instance, name: &str, content: Val) -> (r: Vec<HostCall>)
        ensures
            did(*old(inst), *final(inst), r@, requesting(old(inst).scratch@, name@, content@)),
    {
        let xid: u64 = next_number(inst.scratch.xid.unwrap_or(1));
        inst.scratch.xid = Some(xid);
        Self::send(inst, request_message(name, xid, content))
    }

    /// Press a button and let it go again. A press alone leaves the key down.
    pub fn button(inst: &mut Instance, code: u64) -> (r: Vec<HostCall>)
        ensures
            did(*old(inst), *final(inst), r@, tapping(old(inst).scratch@, code)),
    {
        let mut out = Self::press(inst, code);
        let more = Self::lift(inst, code);
        host::extend(&mut out, more);
        out
    }

    /// A button goes down.
    pub fn press(inst: &mut Instance, code: u64) -> (r: Vec<HostCall>)
        ensures
            did(*old(inst), *final(inst), r@, pressing(old(inst).scratch@, code)),
    {
        Self::request(inst, "_hidC", button_message(1, code))
    }

    /// A button comes up.
    pub fn lift(inst: &mut Instance, code: u64) -> (r: Vec<HostCall>)
        ensures
            did(*old(inst), *final(inst), r@, lifting(old(inst).scratch@, code)),
    {
        Self::request(inst, "_hidC", button_message(2, code))
    }

    /// The key that is being held. There is one at a time.
    pub fn held(inst: &Instance) -> (r: Option<u64>)
        ensures
            r == inst.scratch@.held,
    {
        inst.scratch.held
    }
}

// --------------------------------------------------------------------------------------------
// Commands
// --------------------------------------------------------------------------------------------

/// Whether a name that the device reported and the name of an app are the same as far as the
/// shorter goes, in lower case.
pub open spec fn alike(name: Seq<char>, app: Seq<char>) -> bool {
    text::begins(text::lowercase(app), text::lowercase(name)) || text::begins(
        text::lowercase(name),
        text::lowercase(app),
    )
}

/// The bundle id of the first app that is called alike.
pub open spec fn bundle_of(bundles: Seq<(Seq<char>, Seq<char>)>, app: Seq<char>) -> Option<
    Seq<char>,
>
    decreases bundles.len(),
{
    if bundles.len() == 0 {
        None
    } else if alike(bundles[0].0, app) {
        Some(bundles[0].1)
    } else {
        bundle_of(bundles.skip(1), app)
    }
}

/// What the device calls an app: the bundle id that it reported, else the one that is known for
/// its platform.
pub open spec fn installed(s: ScratchView, app: Seq<char>, launch_id: Option<Seq<char>>) -> Option<
    Seq<char>,
> {
    match s.bundles {
        Some(bundles) => match bundle_of(bundles, app) {
            Some(bundle) => Some(bundle),
            None => launch_id,
        },
        None => launch_id,
    }
}

fn bundle_for(bundles: &StrMap<String>, app: &str) -> (r: Option<String>)
    ensures
        host::maybe(r) == bundle_of(host::pairs(bundles.pairs()), app@),
{
    let ghost all = host::pairs(bundles.pairs());
    let app_lower = text::text_lowercase(app);
    let mut i: usize = 0;
    assert(all.skip(0) =~= all);
    while i < bundles.len()
        invariant
            i <= bundles.pairs().len(),
            all == host::pairs(bundles.pairs()),
            app_lower@ == text::lowercase(app@),
            bundle_of(all, app@) == bundle_of(all.skip(i as int), app@),
        decreases bundles.pairs().len() - i,
    {
        assert(all.skip(i as int)[0] == (
            bundles.pairs()[i as int].0,
            bundles.pairs()[i as int].1@,
        ));
        let name_lower = text::text_lowercase(bundles.key(i));
        if text::starts_with(name_lower.as_str(), app_lower.as_str()) || text::starts_with(
            app_lower.as_str(),
            name_lower.as_str(),
        ) {
            return Some(bundles.value(i).clone());
        }
        assert(all.skip(i as int).skip(1) =~= all.skip(i + 1));
        i += 1;
    }
    None
}

/// What a launch is asked with: a URL or a bundle id, and what is said about it.
pub open spec fn launch_node(launch: links::LaunchView) -> Node {
    match launch {
        links::LaunchView::DeepLink(url) => single_node("_urlS"@, url),
        links::LaunchView::AppOnly { target, why } => single_node("_bundleID"@, target),
    }
}

/// What is said about a launch.
pub open spec fn launch_note(launch: links::LaunchView) -> Seq<CallView> {
    match launch {
        links::LaunchView::DeepLink(_) => seq![],
        links::LaunchView::AppOnly { target, why } => match why {
            Some(why) => seq![CallView::Log { level: "info"@, msg: why }],
            None => seq![],
        },
    }
}

/// Launch an app, or a title in it: ask the device, tell which app it is now, and say so where
/// the title could not be honoured.
pub open spec fn launching(s: ScratchView, app: Seq<char>, args: ArgsView) -> Effect {
    let launch = links::resolved(
        app,
        installed(s, app, args.launch_id),
        args.content_id,
        args.content_kind,
    );
    let asked = requesting(s, "_launchApp"@, launch_node(launch));
    (
        asked.0,
        asked.1 + seq![
            CallView::Notify { proxy: MEDIA, note: "app_changed"@, args: NoteView::App(app) },
        ] + launch_note(launch),
    )
}

/// Hold a key: let go of another that is held, and press. The device repeats on its own.
pub open spec fn holding(s: ScratchView, code: u64) -> Effect {
    let freed = match s.held {
        Some(other) => if other != code {
            lifting(s, other)
        } else {
            (s, seq![])
        },
        None => (s, seq![]),
    };
    and_then(freed, pressing(ScratchView { held: Some(code), ..freed.0 }, code))
}

/// Let go of the key that is held. Where none is, there is nothing to say and nothing to send.
pub open spec fn releasing(s: ScratchView) -> Effect {
    match s.held {
        Some(code) => lifting(ScratchView { held: None, ..s }, code),
        None => (s, seq![]),
    }
}

/// What a command does.
pub open spec fn commanded(s: ScratchView, cmd: Seq<char>, args: ArgsView) -> Effect {
    if cmd == "launch_app"@ {
        match args.app {
            None => (s, seq![host::warning("apple-tv: launch_app needs an app"@)]),
            Some(app) => launching(s, app, args),
        }
    } else if cmd == "dpad"@ {
        match args.key {
            None => (s, seq![host::warning("apple-tv: dpad needs a key"@)]),
            Some(key) => match pad_code(key) {
                Some(code) => tapping(s, code),
                None => (
                    s,
                    seq![host::warning("apple-tv: tvOS has no `"@ + key + "` key"@)],
                ),
            },
        }
    } else if cmd == "play"@ || cmd == "pause"@ {
        tapping(s, PLAY_PAUSE)
    } else if cmd == "stop"@ {
        tapping(s, MENU)
    } else if cmd == "volume_up"@ {
        tapping(s, VOLUME_UP)
    } else if cmd == "volume_down"@ {
        tapping(s, VOLUME_DOWN)
    } else if cmd == "hold"@ {
        match args.what {
            None => (s, seq![host::warning("apple-tv: hold needs a key"@)]),
            Some(what) => match held_code(what) {
                Some(code) => holding(s, code),
                None => (
                    s,
                    seq![
                        host::warning(
                            "apple-tv: `"@ + what
                                + "` cannot be held; try up, down, left, right, volume_up or volume_down"@,
                        ),
                    ],
                ),
            },
        }
    } else if cmd == "release"@ {
        releasing(s)
    } else if cmd == "search"@ {
        tapping(s, HOME)
    } else {
        (s, seq![host::warning("apple-tv: unhandled `"@ + cmd + "`"@)])
    }
}

impl AppleTv {
    fn launch(inst: &mut Instance, app: &str, args: &Args) -> (r: Vec<HostCall>)
        ensures
            did(*old(inst), *final(inst), r@, launching(old(inst).scratch@, app@, args@)),
    {
        let reported = match &inst.scratch.bundles {
            Some(bundles) => bundle_for(bundles, app),
            None => None,
        };
        let known = match reported {
            Some(bundle) => Some(bundle),
            None => host::copied(&args.launch_id),
        };
        let launch = links::resolve(
            app,
            host::borrowed(&known),
            host::borrowed(&args.content_id),
            host::borrowed(&args.content_kind),
        );
        let ghost l = launch@;
        let ghost s = inst.scratch@;
        assert(l == links::resolved(
            app@,
            installed(s, app@, args@.launch_id),
            args@.content_id,
            args@.content_kind,
        ));
        let (content, note) = match launch {
            links::Launch::DeepLink(url) => (single("_urlS", url.as_str()), None),
            links::Launch::AppOnly { target, why } => (
                single("_bundleID", target.as_str()),
                why,
            ),
        };
        let mut out = Self::request(inst, "_launchApp", content);
        host::push(
            &mut out,
            HostCall::notify(MEDIA, "app_changed", Note::App(app.to_string())),
        );
        match note {
            Some(msg) => {
                host::push(&mut out, HostCall::Log { level: "info".to_string(), msg });
            },
            None => {},
        }
        assert(host::calls(out@) =~= launching(s, app@, args@).1);
        out
    }

    fn hold(inst: &mut Instance, code: u64) -> (r: Vec<HostCall>)
        ensures
            did(*old(inst), *final(inst), r@, holding(old(inst).scratch@, code)),
    {
        let mut out = match Self::held(inst) {
            Some(other) => if other != code {
                Self::lift(inst, other)
            } else {
                host::nothing()
            },
            None => host::nothing(),
        };
        inst.scratch.held = Some(code);
        let more = Self::press(inst, code);
        host::extend(&mut out, more);
        out
    }

    /// Do what somebody asked for.
    pub fn on_command(&self, inst: &mut Instance, _proxy: LocalId, cmd: &str, args: &Args) -> (r:
        Vec<HostCall>)
        ensures
            did(*old(inst), *final(inst), r@, commanded(old(inst).scratch@, cmd@, args@)),
    {
        if text::same(cmd, "launch_app") {
            match &args.app {
                None => host::only(
                    HostCall::warn("apple-tv: launch_app needs an app".to_string()),
                ),
                Some(app) => Self::launch(inst, app.as_str(), args),
            }
        } else if text::same(cmd, "dpad") {
            match &args.key {
                None => host::only(HostCall::warn("apple-tv: dpad needs a key".to_string())),
                Some(key) => match dpad_key(key.as_str()) {
                    Some(code) => Self::button(inst, code),
                    None => host::only(
                        HostCall::warn(
                            text::concat3("apple-tv: tvOS has no `", key.as_str(), "` key"),
                        ),
                    ),
                },
            }
        } else if text::same(cmd, "play") || text::same(cmd, "pause") {
            // One toggle and not two keys, which is all that tvOS has.
            Self::button(inst, PLAY_PAUSE)
        } else if text::same(cmd, "stop") {
            Self::button(inst, MENU)
        } else if text::same(cmd, "volume_up") {
            Self::button(inst, VOLUME_UP)
        } else if text::same(cmd, "volume_down") {
            Self::button(inst, VOLUME_DOWN)
        } else if text::same(cmd, "hold") {
            match &args.what {
                None => host::only(HostCall::warn("apple-tv: hold needs a key".to_string())),
                Some(what) => match holdable(what.as_str()) {
                    Some(code) => Self::hold(inst, code),
                    None => host::only(
                        HostCall::warn(
                            text::concat3(
                                "apple-tv: `",
                                what.as_str(),
                                "` cannot be held; try up, down, left, right, volume_up or volume_down",
                            ),
                        ),
                    ),
                },
            }
        } else if text::same(cmd, "release") {
            match Self::held(inst) {
                Some(code) => {
                    inst.scratch.held = None;
                    Self::lift(inst, code)
                },
                // A rule that brackets a hold sends this after a reconnect cleared the state.
                None => host::nothing(),
            }
        } else if text::same(cmd, "search") {
            Self::button(inst, HOME)
        } else {
            host::only(HostCall::warn(text::concat3("apple-tv: unhandled `", cmd, "`")))
        }
    }
}

// --------------------------------------------------------------------------------------------
// Connecting
// --------------------------------------------------------------------------------------------

/// Open a verification with a secret, on an instance that is paired.
pub open spec fn binding(s: ScratchView, seed: Seq<u8>) -> Effect {
    let fresh = ScratchView { verify_seed: Some(hex::hex_of(seed)), ..cleared(s) };
    match frame::framed(
        frame::PV_START,
        model::wire_of(pairing_node(srp::offer(crypto::x25519_public(seed)), "_auTy"@, 4, 1)),
        None,
        0,
    ) {
        Some(data) => (fresh, seq![transmit(data)]),
        None => (fresh, seq![complaint(too_large())]),
    }
}

/// What binding comes to on an instance that is not paired.
pub open spec fn binding_unpaired(s: ScratchView) -> Effect {
    (
        cleared(s),
        seq![
            host::warning("apple-tv: this device has not been paired — run its setup again"@),
        ],
    )
}

impl AppleTv {
    /// Open a verification with a secret, on an instance that is paired.
    pub fn bind_with(inst: &mut Instance, seed: [u8; 32]) -> (r: Vec<HostCall>)
        ensures
            did(*old(inst), *final(inst), r@, binding(old(inst).scratch@, seed@)),
    {
        Session::clear(inst);
        inst.scratch.verify_seed = Some(hex::hex(seed.as_slice()));
        let (_, tlv) = srp::verify_start(seed);
        let payload = opack::pack(&pairing_frame(tlv, ("_auTy", 4), 1));
        match frame::encode(frame::PV_START, payload.as_slice(), None, 0) {
            Ok(data) => host::only(HostCall::Tx { control: 0, data }),
            Err(e) => host::only(complain(e.as_str())),
        }
    }

    /// Open the session by running Pair Verify. Nothing else can be sent until it is done. The
    /// secret is chance; whatever it is, what follows is what it makes.
    pub fn on_bind(&self, inst: &mut Instance) -> (r: Vec<HostCall>)
        ensures
            match pairing_in(old(inst).properties@) {
                None => did(*old(inst), *final(inst), r@, binding_unpaired(old(inst).scratch@)),
                Some(_) => exists|seed: Seq<u8>|
                    seed.len() == 32 && #[trigger] did(
                        *old(inst),
                        *final(inst),
                        r@,
                        binding(old(inst).scratch@, seed),
                    ),
            },
    {
        if Self::pairing(inst).is_none() {
            Session::clear(inst);
            return host::only(
                HostCall::warn(
                    "apple-tv: this device has not been paired — run its setup again".to_string(),
                ),
            );
        }
        let seed = crypto::random32();
        let out = Self::bind_with(inst, seed);
        assert(seed@.len() == 32);
        out
    }
}

// --------------------------------------------------------------------------------------------
// What comes back
// --------------------------------------------------------------------------------------------

/// What the remote does on connecting, in this order, once the session is open; the device is
/// told last that it is there.
pub open spec fn greeting(s: ScratchView, client_id: Seq<u8>) -> Effect {
    let one = requesting(s, "_systemInfo"@, system_info_node(client_id));
    let two = and_then(one, requesting(one.0, "_sessionStart"@, session_start_node()));
    let three = and_then(
        two,
        requesting(two.0, "FetchLaunchableApplicationsEvent"@, opack::dict_of(seq![])),
    );
    (
        three.0,
        three.1.push(
            CallView::Notify {
                proxy: MEDIA,
                note: "online_changed"@,
                args: NoteView::Online(true),
            },
        ),
    )
}

/// What the outcome of a verification comes to. The keys apply from the next frame, so our answer
/// goes out in clear.
pub open spec fn settling(
    s: ScratchView,
    client_id: Seq<u8>,
    outcome: Result<(Seq<u8>, Seq<u8>, Seq<u8>), Seq<char>>,
) -> Effect {
    match outcome {
        Err(why) => (cleared(s), seq![complaint(why)]),
        Ok((tlv, write, read)) => match frame::framed(
            frame::PV_NEXT,
            model::wire_of(pairing_node(tlv, "_auTy"@, 4, 2)),
            None,
            0,
        ) {
            None => (s, seq![]),
            Some(data) => {
                let greeted = greeting(opened(s, write, read), client_id);
                (greeted.0, seq![transmit(data)] + greeted.1)
            },
        },
    }
}

/// The bytes under `key` of a dictionary.
pub open spec fn data_under(message: Node, key: Seq<char>) -> Option<Seq<u8>> {
    if message is Dict {
        match strmap::lookup(message->Dict_0, key) {
            Some(Node::Data(d)) => Some(d),
            _ => None,
        }
    } else {
        None
    }
}

/// The text under `key` of a dictionary.
pub open spec fn text_under(message: Node, key: Seq<char>) -> Option<Seq<char>> {
    if message is Dict {
        match strmap::lookup(message->Dict_0, key) {
            Some(Node::Str(t)) => Some(t),
            _ => None,
        }
    } else {
        None
    }
}

/// The entries of the dictionary under `key` of a dictionary.
pub open spec fn entries_under(message: Node, key: Seq<char>) -> Option<Seq<(Seq<char>, Node)>> {
    if message is Dict {
        match strmap::lookup(message->Dict_0, key) {
            Some(Node::Dict(d)) => Some(d),
            _ => None,
        }
    } else {
        None
    }
}

/// The bytes under `key` of a dictionary.
pub fn data_of<'a>(message: &'a Val, key: &str) -> (r: Option<&'a [u8]>)
    ensures
        match r {
            Some(d) => data_under(message@, key@) == Some(d@),
            None => data_under(message@, key@) is None,
        },
{
    match message.get(key) {
        Some(v) => v.as_data(),
        None => None,
    }
}

/// The text under `key` of a dictionary.
pub fn text_of<'a>(message: &'a Val, key: &str) -> (r: Option<&'a str>)
    ensures
        match r {
            Some(t) => text_under(message@, key@) == Some(t@),
            None => text_under(message@, key@) is None,
        },
{
    match message.get(key) {
        Some(v) => v.as_str(),
        None => None,
    }
}

/// What the reply to a verification comes to. Only the reply with a public key and sealed data
/// asks for an answer.
pub open spec fn verify_replied(p: PropertiesView, s: ScratchView, message: Node) -> Effect {
    match data_under(message, "_pd"@) {
        None => (s, seq![]),
        Some(pd) => {
            let items = tlv8::decoded(pd);
            match tlv8::refused(items) {
                Some(why) => (cleared(s), seq![complaint(why)]),
                None => match (
                    tlv8::lookup(items, tlv8::PUBLIC_KEY),
                    tlv8::lookup(items, tlv8::ENCRYPTED_DATA),
                    pairing_in(p),
                    key_bytes(s.verify_seed),
                ) {
                    (Some(theirs), Some(encrypted), Some(pairing), Some(seed)) => settling(
                        s,
                        pairing.client_id,
                        srp::verified(
                            seed,
                            crypto::x25519_public(seed),
                            pairing,
                            theirs,
                            encrypted,
                        ),
                    ),
                    _ => (s, seq![]),
                },
            }
        },
    }
}

/// The names in the device's list of apps, which goes from bundle id to name.
pub open spec fn app_names(list: Seq<(Seq<char>, Node)>) -> Seq<Seq<char>>
    decreases list.len(),
{
    if list.len() == 0 {
        seq![]
    } else {
        match list.last().1 {
            Node::Str(name) => app_names(list.drop_last()).push(name),
            _ => app_names(list.drop_last()),
        }
    }
}

/// The list the other way round: from name to bundle id. Of two apps with one name the later
/// stands.
pub open spec fn app_bundles(list: Seq<(Seq<char>, Node)>) -> Seq<(Seq<char>, Seq<char>)>
    decreases list.len(),
{
    if list.len() == 0 {
        seq![]
    } else {
        match list.last().1 {
            Node::Str(name) => strmap::put(app_bundles(list.drop_last()), name, list.last().0),
            _ => app_bundles(list.drop_last()),
        }
    }
}

/// What any other reply comes to: a failure is said, and a list of apps is kept and told.
pub open spec fn replied(s: ScratchView, message: Node) -> Effect {
    match text_under(message, "_em"@) {
        Some(why) => (s, seq![complaint(why)]),
        None => match entries_under(message, "_c"@) {
            Some(list) => if app_names(list).len() > 0 {
                (
                    ScratchView { bundles: Some(app_bundles(list)), ..s },
                    seq![
                        CallView::Notify {
                            proxy: MEDIA,
                            note: "apps_changed"@,
                            args: NoteView::Apps(text::sorted(app_names(list))),
                        },
                    ],
                )
            } else {
                (s, seq![])
            },
            None => (s, seq![]),
        },
    }
}

/// What a frame comes to. One that is not OPACK, or of another kind, is passed over.
pub open spec fn arrived(p: PropertiesView, s: ScratchView, kind: u8, payload: Seq<u8>) -> Effect {
    match model::said_by(payload) {
        Err(_) => (s, seq![]),
        Ok(message) => if kind == frame::PV_START || kind == frame::PV_NEXT {
            verify_replied(p, s, message)
        } else if kind == frame::E_OPACK {
            replied(s, message)
        } else {
            (s, seq![])
        },
    }
}

/// Putting an entry of text in and taking the views come to the same in either order.
proof fn lemma_put_text(s: Seq<(Seq<char>, String)>, key: Seq<char>, value: String)
    ensures
        host::pairs(strmap::put(s, key, value)) == strmap::put(host::pairs(s), key, value@),
{
    let make = |t: String| t@;
    strmap::lemma_put_mapped(s, key, value, make);
    assert(host::pairs(s) =~= strmap::mapped(s, make));
    assert(host::pairs(strmap::put(s, key, value)) =~= strmap::mapped(
        strmap::put(s, key, value),
        make,
    ));
}

impl AppleTv {
    fn greet(inst: &mut Instance, client_id: &[u8]) -> (r: Vec<HostCall>)
        ensures
            did(*old(inst), *final(inst), r@, greeting(old(inst).scratch@, client_id@)),
    {
        let mut out = Self::request(inst, "_systemInfo", system_info(client_id));
        let more = Self::request(inst, "_sessionStart", session_start());
        host::extend(&mut out, more);
        let more = Self::request(inst, "FetchLaunchableApplicationsEvent", empty());
        host::extend(&mut out, more);
        host::push(&mut out, HostCall::notify(MEDIA, "online_changed", Note::Online(true)));
        out
    }

    /// Act on the outcome of a verification: answer and open up, or forget the session.
    pub fn settle(
        inst: &mut Instance,
        client_id: &[u8],
        outcome: Result<(Vec<u8>, [u8; 32], [u8; 32]), String>,
    ) -> (r: Vec<HostCall>)
        ensures
            did(
                *old(inst),
                *final(inst),
                r@,
                settling(
                    old(inst).scratch@,
                    client_id@,
                    match outcome {
                        Ok((tlv, write, read)) => Ok((tlv@, write@, read@)),
                        Err(why) => Err(why@),
                    },
                ),
            ),
    {
        let (tlv, write, read) = match outcome {
            Ok(found) => found,
            Err(e) => {
                Session::clear(inst);
                return host::only(complain(e.as_str()));
            },
        };
        let payload = opack::pack(&pairing_frame(tlv, ("_auTy", 4), 2));
        let data = match frame::encode(frame::PV_NEXT, payload.as_slice(), None, 0) {
            Ok(data) => data,
            Err(_) => {
                return host::nothing();
            },
        };
        Session::store(inst, write, read);
        let mut out = host::only(HostCall::Tx { control: 0, data });
        let more = Self::greet(inst, client_id);
        host::extend(&mut out, more);
        out
    }

    fn on_verify_reply(inst: &mut Instance, message: &Val) -> (r: Vec<HostCall>)
        ensures
            did(
                *old(inst),
                *final(inst),
                r@,
                verify_replied(old(inst).properties@, old(inst).scratch@, message@),
            ),
    {
        let pd = match data_of(message, "_pd") {
            Some(pd) => pd,
            None => {
                return host::nothing();
            },
        };
        let tlv = tlv8::decode(pd);
        match tlv8::error(tlv.as_slice()) {
            Some(why) => {
                Session::clear(inst);
                return host::only(complain(why.as_str()));
            },
            None => {},
        }
        let (theirs, encrypted) = match (
            tlv8::get(tlv.as_slice(), tlv8::PUBLIC_KEY),
            tlv8::get(tlv.as_slice(), tlv8::ENCRYPTED_DATA),
        ) {
            (Some(theirs), Some(encrypted)) => (theirs, encrypted),
            _ => {
                return host::nothing();
            },
        };
        let pairing = match Self::pairing(inst) {
            Some(pairing) => pairing,
            None => {
                return host::nothing();
            },
        };
        let seed = match unhex_key(&inst.scratch.verify_seed) {
            Some(seed) => seed,
            None => {
                return host::nothing();
            },
        };
        let (verify, _) = srp::verify_start(seed);
        let outcome = verify.verify_prove(&pairing, theirs, encrypted);
        Self::settle(inst, pairing.client_id.as_slice(), outcome)
    }

    fn on_reply(inst: &mut Instance, message: &Val) -> (r: Vec<HostCall>)
        ensures
            did(*old(inst), *final(inst), r@, replied(old(inst).scratch@, message@)),
    {
        match text_of(message, "_em") {
            Some(why) => {
                return host::only(complain(why));
            },
            None => {},
        }
        let list = match message.get("_c") {
            Some(Val::Dict(list)) => list,
            _ => {
                return host::nothing();
            },
        };
        let ghost all = opack::entries(list.pairs());
        proof {
            opack::lemma_dict_view(Val::Dict(*list));
        }
        let mut names: Vec<String> = Vec::new();
        let mut bundles: StrMap<String> = StrMap::new();
        let mut i: usize = 0;
        assert(all.take(0) =~= seq![]);
        assert(host::texts(names@) =~= app_names(all.take(0)));
        assert(host::pairs(bundles.pairs()) =~= app_bundles(all.take(0)));
        while i < list.len()
            invariant
                i <= list.pairs().len(),
                all == opack::entries(list.pairs()),
                host::texts(names@) == app_names(all.take(i as int)),
                host::pairs(bundles.pairs()) == app_bundles(all.take(i as int)),
            decreases list.pairs().len() - i,
        {
            let ghost before = names@;
            assert(all.take(i + 1).drop_last() =~= all.take(i as int));
            assert(all.take(i + 1).last() == (
                list.pairs()[i as int].0,
                list.pairs()[i as int].1@,
            ));
            match list.value(i).as_str() {
                Some(name) => {
                    let bundle = list.key(i).to_string();
                    proof {
                        lemma_put_text(bundles.pairs(), name@, bundle);
                    }
                    names.push(name.to_string());
                    bundles.insert(name.to_string(), bundle);
                    assert(host::texts(names@) =~= host::texts(before).push(name@));
                },
                None => {},
            }
            i += 1;
        }
        assert(all.take(all.len() as int) =~= all);
        assert(host::texts(names@).len() == names@.len());
        if names.len() == 0 {
            return host::nothing();
        }
        let sorted = text::sort(names);
        inst.scratch.bundles = Some(bundles);
        host::only(HostCall::notify(MEDIA, "apps_changed", Note::Apps(sorted)))
    }

    /// One decoded frame.
    pub fn on_frame(&self, inst: &mut Instance, kind: u8, payload: &[u8]) -> (r: Vec<HostCall>)
        ensures
            did(
                *old(inst),
                *final(inst),
                r@,
                arrived(old(inst).properties@, old(inst).scratch@, kind, payload@),
            ),
    {
        let message = match opack::unpack(payload) {
            Ok(message) => message,
            Err(_) => {
                return host::nothing();
            },
        };
        if kind == frame::PV_START || kind == frame::PV_NEXT {
            Self::on_verify_reply(inst, &message)
        } else if kind == frame::E_OPACK {
            Self::on_reply(inst, &message)
        } else {
            host::nothing()
        }
    }
}

// --------------------------------------------------------------------------------------------
// Bytes that arrive
// --------------------------------------------------------------------------------------------

/// What the frames in `buffer` come to, and what is left of it. The key and the counter are those
/// of the session at each frame: a frame may be the one that opens it. A frame that does not open
/// ends the session, since every frame after it is out of step too.
pub open spec fn consumed(p: PropertiesView, s: ScratchView, buffer: Seq<u8>) -> (
    Effect,
    Seq<u8>,
)
    decreases buffer.len(),
{
    if !frame::complete(buffer) {
        ((s, seq![]), buffer)
    } else {
        let session = session_in(s);
        let key = match session {
            Some(session) => Some(session.read),
            None => None,
        };
        let counter = match session {
            Some(session) => session.received,
            None => 0,
        };
        match frame::read(buffer, key, counter) {
            Err(why) => ((cleared(s), seq![complaint(why)]), frame::left(buffer)),
            Ok((kind, payload)) => {
                let counted = if session is Some && payload.len() > 0 {
                    received_one(s)
                } else {
                    s
                };
                let now = arrived(p, counted, kind, payload);
                let (later, rest) = consumed(p, now.0, frame::left(buffer));
                (and_then(now, later), rest)
            },
        }
    }
}

/// The bytes that are held over from the last read.
pub open spec fn held_over(s: ScratchView) -> Seq<u8> {
    match property_bytes(s.buffer) {
        Some(b) => b,
        None => seq![],
    }
}

/// What bytes that arrive come to: every whole frame is acted on, and what is half-received is
/// kept for the next read.
pub open spec fn reading(p: PropertiesView, s: ScratchView, chunk: Seq<u8>) -> Effect {
    let (effect, rest) = consumed(p, s, held_over(s) + chunk);
    (ScratchView { buffer: Some(hex::hex_of(rest)), ..effect.0 }, effect.1)
}

/// What an event comes to.
pub open spec fn happened(
    p: PropertiesView,
    s: ScratchView,
    note: Seq<char>,
    args: ArgsView,
) -> Effect {
    if note != "rx"@ || args.bytes is None {
        (s, seq![])
    } else {
        reading(p, s, host::low_bytes(args.bytes->0))
    }
}

impl AppleTv {
    /// Something happened to the connection. Bytes come as they arrived and not by the message.
    pub fn on_event(&self, inst: &mut Instance, _control: LocalId, note: &str, args: &Args) -> (r:
        Vec<HostCall>)
        ensures
            did(
                *old(inst),
                *final(inst),
                r@,
                happened(old(inst).properties@, old(inst).scratch@, note@, args@),
            ),
    {
        if !text::same(note, "rx") {
            return host::nothing();
        }
        let chunk = match &args.bytes {
            Some(values) => host::bytes_of(values.as_slice()),
            None => {
                return host::nothing();
            },
        };
        let mut framer = frame::Framer::default();
        match unhex_property(&inst.scratch.buffer) {
            Some(held) => {
                framer.feed(held.as_slice());
                assert(framer@ =~= held@);
            },
            None => {},
        }
        framer.feed(chunk.as_slice());
        let ghost p = inst.properties@;
        let ghost at_first = inst.scratch@;
        let ghost goal = consumed(p, at_first, framer@);
        let mut out = host::nothing();
        let mut going = true;
        assert(host::calls(out@) + goal.0.1 =~= goal.0.1);
        while going
            invariant
                p == old(inst).properties@,
                inst.properties@ == p,
                inst.id == old(inst).id,
                going ==> {
                    let (later, rest) = consumed(p, inst.scratch@, framer@);
                    goal == ((later.0, host::calls(out@) + later.1), rest)
                },
                !going ==> goal == ((inst.scratch@, host::calls(out@)), framer@),
            decreases framer@.len(), (if going { 1int } else { 0int }),
        {
            let ghost s = inst.scratch@;
            let ghost buffer = framer@;
            let ghost said = host::calls(out@);
            let ghost (later, rest) = consumed(p, s, buffer);
            let session = Session::load(inst);
            let counter: u64 = match &session {
                Some(session) => session.received,
                None => 0,
            };
            let key = match &session {
                Some(session) => Some(&session.read),
                None => None,
            };
            match framer.next(key, counter) {
                None => {
                    going = false;
                    assert(said + Seq::<CallView>::empty() =~= said);
                },
                Some(Ok((kind, payload))) => {
                    if session.is_some() && payload.len() > 0 {
                        Session::advance_in(inst);
                    }
                    let ghost now = arrived(p, inst.scratch@, kind, payload@);
                    let more = self.on_frame(inst, kind, payload.as_slice());
                    host::extend(&mut out, more);
                    proof {
                        let (then, _) = consumed(p, inst.scratch@, framer@);
                        assert(later == and_then(now, then));
                        assert(said + (now.1 + then.1) =~= (said + now.1) + then.1);
                    }
                },
                Some(Err(e)) => {
                    Session::clear(inst);
                    host::push(&mut out, complain(e.as_str()));
                    going = false;
                    assert(said + seq![complaint(e@)] =~= said.push(complaint(e@)));
                },
            }
        }
        let leftover = framer.take();
        inst.scratch.buffer = Some(hex::hex(leftover.as_slice()));
        out
    }
}

} // verus!
