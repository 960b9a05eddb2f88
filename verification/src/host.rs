//! What the host and the driver hand each other: a device instance, arguments, and calls back.

use crate::strmap::StrMap;
use vstd::prelude::*;

verus! {

/// How the host numbers its proxies and connections.
pub type LocalId = u32;

/// Text that may be missing, as a mathematical object.
pub open spec fn maybe(t: Option<String>) -> Option<Seq<char>> {
    match t {
        Some(t) => Some(t@),
        None => None,
    }
}

/// Texts as mathematical objects.
pub open spec fn texts(s: Seq<String>) -> Seq<Seq<char>> {
    Seq::new(s.len(), |i: int| s[i]@)
}

/// Entries of text as mathematical objects.
pub open spec fn pairs(s: Seq<(Seq<char>, String)>) -> Seq<(Seq<char>, Seq<char>)> {
    Seq::new(s.len(), |i: int| (s[i].0, s[i].1@))
}

/// The text, borrowed.
pub fn borrowed(t: &Option<String>) -> (r: Option<&str>)
    ensures
        r is Some == t is Some,
        r is Some ==> r->0@ == t->0@,
{
    match t {
        Some(t) => Some(t.as_str()),
        None => None,
    }
}

/// The text again.
pub fn copied(t: &Option<String>) -> (r: Option<String>)
    ensures
        maybe(r) == maybe(*t),
{
    match t {
        Some(t) => Some(t.clone()),
        None => None,
    }
}

// --------------------------------------------------------------------------------------------
// The instance
// --------------------------------------------------------------------------------------------

/// The pairing as it is stored with a device: four properties in hexadecimal.
#[derive(Debug)]
pub struct Properties {
    /// "Device id"
    pub device_id: Option<String>,
    /// "Device key"
    pub device_key: Option<String>,
    /// "Controller id"
    pub controller_id: Option<String>,
    /// "Controller key"
    pub controller_key: Option<String>,
}

/// Properties as a mathematical object.
pub struct PropertiesView {
    pub device_id: Option<Seq<char>>,
    pub device_key: Option<Seq<char>>,
    pub controller_id: Option<Seq<char>>,
    pub controller_key: Option<Seq<char>>,
}

impl View for Properties {
    type V = PropertiesView;

    open spec fn view(&self) -> PropertiesView {
        PropertiesView {
            device_id: maybe(self.device_id),
            device_key: maybe(self.device_key),
            controller_id: maybe(self.controller_id),
            controller_key: maybe(self.controller_key),
        }
    }
}

/// What a driver keeps between calls, because it is entered afresh each time. Keys and bytes are
/// in hexadecimal.
#[derive(Debug)]
pub struct Scratch {
    /// The key to write with.
    pub write: Option<String>,
    /// The key to read with.
    pub read: Option<String>,
    /// How many frames went out under the key to write with.
    pub sent: Option<u64>,
    /// How many frames came in under the key to read with.
    pub received: Option<u64>,
    /// The secret of a verification that is under way.
    pub verify_seed: Option<String>,
    /// What is half-received.
    pub buffer: Option<String>,
    /// The key that is being held.
    pub held: Option<u64>,
    /// The last transaction.
    pub xid: Option<u64>,
    /// The apps of the device: name to bundle id.
    pub bundles: Option<StrMap<String>>,
}

/// What a driver keeps, as a mathematical object.
pub struct ScratchView {
    pub write: Option<Seq<char>>,
    pub read: Option<Seq<char>>,
    pub sent: Option<u64>,
    pub received: Option<u64>,
    pub verify_seed: Option<Seq<char>>,
    pub buffer: Option<Seq<char>>,
    pub held: Option<u64>,
    pub xid: Option<u64>,
    pub bundles: Option<Seq<(Seq<char>, Seq<char>)>>,
}

impl View for Scratch {
    type V = ScratchView;

    open spec fn view(&self) -> ScratchView {
        ScratchView {
            write: maybe(self.write),
            read: maybe(self.read),
            sent: self.sent,
            received: self.received,
            verify_seed: maybe(self.verify_seed),
            buffer: maybe(self.buffer),
            held: self.held,
            xid: self.xid,
            bundles: match self.bundles {
                Some(m) => Some(pairs(m.pairs())),
                None => None,
            },
        }
    }
}

/// What is kept of a device, part by part.
pub proof fn law_scratch_says(s: Scratch)
    ensures
        s.write is Some ==> s@.write == Some(s.write->0@),
        s.write is None ==> s@.write is None,
        s.read is Some ==> s@.read == Some(s.read->0@),
        s.read is None ==> s@.read is None,
        s@.sent == s.sent,
        s@.received == s.received,
        s.verify_seed is Some ==> s@.verify_seed == Some(s.verify_seed->0@),
        s.verify_seed is None ==> s@.verify_seed is None,
        s.buffer is Some ==> s@.buffer == Some(s.buffer->0@),
        s.buffer is None ==> s@.buffer is None,
        s@.held == s.held,
        s@.xid == s.xid,
        s.bundles is None ==> s@.bundles is None,
        s.bundles is Some ==> {
            let m = s.bundles->0.pairs();
            &&& s@.bundles is Some
            &&& s@.bundles->0.len() == m.len()
            &&& forall|i: int|
                0 <= i < m.len() ==> s@.bundles->0[i] == ((#[trigger] m[i]).0, m[i].1@)
        },
{
}

/// The properties of a device, part by part.
pub proof fn law_properties_say(p: Properties)
    ensures
        p.device_id is Some ==> p@.device_id == Some(p.device_id->0@),
        p.device_id is None ==> p@.device_id is None,
        p.device_key is Some ==> p@.device_key == Some(p.device_key->0@),
        p.device_key is None ==> p@.device_key is None,
        p.controller_id is Some ==> p@.controller_id == Some(p.controller_id->0@),
        p.controller_id is None ==> p@.controller_id is None,
        p.controller_key is Some ==> p@.controller_key == Some(p.controller_key->0@),
        p.controller_key is None ==> p@.controller_key is None,
{
}

/// A device that the driver drives.
#[derive(Debug)]
pub struct Instance {
    pub id: LocalId,
    pub properties: Properties,
    pub scratch: Scratch,
}

impl Instance {
    /// A device that is not paired and was never connected.
    pub fn new(id: LocalId) -> (r: Self)
        ensures
            r.id == id,
            r.properties@ == (PropertiesView {
                device_id: None,
                device_key: None,
                controller_id: None,
                controller_key: None,
            }),
            r.scratch@ == (ScratchView {
                write: None,
                read: None,
                sent: None,
                received: None,
                verify_seed: None,
                buffer: None,
                held: None,
                xid: None,
                bundles: None,
            }),
    {
        Instance {
            id,
            properties: Properties {
                device_id: None,
                device_key: None,
                controller_id: None,
                controller_key: None,
            },
            scratch: Scratch {
                write: None,
                read: None,
                sent: None,
                received: None,
                verify_seed: None,
                buffer: None,
                held: None,
                xid: None,
                bundles: None,
            },
        }
    }
}

// --------------------------------------------------------------------------------------------
// Arguments
// --------------------------------------------------------------------------------------------

/// The arguments of a command or an event, as far as the driver reads them.
#[derive(Debug)]
pub struct Args {
    pub app: Option<String>,
    pub launch_id: Option<String>,
    pub content_id: Option<String>,
    pub content_kind: Option<String>,
    pub key: Option<String>,
    pub what: Option<String>,
    /// Bytes that arrived, as numbers; none for an element that is no number.
    pub bytes: Option<Vec<Option<u64>>>,
}

/// Arguments as a mathematical object.
pub struct ArgsView {
    pub app: Option<Seq<char>>,
    pub launch_id: Option<Seq<char>>,
    pub content_id: Option<Seq<char>>,
    pub content_kind: Option<Seq<char>>,
    pub key: Option<Seq<char>>,
    pub what: Option<Seq<char>>,
    pub bytes: Option<Seq<Option<u64>>>,
}

impl View for Args {
    type V = ArgsView;

    open spec fn view(&self) -> ArgsView {
        ArgsView {
            app: maybe(self.app),
            launch_id: maybe(self.launch_id),
            content_id: maybe(self.content_id),
            content_kind: maybe(self.content_kind),
            key: maybe(self.key),
            what: maybe(self.what),
            bytes: match self.bytes {
                Some(b) => Some(b@),
                None => None,
            },
        }
    }
}

/// Arguments, part by part.
pub proof fn law_args_say(a: Args)
    ensures
        a.app is Some ==> a@.app == Some(a.app->0@),
        a.app is None ==> a@.app is None,
        a.launch_id is Some ==> a@.launch_id == Some(a.launch_id->0@),
        a.launch_id is None ==> a@.launch_id is None,
        a.content_id is Some ==> a@.content_id == Some(a.content_id->0@),
        a.content_id is None ==> a@.content_id is None,
        a.content_kind is Some ==> a@.content_kind == Some(a.content_kind->0@),
        a.content_kind is None ==> a@.content_kind is None,
        a.key is Some ==> a@.key == Some(a.key->0@),
        a.key is None ==> a@.key is None,
        a.what is Some ==> a@.what == Some(a.what->0@),
        a.what is None ==> a@.what is None,
        a.bytes is Some ==> a@.bytes == Some(a.bytes->0@),
        a.bytes is None ==> a@.bytes is None,
{
}

impl Args {
    /// No arguments.
    pub fn new() -> (r: Self)
        ensures
            r@ == (ArgsView {
                app: None,
                launch_id: None,
                content_id: None,
                content_kind: None,
                key: None,
                what: None,
                bytes: None,
            }),
    {
        Args {
            app: None,
            launch_id: None,
            content_id: None,
            content_kind: None,
            key: None,
            what: None,
            bytes: None,
        }
    }
}

/// The bytes among `values`: of each number its low eight bits, and nothing for the others.
pub open spec fn low_bytes(values: Seq<Option<u64>>) -> Seq<u8>
    decreases values.len(),
{
    if values.len() == 0 {
        seq![]
    } else {
        match values.last() {
            Some(n) => low_bytes(values.drop_last()).push((n % 256) as u8),
            None => low_bytes(values.drop_last()),
        }
    }
}

/// The bytes among values are the numbers among them, in order, each without the multiples of 256.
pub proof fn law_low_bytes(values: Seq<Option<u64>>)
    ensures
        low_bytes(values) == values.filter(|v: Option<u64>| v is Some).map_values(
            |v: Option<u64>| (v->0 % 256) as u8,
        ),
    decreases values.len(),
{
    reveal(Seq::filter);
    let low = |v: Option<u64>| (v->0 % 256) as u8;
    let is_number = |v: Option<u64>| v is Some;
    if values.len() > 0 {
        law_low_bytes(values.drop_last());
        assert(low_bytes(values) =~= values.filter(is_number).map_values(low));
    } else {
        assert(low_bytes(values) =~= values.filter(is_number).map_values(low));
    }
}

/// The bytes among `values`.
pub fn bytes_of(values: &[Option<u64>]) -> (r: Vec<u8>)
    ensures
        r@ == low_bytes(values@),
{
    let mut out: Vec<u8> = Vec::new();
    let mut i: usize = 0;
    assert(out@ =~= low_bytes(values@.take(0)));
    while i < values.len()
        invariant
            i <= values@.len(),
            out@ == low_bytes(values@.take(i as int)),
        decreases values@.len() - i,
    {
        assert(values@.take(i + 1).drop_last() =~= values@.take(i as int));
        match values[i] {
            Some(n) => {
                out.push((n % 256) as u8);
            },
            None => {},
        }
        i += 1;
    }
    assert(values@.take(values@.len() as int) =~= values@);
    out
}

// --------------------------------------------------------------------------------------------
// Calls to the host
// --------------------------------------------------------------------------------------------

/// What a notification says.
#[derive(Debug)]
pub enum Note {
    App(String),
    Apps(Vec<String>),
    Online(bool),
}

/// What the driver asks of its host.
#[derive(Debug)]
pub enum HostCall {
    /// Send bytes.
    Tx { control: LocalId, data: Vec<u8> },
    /// Say something.
    Log { level: String, msg: String },
    /// Tell what changed.
    Notify { proxy: LocalId, note: String, args: Note },
}

/// What a notification says, as a mathematical object.
pub enum NoteView {
    App(Seq<char>),
    Apps(Seq<Seq<char>>),
    Online(bool),
}

/// A call as a mathematical object.
pub enum CallView {
    Tx { control: LocalId, data: Seq<u8> },
    Log { level: Seq<char>, msg: Seq<char> },
    Notify { proxy: LocalId, note: Seq<char>, args: NoteView },
}

impl View for Note {
    type V = NoteView;

    open spec fn view(&self) -> NoteView {
        match self {
            Note::App(name) => NoteView::App(name@),
            Note::Apps(names) => NoteView::Apps(texts(names@)),
            Note::Online(b) => NoteView::Online(*b),
        }
    }
}

impl View for HostCall {
    type V = CallView;

    open spec fn view(&self) -> CallView {
        match self {
            HostCall::Tx { control, data } => CallView::Tx { control: *control, data: data@ },
            HostCall::Log { level, msg } => CallView::Log { level: level@, msg: msg@ },
            HostCall::Notify { proxy, note, args } => CallView::Notify {
                proxy: *proxy,
                note: note@,
                args: args@,
            },
        }
    }
}

/// Calls as mathematical objects.
pub open spec fn calls(s: Seq<HostCall>) -> Seq<CallView> {
    Seq::new(s.len(), |i: int| s[i]@)
}

/// A warning.
pub open spec fn warning(msg: Seq<char>) -> CallView {
    CallView::Log { level: "warn"@, msg }
}

impl HostCall {
    /// A warning.
    pub fn warn(msg: String) -> (r: Self)
        ensures
            r@ == warning(msg@),
    {
        HostCall::Log { level: "warn".to_string(), msg }
    }

    /// Tell what changed.
    pub fn notify(proxy: LocalId, note: &str, args: Note) -> (r: Self)
        ensures
            r@ == (CallView::Notify { proxy, note: note@, args: args@ }),
    {
        HostCall::Notify { proxy, note: note.to_string(), args }
    }
}

/// One call.
pub fn only(call: HostCall) -> (r: Vec<HostCall>)
    ensures
        calls(r@) == seq![call@],
{
    let mut out: Vec<HostCall> = Vec::new();
    out.push(call);
    assert(calls(out@) =~= seq![call@]);
    out
}

/// A call says what it holds.
pub proof fn law_calls_say(call: HostCall)
    ensures
        match call {
            HostCall::Tx { control, data } => call@ is Tx && call@->control == control
                && call@->data == data@,
            HostCall::Log { level, msg } => call@ is Log && call@->level == level@ && call@->msg
                == msg@,
            HostCall::Notify { proxy, note, args } => call@ is Notify && call@->proxy == proxy
                && call@->note == note@ && match args {
                Note::App(name) => call@->args == NoteView::App(name@),
                Note::Apps(names) => call@->args is Apps && call@->args->Apps_0.len()
                    == names@.len() && forall|i: int|
                    0 <= i < names@.len() ==> call@->args->Apps_0[i] == (#[trigger] names@[i])@,
                Note::Online(b) => call@->args == NoteView::Online(b),
            },
        },
{
}

/// No call.
pub fn nothing() -> (r: Vec<HostCall>)
    ensures
        calls(r@) == Seq::<CallView>::empty(),
{
    let out: Vec<HostCall> = Vec::new();
    assert(calls(out@) =~= Seq::<CallView>::empty());
    out
}

/// Append one call.
pub fn push(out: &mut Vec<HostCall>, call: HostCall)
    ensures
        calls(final(out)@) == calls(old(out)@).push(call@),
{
    out.push(call);
    assert(calls(out@) =~= calls(old(out)@).push(call@));
}

/// Append calls.
pub fn extend(out: &mut Vec<HostCall>, more: Vec<HostCall>)
    ensures
        calls(final(out)@) == calls(old(out)@) + calls(more@),
{
    let mut more = more;
    let ghost m = more@;
    out.append(&mut more);
    assert(calls(out@) =~= calls(old(out)@) + calls(m));
}

} // verus!
