//! What setup and its host hand each other: a state, what was brought, and the next step.

use crate::host;
use vstd::prelude::*;

verus! {

/// Something that answered over mDNS.
#[derive(Debug)]
pub struct Found {
    pub service: Option<String>,
    pub address: Option<String>,
    pub port: Option<u64>,
    pub name: Option<String>,
    /// `Name` of its TXT record: what somebody called the television.
    pub txt_name: Option<String>,
    /// `rpMd` of its TXT record: the hardware.
    pub txt_model: Option<String>,
}

/// What answered, as a mathematical object.
pub struct FoundView {
    pub service: Option<Seq<char>>,
    pub address: Option<Seq<char>>,
    pub port: Option<u64>,
    pub name: Option<Seq<char>>,
    pub txt_name: Option<Seq<char>>,
    pub txt_model: Option<Seq<char>>,
}

impl View for Found {
    type V = FoundView;

    open spec fn view(&self) -> FoundView {
        FoundView {
            service: host::maybe(self.service),
            address: host::maybe(self.address),
            port: self.port,
            name: host::maybe(self.name),
            txt_name: host::maybe(self.txt_name),
            txt_model: host::maybe(self.txt_model),
        }
    }
}

impl Clone for Found {
    fn clone(&self) -> (r: Self)
        ensures
            r@ == self@,
    {
        Found {
            service: host::copied(&self.service),
            address: host::copied(&self.address),
            port: self.port,
            name: host::copied(&self.name),
            txt_name: host::copied(&self.txt_name),
            txt_model: host::copied(&self.txt_model),
        }
    }
}

/// What is known of a pairing on the way. Bytes are in hexadecimal.
#[derive(Debug)]
pub struct Answers {
    pub address: Option<String>,
    pub pin: Option<String>,
    pub salt: Option<String>,
    pub device_pub: Option<String>,
    pub seed: Option<String>,
    pub client_id: Option<String>,
    pub host: Option<String>,
}

/// Answers as a mathematical object.
pub struct AnswersView {
    pub address: Option<Seq<char>>,
    pub pin: Option<Seq<char>>,
    pub salt: Option<Seq<char>>,
    pub device_pub: Option<Seq<char>>,
    pub seed: Option<Seq<char>>,
    pub client_id: Option<Seq<char>>,
    pub host: Option<Seq<char>>,
}

impl View for Answers {
    type V = AnswersView;

    open spec fn view(&self) -> AnswersView {
        AnswersView {
            address: host::maybe(self.address),
            pin: host::maybe(self.pin),
            salt: host::maybe(self.salt),
            device_pub: host::maybe(self.device_pub),
            seed: host::maybe(self.seed),
            client_id: host::maybe(self.client_id),
            host: host::maybe(self.host),
        }
    }
}

impl Clone for Answers {
    fn clone(&self) -> (r: Self)
        ensures
            r@ == self@,
    {
        Answers {
            address: host::copied(&self.address),
            pin: host::copied(&self.pin),
            salt: host::copied(&self.salt),
            device_pub: host::copied(&self.device_pub),
            seed: host::copied(&self.seed),
            client_id: host::copied(&self.client_id),
            host: host::copied(&self.host),
        }
    }
}

/// No answers yet.
pub open spec fn unanswered() -> AnswersView {
    AnswersView {
        address: None,
        pin: None,
        salt: None,
        device_pub: None,
        seed: None,
        client_id: None,
        host: None,
    }
}

impl Answers {
    /// No answers yet.
    pub fn new() -> (r: Self)
        ensures
            r@ == unanswered(),
    {
        Answers {
            address: None,
            pin: None,
            salt: None,
            device_pub: None,
            seed: None,
            client_id: None,
            host: None,
        }
    }
}

/// What the driver handed back at the last step.
#[derive(Debug)]
pub struct SetupState {
    pub phase: Option<String>,
    pub answers: Answers,
    pub port: Option<u64>,
    pub session: Option<u64>,
    pub mdns_candidates: Option<Vec<Found>>,
}

/// Things that answered, as mathematical objects.
pub open spec fn founds(s: Seq<Found>) -> Seq<FoundView> {
    Seq::new(s.len(), |i: int| s[i]@)
}

/// A state as a mathematical object.
pub struct StateView {
    pub phase: Option<Seq<char>>,
    pub answers: AnswersView,
    pub port: Option<u64>,
    pub session: Option<u64>,
    pub mdns_candidates: Option<Seq<FoundView>>,
}

impl View for SetupState {
    type V = StateView;

    open spec fn view(&self) -> StateView {
        StateView {
            phase: host::maybe(self.phase),
            answers: self.answers@,
            port: self.port,
            session: self.session,
            mdns_candidates: match self.mdns_candidates {
                Some(found) => Some(founds(found@)),
                None => None,
            },
        }
    }
}

/// The state before the first step.
pub open spec fn blank() -> StateView {
    StateView {
        phase: None,
        answers: unanswered(),
        port: None,
        session: None,
        mdns_candidates: None,
    }
}

impl SetupState {
    /// The state before the first step.
    pub fn new() -> (r: Self)
        ensures
            r@ == blank(),
    {
        SetupState {
            phase: None,
            answers: Answers::new(),
            port: None,
            session: None,
            mdns_candidates: None,
        }
    }
}

impl Clone for SetupState {
    fn clone(&self) -> (r: Self)
        ensures
            r@ == self@,
    {
        let mdns_candidates = match &self.mdns_candidates {
            None => None,
            Some(found) => {
                let mut out: Vec<Found> = Vec::new();
                let mut i: usize = 0;
                let ghost all = founds(found@);
                assert(founds(out@) =~= all.take(0));
                while i < found.len()
                    invariant
                        i <= found@.len(),
                        all == founds(found@),
                        founds(out@) == all.take(i as int),
                    decreases found@.len() - i,
                {
                    let ghost before = out@;
                    let one = found[i].clone();
                    out.push(one);
                    i += 1;
                    assert(founds(out@) =~= founds(before).push(one@));
                    assert(all.take(i as int) =~= all.take(i - 1).push(all[i - 1]));
                }
                assert(all.take(all.len() as int) =~= all);
                Some(out)
            },
        };
        SetupState {
            phase: host::copied(&self.phase),
            answers: self.answers.clone(),
            port: self.port,
            session: self.session,
            mdns_candidates,
        }
    }
}

/// What the host brings to a step.
#[derive(Debug)]
pub struct SetupInput {
    pub answers: Answers,
    pub session: Option<u64>,
    /// Bytes that arrived, as numbers; none for an element that is no number.
    pub received_bytes: Option<Vec<Option<u64>>>,
}

/// What the host brings, as a mathematical object.
pub struct InputView {
    pub answers: AnswersView,
    pub session: Option<u64>,
    pub received_bytes: Option<Seq<Option<u64>>>,
}

impl View for SetupInput {
    type V = InputView;

    open spec fn view(&self) -> InputView {
        InputView {
            answers: self.answers@,
            session: self.session,
            received_bytes: match self.received_bytes {
                Some(b) => Some(b@),
                None => None,
            },
        }
    }
}

impl SetupInput {
    /// Nothing.
    pub fn new() -> (r: Self)
        ensures
            r@ == (InputView { answers: unanswered(), session: None, received_bytes: None }),
    {
        SetupInput { answers: Answers::new(), session: None, received_bytes: None }
    }
}

/// A question.
#[derive(Debug)]
pub struct Field {
    pub name: String,
    pub label: String,
    pub kind: String,
    pub help: String,
    pub required: bool,
}

/// A question as a mathematical object.
pub struct FieldView {
    pub name: Seq<char>,
    pub label: Seq<char>,
    pub kind: Seq<char>,
    pub help: Seq<char>,
    pub required: bool,
}

impl View for Field {
    type V = FieldView;

    open spec fn view(&self) -> FieldView {
        FieldView {
            name: self.name@,
            label: self.label@,
            kind: self.kind@,
            help: self.help@,
            required: self.required,
        }
    }
}

/// A row to pick.
#[derive(Debug)]
pub struct PickRow {
    pub value: String,
    pub cells: Vec<String>,
    pub note: String,
}

/// A row as a mathematical object.
pub struct RowView {
    pub value: Seq<char>,
    pub cells: Seq<Seq<char>>,
    pub note: Seq<char>,
}

impl View for PickRow {
    type V = RowView;

    open spec fn view(&self) -> RowView {
        RowView { value: self.value@, cells: host::texts(self.cells@), note: self.note@ }
    }
}

/// Rows as mathematical objects.
pub open spec fn rows(s: Seq<PickRow>) -> Seq<RowView> {
    Seq::new(s.len(), |i: int| s[i]@)
}

/// A connection to open.
#[derive(Debug)]
pub struct Connect {
    pub host: String,
    pub port: u16,
    pub tls: bool,
}

/// A connection as a mathematical object.
pub struct ConnectView {
    pub host: Seq<char>,
    pub port: u16,
    pub tls: bool,
}

impl View for Connect {
    type V = ConnectView;

    open spec fn view(&self) -> ConnectView {
        ConnectView { host: self.host@, port: self.port, tls: self.tls }
    }
}

/// The value of a property.
#[derive(Debug)]
pub enum Property {
    Text(String),
    Number(u64),
}

/// The value of a property as a mathematical object.
pub enum PropertyView {
    Text(Seq<char>),
    Number(u64),
}

impl View for Property {
    type V = PropertyView;

    open spec fn view(&self) -> PropertyView {
        match self {
            Property::Text(t) => PropertyView::Text(t@),
            Property::Number(n) => PropertyView::Number(*n),
        }
    }
}

/// A device that setup came to.
#[derive(Debug)]
pub struct Candidate {
    pub label: String,
    pub kind: String,
    pub driver_id: String,
    pub properties: Vec<(String, Property)>,
    pub verified: String,
}

/// A device as a mathematical object.
pub struct CandidateView {
    pub label: Seq<char>,
    pub kind: Seq<char>,
    pub driver_id: Seq<char>,
    pub properties: Seq<(Seq<char>, PropertyView)>,
    pub verified: Seq<char>,
}

impl View for Candidate {
    type V = CandidateView;

    open spec fn view(&self) -> CandidateView {
        CandidateView {
            label: self.label@,
            kind: self.kind@,
            driver_id: self.driver_id@,
            properties: Seq::new(
                self.properties@.len(),
                |i: int| (self.properties@[i].0@, self.properties@[i].1@),
            ),
            verified: self.verified@,
        }
    }
}

/// What the host is asked to do next.
#[derive(Debug)]
pub enum SetupStep {
    /// Have somebody pick a row, or answer the question instead.
    Pick {
        title: String,
        body: String,
        columns: Vec<String>,
        rows: Vec<PickRow>,
        field: String,
        manual: Option<Field>,
    },
    /// Send bytes over a connection, and bring back what arrives.
    Session {
        session: Option<u32>,
        open: Option<Connect>,
        send_bytes: Vec<u8>,
        read_ms: u64,
        close: bool,
        note: String,
    },
    /// Have somebody fill in a form.
    Form { title: String, body: String, fields: Vec<Field> },
    /// Setup failed.
    Failed { reason: String },
    /// Setup came to these devices.
    Done { candidates: Vec<Candidate> },
}

/// A step as a mathematical object.
pub enum StepView {
    Pick {
        title: Seq<char>,
        body: Seq<char>,
        columns: Seq<Seq<char>>,
        rows: Seq<RowView>,
        field: Seq<char>,
        manual: Option<FieldView>,
    },
    Session {
        session: Option<u32>,
        open: Option<ConnectView>,
        send_bytes: Seq<u8>,
        read_ms: u64,
        close: bool,
        note: Seq<char>,
    },
    Form { title: Seq<char>, body: Seq<char>, fields: Seq<FieldView> },
    Failed { reason: Seq<char> },
    Done { candidates: Seq<CandidateView> },
}

impl View for SetupStep {
    type V = StepView;

    open spec fn view(&self) -> StepView {
        match self {
            SetupStep::Pick { title, body, columns, rows: picks, field, manual } => StepView::Pick {
                title: title@,
                body: body@,
                columns: host::texts(columns@),
                rows: rows(picks@),
                field: field@,
                manual: match manual {
                    Some(f) => Some(f@),
                    None => None,
                },
            },
            SetupStep::Session { session, open, send_bytes, read_ms, close, note } =>
                StepView::Session {
                session: *session,
                open: match open {
                    Some(c) => Some(c@),
                    None => None,
                },
                send_bytes: send_bytes@,
                read_ms: *read_ms,
                close: *close,
                note: note@,
            },
            SetupStep::Form { title, body, fields } => StepView::Form {
                title: title@,
                body: body@,
                fields: Seq::new(fields@.len(), |i: int| fields@[i]@),
            },
            SetupStep::Failed { reason } => StepView::Failed { reason: reason@ },
            SetupStep::Done { candidates } => StepView::Done {
                candidates: Seq::new(candidates@.len(), |i: int| candidates@[i]@),
            },
        }
    }
}

/// A step and the state to come back with; none where setup is over.
pub type Turn = (StepView, Option<StateView>);

/// What is returned says what was meant.
pub open spec fn took(r: (SetupStep, Option<SetupState>), turn: Turn) -> bool {
    &&& r.0@ == turn.0
    &&& match (r.1, turn.1) {
        (Some(state), Some(s)) => state@ == s,
        (None, None) => true,
        _ => false,
    }
}

/// Setup is over, and failed.
pub open spec fn failing(reason: Seq<char>) -> Turn {
    (StepView::Failed { reason }, None)
}

/// Setup is over, and failed.
pub(crate) fn fail(reason: String) -> (r: (SetupStep, Option<SetupState>))
    ensures
        took(r, failing(reason@)),
{
    (SetupStep::Failed { reason }, None)
}

/// Setup is over, and came to a device.
pub open spec fn finishing(candidate: CandidateView) -> Turn {
    (StepView::Done { candidates: seq![candidate] }, None)
}

/// Setup is over, and came to a device.
pub(crate) fn finish(candidate: Candidate) -> (r: (SetupStep, Option<SetupState>))
    ensures
        took(r, finishing(candidate@)),
{
    let mut candidates: Vec<Candidate> = Vec::new();
    candidates.push(candidate);
    let step = SetupStep::Done { candidates };
    assert(step@->candidates =~= seq![candidate@]);
    (step, None)
}

// --------------------------------------------------------------------------------------------
// Laws
// --------------------------------------------------------------------------------------------

/// A turn is taken exactly where the step is the one that was meant, and there is a state to come
/// back with where one was meant, and that one.
pub proof fn law_turn_is_taken(r: (SetupStep, Option<SetupState>), turn: Turn)
    ensures
        took(r, turn) <==> {
            &&& r.0@ == turn.0
            &&& r.1 is Some <==> turn.1 is Some
            &&& r.1 is Some ==> r.1->0@ == turn.1->0
        },
{
}

/// A setup that is over has one reason, or one device, and nothing to come back with.
pub proof fn law_setup_is_over(reason: Seq<char>, candidate: CandidateView)
    ensures
        failing(reason).0 is Failed,
        failing(reason).0->reason == reason,
        failing(reason).1 is None,
        finishing(candidate).0 is Done,
        finishing(candidate).0->candidates.len() == 1,
        finishing(candidate).0->candidates[0] == candidate,
        finishing(candidate).1 is None,
{
}

/// What answered, part by part.
pub proof fn law_found_says(f: Found)
    ensures
        f.service is Some ==> f@.service == Some(f.service->0@),
        f.service is None ==> f@.service is None,
        f.address is Some ==> f@.address == Some(f.address->0@),
        f.address is None ==> f@.address is None,
        f@.port == f.port,
        f.name is Some ==> f@.name == Some(f.name->0@),
        f.name is None ==> f@.name is None,
        f.txt_name is Some ==> f@.txt_name == Some(f.txt_name->0@),
        f.txt_name is None ==> f@.txt_name is None,
        f.txt_model is Some ==> f@.txt_model == Some(f.txt_model->0@),
        f.txt_model is None ==> f@.txt_model is None,
{
}

/// Answers, part by part.
pub proof fn law_answers_say(a: Answers)
    ensures
        a.address is Some ==> a@.address == Some(a.address->0@),
        a.address is None ==> a@.address is None,
        a.pin is Some ==> a@.pin == Some(a.pin->0@),
        a.pin is None ==> a@.pin is None,
        a.salt is Some ==> a@.salt == Some(a.salt->0@),
        a.salt is None ==> a@.salt is None,
        a.device_pub is Some ==> a@.device_pub == Some(a.device_pub->0@),
        a.device_pub is None ==> a@.device_pub is None,
        a.seed is Some ==> a@.seed == Some(a.seed->0@),
        a.seed is None ==> a@.seed is None,
        a.client_id is Some ==> a@.client_id == Some(a.client_id->0@),
        a.client_id is None ==> a@.client_id is None,
        a.host is Some ==> a@.host == Some(a.host->0@),
        a.host is None ==> a@.host is None,
{
}

/// A state and what is brought to it, part by part.
pub proof fn law_states_say(s: SetupState, input: SetupInput)
    ensures
        s.phase is Some ==> s@.phase == Some(s.phase->0@),
        s.phase is None ==> s@.phase is None,
        s@.answers == s.answers@,
        s@.port == s.port,
        s@.session == s.session,
        s.mdns_candidates is None ==> s@.mdns_candidates is None,
        s.mdns_candidates is Some ==> {
            let all = s.mdns_candidates->0@;
            &&& s@.mdns_candidates is Some
            &&& s@.mdns_candidates->0.len() == all.len()
            &&& forall|i: int|
                0 <= i < all.len() ==> s@.mdns_candidates->0[i] == (#[trigger] all[i])@
        },
        input@.answers == input.answers@,
        input@.session == input.session,
        input.received_bytes is Some ==> input@.received_bytes == Some(input.received_bytes->0@),
        input.received_bytes is None ==> input@.received_bytes is None,
{
}

/// What the host is asked to send, and why setup failed, part by part.
pub proof fn law_steps_say(step: SetupStep)
    ensures
        match step {
            SetupStep::Session { session, open, send_bytes, read_ms, close, note } => {
                &&& step@ is Session
                &&& step@->session == session
                &&& open is None ==> step@->open is None
                &&& open is Some ==> step@->open is Some && step@->open->0.host == open->0.host@
                    && step@->open->0.port == open->0.port && step@->open->0.tls == open->0.tls
                &&& step@->send_bytes == send_bytes@
                &&& step@->read_ms == read_ms
                &&& step@->close == close
                &&& step@->note == note@
            },
            SetupStep::Failed { reason } => step@ is Failed && step@->reason == reason@,
            SetupStep::Form { title, body, fields } => {
                &&& step@ is Form
                &&& step@->Form_title == title@
                &&& step@->Form_body == body@
                &&& step@->fields.len() == fields@.len()
                &&& forall|i: int|
                    0 <= i < fields@.len() ==> step@->fields[i] == (#[trigger] fields@[i])@
            },
            SetupStep::Pick { title, body, columns, rows: picks, field, manual } => {
                &&& step@ is Pick
                &&& step@->Pick_title == title@
                &&& step@->Pick_body == body@
                &&& step@->columns.len() == columns@.len()
                &&& forall|i: int|
                    0 <= i < columns@.len() ==> step@->columns[i] == (#[trigger] columns@[i])@
                &&& step@->rows.len() == picks@.len()
                &&& forall|i: int|
                    0 <= i < picks@.len() ==> step@->rows[i] == (#[trigger] picks@[i])@
                &&& step@->field == field@
                &&& manual is None ==> step@->manual is None
                &&& manual is Some ==> step@->manual == Some(manual->0@)
            },
            SetupStep::Done { candidates } => {
                &&& step@ is Done
                &&& step@->candidates.len() == candidates@.len()
                &&& forall|i: int|
                    0 <= i < candidates@.len() ==> step@->candidates[i]
                        == (#[trigger] candidates@[i])@
            },
        },
{
}

} // verus!
