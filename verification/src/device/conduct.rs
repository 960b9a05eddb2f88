//! What the driver does, said by the numbers, names and places that somebody on the other side of
//! the connection sees.

use crate::crypto;
use crate::device;
use crate::device::SessionView;
use crate::frame;
use crate::hex;
use crate::host;
use crate::host::{
    ArgsView, CallView, HostCall, Instance, NoteView, PropertiesView, ScratchView,
};
use crate::links;
use crate::opack;
use crate::opack::model;
use crate::opack::model::Node;
use crate::srp;
use crate::strmap;
use crate::text;
use crate::tlv8;
use vstd::prelude::*;

verus! {

/// An effect is done where the scratch is what it says, the calls are those it says, one for one
/// and in order, and the properties and the number of the device are what they were.
pub proof fn law_effect_is_done(
    before: Instance,
    now: Instance,
    out: Seq<HostCall>,
    effect: device::Effect,
)
    ensures
        device::did(before, now, out, effect) <==> {
            &&& now.scratch@ == effect.0
            &&& out.len() == effect.1.len()
            &&& forall|i: int| 0 <= i < out.len() ==> (#[trigger] out[i])@ == effect.1[i]
            &&& now.properties@ == before.properties@
            &&& now.id == before.id
        },
{
    let all = host::calls(out);
    if out.len() == effect.1.len() && forall|i: int|
        0 <= i < out.len() ==> (#[trigger] out[i])@ == effect.1[i] {
        assert forall|i: int| 0 <= i < out.len() implies all[i] == effect.1[i] by {
            assert(out[i]@ == effect.1[i]);
        }
        assert(all =~= effect.1);
    }
    if all == effect.1 {
        assert forall|i: int| 0 <= i < out.len() implies (#[trigger] out[i])@ == effect.1[i] by {
            assert(all[i] == out[i]@);
        }
    }
}

// --------------------------------------------------------------------------------------------
// Counting
// --------------------------------------------------------------------------------------------

/// A frame that goes out makes the one counter one more, a frame that comes in the other, and
/// neither touches anything else. Only the largest number that there is has none above it, and
/// nought comes after that.
pub proof fn law_counters_count_by_one(s: ScratchView)
    ensures
        ({
            let sent = s.sent.unwrap_or(0);
            let received = s.received.unwrap_or(0);
            &&& device::sent_one(s).sent is Some
            &&& sent < u64::MAX ==> device::sent_one(s).sent->0 == sent + 1
            &&& sent == u64::MAX ==> device::sent_one(s).sent->0 == 0
            &&& device::sent_one(s) == (ScratchView { sent: device::sent_one(s).sent, ..s })
            &&& device::received_one(s).received is Some
            &&& received < u64::MAX ==> device::received_one(s).received->0 == received + 1
            &&& received == u64::MAX ==> device::received_one(s).received->0 == 0
            &&& device::received_one(s) == (ScratchView {
                received: device::received_one(s).received,
                ..s
            })
        }),
{
}

/// In a session the two counters are what the scratch says, nought where it says nothing; and
/// what goes out and comes in counts there by one.
pub proof fn law_session_counts_by_one(s: ScratchView)
    requires
        device::session_in(s) is Some,
    ensures
        ({
            let x = device::session_in(s)->0;
            let out = device::session_in(device::sent_one(s));
            let inn = device::session_in(device::received_one(s));
            &&& s.sent is Some ==> x.sent == s.sent->0
            &&& s.sent is None ==> x.sent == 0
            &&& s.received is Some ==> x.received == s.received->0
            &&& s.received is None ==> x.received == 0
            &&& x.sent < u64::MAX ==> {
                &&& out is Some
                &&& out->0.sent == x.sent + 1
                &&& out->0.received == x.received
                &&& out->0.write == x.write
                &&& out->0.read == x.read
            }
            &&& x.received < u64::MAX ==> {
                &&& inn is Some
                &&& inn->0.received == x.received + 1
                &&& inn->0.sent == x.sent
                &&& inn->0.write == x.write
                &&& inn->0.read == x.read
            }
        }),
{
}

/// A message that a frame can carry, sealed.
pub open spec fn carried(message: Node) -> bool {
    model::wire_of(message).len() + 16 <= 0xFF_FFFF
}

/// Every value takes at least a byte.
proof fn lemma_wire_has_bytes(v: Node)
    ensures
        model::wire_of(v).len() > 0,
{
    reveal(model::wire_of);
    let (whole, after) = model::full(v, seq![]);
    assert(whole.len() > 0);
    match model::place(after, whole) {
        Some(i) => {
            assert(model::ref_bytes(i).len() > 0);
        },
        None => {},
    }
}

/// In a session a message that a frame can carry goes out, as one frame of type 8 that is sealed
/// under the key to write with and the count of the frames that went out before it. That count is
/// one more then, and nothing else changes. A message that is too long changes nothing and is
/// complained of; without a session every message is.
pub proof fn law_messages_go_out(s: ScratchView, message: Node)
    ensures
        ({
            let effect = device::sending(s, message);
            match device::session_in(s) {
                Some(x) => {
                    &&& carried(message) ==> {
                        &&& effect.1.len() == 1
                        &&& effect.1[0] is Tx
                        &&& effect.1[0]->control == 0
                        &&& Some(effect.1[0]->data) == frame::framed(
                            8,
                            model::wire_of(message),
                            Some(x.write),
                            x.sent,
                        )
                        &&& effect.0 == (ScratchView {
                            sent: Some(
                                if x.sent < u64::MAX {
                                    (x.sent + 1) as u64
                                } else {
                                    0
                                },
                            ),
                            ..s
                        })
                    }
                    &&& !carried(message) ==> {
                        &&& effect.0 == s
                        &&& effect.1 == seq![
                            CallView::Log {
                                level: "warn"@,
                                msg: "apple-tv: "@ + "frame too large for a 24-bit length"@,
                            },
                        ]
                    }
                },
                None => {
                    &&& effect.0 == s
                    &&& effect.1 == seq![
                        CallView::Log {
                            level: "warn"@,
                            msg:
                                "apple-tv: not connected yet — the session is still coming up"@,
                        },
                    ]
                },
            }
        }),
{
    lemma_wire_has_bytes(message);
    if let Some(x) = device::session_in(s) {
        frame::law_frame_layout(8, model::wire_of(message), Some(x.write), x.sent);
    }
}

/// What goes out is read by whoever has the key that it was written with and the same count: as one
/// whole frame of type 8 with the bytes of the message, and nothing behind it.
pub proof fn law_readable(call: CallView, s: ScratchView, message: Node)
    ensures
        device::readable(call, s, message) && call is Tx ==> {
            &&& device::session_in(s) is Some
            &&& frame::complete(call->data)
            &&& frame::read(
                call->data,
                Some(device::session_in(s)->0.write),
                device::session_in(s)->0.sent,
            ) == Ok::<(u8, Seq<u8>), Seq<char>>((8u8, model::wire_of(message)))
            &&& frame::left(call->data).len() == 0
        },
{
}

/// The scratch after messages were sent one after another.
pub open spec fn after_sending(s: ScratchView, messages: Seq<Node>) -> ScratchView
    decreases messages.len(),
{
    if messages.len() == 0 {
        s
    } else {
        device::sending(after_sending(s, messages.drop_last()), messages.last()).0
    }
}

/// However many messages went out, the next is sealed under the first counter and their number:
/// no two frames of a session are sealed under the same counter, so no nonce is used twice.
pub proof fn law_no_counter_is_used_twice(s: ScratchView, messages: Seq<Node>, i: int, j: int)
    requires
        device::session_in(s) is Some,
        device::session_in(s)->0.sent + messages.len() <= u64::MAX,
        forall|k: int| 0 <= k < messages.len() ==> carried(#[trigger] messages[k]),
        0 <= i < j <= messages.len(),
    ensures
        ({
            let x = device::session_in(s)->0;
            let a = device::session_in(after_sending(s, messages.take(i)));
            let b = device::session_in(after_sending(s, messages.take(j)));
            &&& a is Some && b is Some
            &&& a->0.sent == x.sent + i
            &&& b->0.sent == x.sent + j
            &&& a->0.write == x.write && b->0.write == x.write
            &&& srp::counter_nonce(a->0.sent) != srp::counter_nonce(b->0.sent)
        }),
{
    let one = messages.take(i);
    let two = messages.take(j);
    assert forall|k: int| 0 <= k < one.len() implies carried(#[trigger] one[k]) by {
        assert(carried(messages[k]));
    }
    assert forall|k: int| 0 <= k < two.len() implies carried(#[trigger] two[k]) by {
        assert(carried(messages[k]));
    }
    lemma_sent_so_far(s, one);
    lemma_sent_so_far(s, two);
    srp::law_counter_reaches_the_nonce(
        device::session_in(after_sending(s, one))->0.sent,
        device::session_in(after_sending(s, two))->0.sent,
    );
}

proof fn lemma_sent_so_far(s: ScratchView, messages: Seq<Node>)
    requires
        device::session_in(s) is Some,
        device::session_in(s)->0.sent + messages.len() <= u64::MAX,
        forall|k: int| 0 <= k < messages.len() ==> carried(#[trigger] messages[k]),
    ensures
        device::session_in(after_sending(s, messages)) == Some(
            SessionView {
                sent: (device::session_in(s)->0.sent + messages.len()) as u64,
                ..device::session_in(s)->0
            },
        ),
    decreases messages.len(),
{
    if messages.len() > 0 {
        let front = messages.drop_last();
        assert forall|k: int| 0 <= k < front.len() implies carried(#[trigger] front[k]) by {
            assert(carried(messages[k]));
        }
        lemma_sent_so_far(s, front);
        assert(carried(messages[messages.len() - 1]));
        law_messages_go_out(after_sending(s, front), messages.last());
        law_session_counts_by_one(after_sending(s, front));
    }
}

/// The first request has the transaction 2, and each has one more than the last. It is kept
/// whether or not the request could be sent, and what is sent is the request under it.
pub proof fn law_transactions_count_by_one(s: ScratchView, name: Seq<char>, content: Node)
    ensures
        ({
            let effect = device::requesting(s, name, content);
            let xid = effect.0.xid->0;
            &&& effect.0.xid is Some
            &&& s.xid is None ==> xid == 2
            &&& s.xid is Some && s.xid->0 < u64::MAX ==> xid == s.xid->0 + 1
            &&& s.xid == Some(u64::MAX) ==> xid == 0
            &&& effect == device::sending(
                ScratchView { xid: Some(xid), ..s },
                device::request_node(name, xid, content),
            )
        }),
{
}

// --------------------------------------------------------------------------------------------
// Messages
// --------------------------------------------------------------------------------------------

/// What stands last under a key is found under it.
proof fn lemma_found(pairs: Seq<(Seq<char>, Node)>, i: int)
    requires
        0 <= i < pairs.len(),
        forall|j: int| i < j < pairs.len() ==> (#[trigger] pairs[j]).0 != pairs[i].0,
    ensures
        strmap::lookup(opack::dict_of(pairs)->Dict_0, pairs[i].0) == Some(pairs[i].1),
{
    strmap::law_gather(pairs, pairs[i].0);
    let found = strmap::lookup(strmap::gather(pairs), pairs[i].0);
    assert(found is Some);
    let m = choose|m: int|
        0 <= m < pairs.len() && #[trigger] pairs[m] == (pairs[i].0, found->0) && forall|j: int|
            m < j < pairs.len() ==> (#[trigger] pairs[j]).0 != pairs[i].0;
    assert(m == i);
}

/// A request says what it is called, that it is a request (2), its transaction and its content,
/// and nothing else.
pub proof fn law_request_says(name: Seq<char>, xid: u64, content: Node, key: Seq<char>)
    ensures
        ({
            let message = device::request_node(name, xid, content);
            &&& message is Dict
            &&& strmap::lookup(message->Dict_0, "_i"@) == Some(Node::Str(name))
            &&& strmap::lookup(message->Dict_0, "_t"@) == Some(Node::Int(2))
            &&& strmap::lookup(message->Dict_0, "_x"@) == Some(Node::Int(xid))
            &&& strmap::lookup(message->Dict_0, "_c"@) == Some(content)
            &&& strmap::lookup(message->Dict_0, key) is Some ==> key == "_i"@ || key == "_t"@
                || key == "_x"@ || key == "_c"@
        }),
{
    reveal_strlit("_i");
    reveal_strlit("_t");
    reveal_strlit("_x");
    reveal_strlit("_c");
    assert("_i"@[1] == 'i' && "_t"@[1] == 't' && "_x"@[1] == 'x' && "_c"@[1] == 'c');
    let pairs = seq![
        ("_i"@, Node::Str(name)),
        ("_t"@, Node::Int(2)),
        ("_x"@, Node::Int(xid)),
        ("_c"@, content),
    ];
    lemma_found(pairs, 0);
    lemma_found(pairs, 1);
    lemma_found(pairs, 2);
    lemma_found(pairs, 3);
    strmap::law_gather(pairs, key);
}

/// A button's message says whether the button goes down (1) or comes up (2), and which it is, and
/// nothing else.
pub proof fn law_button_says(state: u64, code: u64, key: Seq<char>)
    ensures
        ({
            let message = device::button_node(state, code);
            &&& message is Dict
            &&& strmap::lookup(message->Dict_0, "_hBtS"@) == Some(Node::Int(state))
            &&& strmap::lookup(message->Dict_0, "_hidC"@) == Some(Node::Int(code))
            &&& strmap::lookup(message->Dict_0, key) is Some ==> key == "_hBtS"@ || key
                == "_hidC"@
        }),
{
    reveal_strlit("_hBtS");
    reveal_strlit("_hidC");
    assert("_hBtS"@[2] == 'B' && "_hidC"@[2] == 'i');
    let pairs = seq![("_hBtS"@, Node::Int(state)), ("_hidC"@, Node::Int(code))];
    lemma_found(pairs, 0);
    lemma_found(pairs, 1);
    strmap::law_gather(pairs, key);
}

/// A pairing message says its TLV, its flag and its transaction, and nothing else.
pub proof fn law_pairing_says(
    tlv: Seq<u8>,
    flag: Seq<char>,
    value: u64,
    xid: u64,
    key: Seq<char>,
)
    requires
        flag != "_pd"@,
        flag != "_x"@,
    ensures
        ({
            let message = device::pairing_node(tlv, flag, value, xid);
            &&& message is Dict
            &&& strmap::lookup(message->Dict_0, "_pd"@) == Some(Node::Data(tlv))
            &&& strmap::lookup(message->Dict_0, flag) == Some(Node::Int(value))
            &&& strmap::lookup(message->Dict_0, "_x"@) == Some(Node::Int(xid))
            &&& strmap::lookup(message->Dict_0, key) is Some ==> key == "_pd"@ || key == flag
                || key == "_x"@
        }),
{
    reveal_strlit("_pd");
    reveal_strlit("_x");
    assert("_pd"@.len() == 3 && "_x"@.len() == 2);
    let pairs = seq![
        ("_pd"@, Node::Data(tlv)),
        (flag, Node::Int(value)),
        ("_x"@, Node::Int(xid)),
    ];
    lemma_found(pairs, 0);
    lemma_found(pairs, 1);
    lemma_found(pairs, 2);
    strmap::law_gather(pairs, key);
}

/// What a launch is asked with says one thing: the URL where there is one, else the bundle id.
pub proof fn law_launch_says(launch: links::LaunchView, key: Seq<char>)
    ensures
        device::launch_node(launch) is Dict,
        match launch {
            links::LaunchView::DeepLink(url) => {
                &&& strmap::lookup(device::launch_node(launch)->Dict_0, "_urlS"@) == Some(
                    Node::Str(url),
                )
                &&& key != "_urlS"@ ==> strmap::lookup(
                    device::launch_node(launch)->Dict_0,
                    key,
                ) is None
            },
            links::LaunchView::AppOnly { target, why } => {
                &&& strmap::lookup(device::launch_node(launch)->Dict_0, "_bundleID"@) == Some(
                    Node::Str(target),
                )
                &&& key != "_bundleID"@ ==> strmap::lookup(
                    device::launch_node(launch)->Dict_0,
                    key,
                ) is None
            },
        },
{
    match launch {
        links::LaunchView::DeepLink(url) => {
            let pairs = seq![("_urlS"@, Node::Str(url))];
            lemma_found(pairs, 0);
            strmap::law_gather(pairs, key);
        },
        links::LaunchView::AppOnly { target, why } => {
            let pairs = seq![("_bundleID"@, Node::Str(target))];
            lemma_found(pairs, 0);
            strmap::law_gather(pairs, key);
        },
    }
}

/// The session of the remote's service is asked for by its name, under the number 1, and with
/// nothing else.
pub proof fn law_session_start_says(key: Seq<char>)
    ensures
        ({
            let message = device::session_start_node();
            &&& message is Dict
            &&& strmap::lookup(message->Dict_0, "_srvT"@) == Some(
                Node::Str("com.apple.tvremoteservices"@),
            )
            &&& strmap::lookup(message->Dict_0, "_sid"@) == Some(Node::Int(1))
            &&& strmap::lookup(message->Dict_0, key) is Some ==> key == "_srvT"@ || key
                == "_sid"@
        }),
{
    reveal_strlit("_srvT");
    reveal_strlit("_sid");
    assert("_srvT"@.len() == 5 && "_sid"@.len() == 4);
    let pairs = seq![
        ("_srvT"@, Node::Str("com.apple.tvremoteservices"@)),
        ("_sid"@, Node::Int(1)),
    ];
    lemma_found(pairs, 0);
    lemma_found(pairs, 1);
    strmap::law_gather(pairs, key);
}

/// Who we are: three flags, two names that we go by, the identifier that we paired with, a
/// version, a model and a name.
pub proof fn law_system_info_says(client_id: Seq<u8>)
    ensures
        ({
            let message = device::system_info_node(client_id);
            &&& message is Dict
            &&& strmap::lookup(message->Dict_0, "_bf"@) == Some(Node::Int(0))
            &&& strmap::lookup(message->Dict_0, "_cf"@) == Some(Node::Int(512))
            &&& strmap::lookup(message->Dict_0, "_clFl"@) == Some(Node::Int(128))
            &&& strmap::lookup(message->Dict_0, "_i"@) == Some(Node::Str("juno"@))
            &&& strmap::lookup(message->Dict_0, "_idsID"@) == Some(Node::Data(client_id))
            &&& strmap::lookup(message->Dict_0, "_pubID"@) == Some(Node::Str("juno"@))
            &&& strmap::lookup(message->Dict_0, "_sf"@) == Some(Node::Int(256))
            &&& strmap::lookup(message->Dict_0, "_sv"@) == Some(Node::Str("170.18"@))
            &&& strmap::lookup(message->Dict_0, "model"@) == Some(Node::Str("Juno"@))
            &&& strmap::lookup(message->Dict_0, "name"@) == Some(Node::Str("Juno"@))
        }),
{
    reveal_strlit("_bf");
    reveal_strlit("_cf");
    reveal_strlit("_clFl");
    reveal_strlit("_i");
    reveal_strlit("_idsID");
    reveal_strlit("_pubID");
    reveal_strlit("_sf");
    reveal_strlit("_sv");
    reveal_strlit("model");
    reveal_strlit("name");
    assert("_bf"@.len() == 3 && "_cf"@.len() == 3 && "_sf"@.len() == 3 && "_sv"@.len() == 3);
    assert("_bf"@[1] == 'b' && "_cf"@[1] == 'c' && "_sf"@[1] == 's' && "_sv"@[1] == 's');
    assert("_sf"@[2] == 'f' && "_sv"@[2] == 'v');
    assert("_clFl"@.len() == 5 && "model"@.len() == 5 && "_i"@.len() == 2 && "name"@.len() == 4);
    assert("_clFl"@[0] == '_' && "model"@[0] == 'm');
    assert("_idsID"@.len() == 6 && "_pubID"@.len() == 6);
    assert("_idsID"@[1] == 'i' && "_pubID"@[1] == 'p');
    let pairs = seq![
        ("_bf"@, Node::Int(0)),
        ("_cf"@, Node::Int(512)),
        ("_clFl"@, Node::Int(128)),
        ("_i"@, Node::Str("juno"@)),
        ("_idsID"@, Node::Data(client_id)),
        ("_pubID"@, Node::Str("juno"@)),
        ("_sf"@, Node::Int(256)),
        ("_sv"@, Node::Str("170.18"@)),
        ("model"@, Node::Str("Juno"@)),
        ("name"@, Node::Str("Juno"@)),
    ];
    lemma_found(pairs, 0);
    lemma_found(pairs, 1);
    lemma_found(pairs, 2);
    lemma_found(pairs, 3);
    lemma_found(pairs, 4);
    lemma_found(pairs, 5);
    lemma_found(pairs, 6);
    lemma_found(pairs, 7);
    lemma_found(pairs, 8);
    lemma_found(pairs, 9);
}

// --------------------------------------------------------------------------------------------
// Apps
// --------------------------------------------------------------------------------------------

/// In lower case one of the two names is the front of the other.
pub open spec fn one_begins_the_other(name: Seq<char>, app: Seq<char>) -> bool {
    let a = text::lowercase(name);
    let b = text::lowercase(app);
    a.is_prefix_of(b) || b.is_prefix_of(a)
}

/// Of the apps that the device reported, the first one is meant of which the name and what was
/// said are the same as far as the shorter goes; where there is none, none is meant.
pub proof fn law_first_app_called_alike(bundles: Seq<(Seq<char>, Seq<char>)>, app: Seq<char>)
    ensures
        match device::bundle_of(bundles, app) {
            Some(bundle) => exists|i: int|
                {
                    &&& 0 <= i < bundles.len()
                    &&& (#[trigger] bundles[i]).1 == bundle
                    &&& one_begins_the_other(bundles[i].0, app)
                    &&& forall|j: int|
                        0 <= j < i ==> !one_begins_the_other((#[trigger] bundles[j]).0, app)
                },
            None => forall|j: int|
                0 <= j < bundles.len() ==> !one_begins_the_other((#[trigger] bundles[j]).0, app),
        },
    decreases bundles.len(),
{
    if bundles.len() > 0 {
        let (a, b) = (text::lowercase(bundles[0].0), text::lowercase(app));
        text::law_occurs(a, b);
        text::law_occurs(b, a);
        assert(device::alike(bundles[0].0, app) == one_begins_the_other(bundles[0].0, app));
        if device::alike(bundles[0].0, app) {
            assert(bundles[0].1 == device::bundle_of(bundles, app)->0);
        } else {
            let rest = bundles.skip(1);
            law_first_app_called_alike(rest, app);
            match device::bundle_of(rest, app) {
                Some(bundle) => {
                    let i = choose|i: int|
                        {
                            &&& 0 <= i < rest.len()
                            &&& (#[trigger] rest[i]).1 == bundle
                            &&& one_begins_the_other(rest[i].0, app)
                            &&& forall|j: int|
                                0 <= j < i ==> !one_begins_the_other((#[trigger] rest[j]).0, app)
                        };
                    assert(bundles[i + 1] == rest[i]);
                    assert forall|j: int| 0 <= j < i + 1 implies !one_begins_the_other(
                        (#[trigger] bundles[j]).0,
                        app,
                    ) by {
                        if j > 0 {
                            assert(rest[j - 1] == bundles[j]);
                        }
                    }
                },
                None => {
                    assert forall|j: int| 0 <= j < bundles.len() implies !one_begins_the_other(
                        (#[trigger] bundles[j]).0,
                        app,
                    ) by {
                        if j > 0 {
                            assert(rest[j - 1] == bundles[j]);
                        }
                    }
                },
            }
        }
    }
}

/// Where the apps stand in the order of their names in lower case, and no name is a shorter front
/// of what was said, an app that is called just what was said is the one that is meant.
pub proof fn law_exact_name_is_meant(
    bundles: Seq<(Seq<char>, Seq<char>)>,
    app: Seq<char>,
    k: int,
)
    requires
        0 <= k < bundles.len(),
        text::lowercase(bundles[k].0) == text::lowercase(app),
        forall|i: int, j: int|
            0 <= i < j < bundles.len() ==> !text::before(
                text::lowercase((#[trigger] bundles[j]).0),
                text::lowercase((#[trigger] bundles[i]).0),
            ),
        forall|i: int|
            0 <= i < bundles.len() && text::lowercase((#[trigger] bundles[i]).0).is_prefix_of(
                text::lowercase(app),
            ) ==> text::lowercase(bundles[i].0) == text::lowercase(app),
    ensures
        exists|i: int|
            {
                &&& 0 <= i < bundles.len()
                &&& device::bundle_of(bundles, app) == Some((#[trigger] bundles[i]).1)
                &&& text::lowercase(bundles[i].0) == text::lowercase(app)
            },
{
    let b = text::lowercase(app);
    law_first_app_called_alike(bundles, app);
    assert(b.is_prefix_of(b));
    assert(one_begins_the_other(bundles[k].0, app));
    let bundle = device::bundle_of(bundles, app)->0;
    let i = choose|i: int|
        {
            &&& 0 <= i < bundles.len()
            &&& (#[trigger] bundles[i]).1 == bundle
            &&& one_begins_the_other(bundles[i].0, app)
            &&& forall|j: int| 0 <= j < i ==> !one_begins_the_other((#[trigger] bundles[j]).0, app)
        };
    assert(i <= k);
    let a = text::lowercase(bundles[i].0);
    if a != b {
        assert(b.is_prefix_of(a));
        if a.len() == b.len() {
            assert(a =~= b);
        }
        assert forall|m: int| 0 <= m < b.len() implies b[m] == a[m] by {
            assert(a.subrange(0, b.len() as int)[m] == b[m]);
        }
        assert(text::parts_at(b, a, b.len() as int));
        text::law_order_of_texts(b, a);
    }
}

/// What the device calls an app is the bundle id that it reported; only where it reported none is
/// it the one that came with the command.
pub proof fn law_reported_app_goes_first(
    s: ScratchView,
    app: Seq<char>,
    launch_id: Option<Seq<char>>,
)
    ensures
        s.bundles is Some && device::bundle_of(s.bundles->0, app) is Some ==> device::installed(
            s,
            app,
            launch_id,
        ) == device::bundle_of(s.bundles->0, app),
        s.bundles is None || device::bundle_of(s.bundles->0, app) is None ==> device::installed(
            s,
            app,
            launch_id,
        ) == launch_id,
{
}

/// The names in the device's list are the texts in it, in order.
pub proof fn law_app_names(list: Seq<(Seq<char>, Node)>)
    ensures
        device::app_names(list) == list.filter(|e: (Seq<char>, Node)| e.1 is Str).map_values(
            |e: (Seq<char>, Node)| e.1->Str_0,
        ),
    decreases list.len(),
{
    reveal(Seq::filter);
    let name = |e: (Seq<char>, Node)| e.1->Str_0;
    let is_name = |e: (Seq<char>, Node)| e.1 is Str;
    if list.len() > 0 {
        law_app_names(list.drop_last());
        assert(device::app_names(list) =~= list.filter(is_name).map_values(name));
    } else {
        assert(device::app_names(list) =~= list.filter(is_name).map_values(name));
    }
}

/// Turned round, the list stands in the order of the names, and under each name stands the bundle
/// id of the last app that goes by it; where none does, there is nothing.
pub proof fn law_app_bundles(list: Seq<(Seq<char>, Node)>, name: Seq<char>)
    ensures
        strmap::ascending(device::app_bundles(list)),
        match strmap::lookup(device::app_bundles(list), name) {
            Some(bundle) => exists|i: int|
                0 <= i < list.len() && #[trigger] list[i] == (bundle, Node::Str(name))
                    && forall|j: int| i < j < list.len() ==> (#[trigger] list[j]).1 != Node::Str(
                    name,
                ),
            None => forall|j: int|
                0 <= j < list.len() ==> (#[trigger] list[j]).1 != Node::Str(name),
        },
    decreases list.len(),
{
    if list.len() > 0 {
        let front = list.drop_last();
        let last = list.last();
        law_app_bundles(front, name);
        let b = device::app_bundles(front);
        if let Node::Str(t) = last.1 {
            strmap::law_put_keeps_order(b, t, last.0);
            strmap::law_lookup_after_put(b, t, last.0, name);
        }
        if last.1 == Node::Str(name) {
            assert(list[list.len() - 1] == (last.0, Node::Str(name)));
        } else {
            match strmap::lookup(b, name) {
                Some(bundle) => {
                    let i = choose|i: int|
                        0 <= i < front.len() && #[trigger] front[i] == (bundle, Node::Str(name))
                            && forall|j: int|
                            i < j < front.len() ==> (#[trigger] front[j]).1 != Node::Str(name);
                    assert(list[i] == front[i]);
                    assert forall|j: int| i < j < list.len() implies (#[trigger] list[j]).1
                        != Node::Str(name) by {
                        if j < front.len() {
                            assert(front[j] == list[j]);
                        }
                    }
                },
                None => {
                    assert forall|j: int| 0 <= j < list.len() implies (#[trigger] list[j]).1
                        != Node::Str(name) by {
                        if j < front.len() {
                            assert(front[j] == list[j]);
                        }
                    }
                },
            }
        }
    }
}

// --------------------------------------------------------------------------------------------
// Commands
// --------------------------------------------------------------------------------------------

/// The names of the commands and of the keys, told apart.
proof fn lemma_names()
    ensures
        "launch_app"@.len() == 10,
        "dpad"@.len() == 4 && "dpad"@[0] == 'd',
        "play"@.len() == 4 && "play"@[0] == 'p',
        "pause"@.len() == 5,
        "stop"@.len() == 4 && "stop"@[0] == 's' && "stop"@[1] == 't',
        "volume_up"@.len() == 9,
        "volume_down"@.len() == 11,
        "hold"@.len() == 4 && "hold"@[0] == 'h' && "hold"@[2] == 'l',
        "release"@.len() == 7,
        "search"@.len() == 6 && "search"@[1] == 'e',
        "up"@.len() == 2,
        "down"@.len() == 4 && "down"@[0] == 'd' && "down"@[1] == 'o',
        "left"@.len() == 4 && "left"@[0] == 'l',
        "right"@.len() == 5,
        "select"@.len() == 6,
        "back"@.len() == 4 && "back"@[0] == 'b',
        "menu"@.len() == 4 && "menu"@[0] == 'm',
        "home"@.len() == 4 && "home"@[0] == 'h' && "home"@[2] == 'm',
{
    reveal_strlit("launch_app");
    reveal_strlit("dpad");
    reveal_strlit("play");
    reveal_strlit("pause");
    reveal_strlit("stop");
    reveal_strlit("volume_up");
    reveal_strlit("volume_down");
    reveal_strlit("hold");
    reveal_strlit("release");
    reveal_strlit("search");
    reveal_strlit("up");
    reveal_strlit("down");
    reveal_strlit("left");
    reveal_strlit("right");
    reveal_strlit("select");
    reveal_strlit("back");
    reveal_strlit("menu");
    reveal_strlit("home");
}

/// The number of each key of the pad. Back and menu are one key, and no two others are. A key that
/// is not on the pad has none.
pub proof fn law_pad_numbers(key: Seq<char>)
    ensures
        device::pad_code(key) == Some(1u64) <==> key == "up"@,
        device::pad_code(key) == Some(2u64) <==> key == "down"@,
        device::pad_code(key) == Some(3u64) <==> key == "left"@,
        device::pad_code(key) == Some(4u64) <==> key == "right"@,
        device::pad_code(key) == Some(5u64) <==> key == "back"@ || key == "menu"@,
        device::pad_code(key) == Some(6u64) <==> key == "select"@,
        device::pad_code(key) == Some(7u64) <==> key == "home"@,
        device::pad_code(key) matches Some(n) ==> 1 <= n <= 7,
{
    lemma_names();
}

/// The number of each key that can be held, which is the key's on the pad where it is one there.
/// No other key can be held.
pub proof fn law_held_numbers(what: Seq<char>)
    ensures
        device::held_code(what) == Some(1u64) <==> what == "up"@,
        device::held_code(what) == Some(2u64) <==> what == "down"@,
        device::held_code(what) == Some(3u64) <==> what == "left"@,
        device::held_code(what) == Some(4u64) <==> what == "right"@,
        device::held_code(what) == Some(8u64) <==> what == "volume_up"@,
        device::held_code(what) == Some(9u64) <==> what == "volume_down"@,
        device::held_code(what) matches Some(n) ==> (1 <= n <= 4 || n == 8 || n == 9),
        device::held_code(what) is Some && device::pad_code(what) is Some ==> device::held_code(
            what,
        ) == device::pad_code(what),
{
    lemma_names();
}

/// Which button a command taps, if it is one that taps a button of its own.
pub open spec fn tapped_by(cmd: Seq<char>) -> Option<u64> {
    if cmd == "play"@ || cmd == "pause"@ {
        Some(14)
    } else if cmd == "stop"@ {
        Some(5)
    } else if cmd == "volume_up"@ {
        Some(8)
    } else if cmd == "volume_down"@ {
        Some(9)
    } else if cmd == "search"@ {
        Some(7)
    } else {
        None
    }
}

/// A tap is two requests, each under its own transaction: the button goes down and comes up.
pub proof fn law_tap_presses_and_lifts(s: ScratchView, code: u64)
    ensures
        ({
            let down = device::requesting(s, "_hidC"@, device::button_node(1, code));
            let up = device::requesting(down.0, "_hidC"@, device::button_node(2, code));
            device::tapping(s, code) == (up.0, down.1 + up.1)
        }),
{
}

/// Play and pause tap button 14, stop taps 5, the volume 8 and 9, and search 7, whatever else was
/// said with the command.
pub proof fn law_commands_tap(s: ScratchView, cmd: Seq<char>, args: ArgsView)
    requires
        tapped_by(cmd) is Some,
    ensures
        device::commanded(s, cmd, args) == device::tapping(s, tapped_by(cmd)->0),
{
    lemma_names();
}

/// The pad's command taps the key that was named. Without a key, or with one that is not on the
/// pad, nothing is sent, nothing changes and one warning says so.
pub proof fn law_pad_taps_the_key(s: ScratchView, args: ArgsView)
    ensures
        ({
            let effect = device::commanded(s, "dpad"@, args);
            match args.key {
                Some(key) => match device::pad_code(key) {
                    Some(code) => effect == device::tapping(s, code),
                    None => effect == (
                        s,
                        seq![
                            CallView::Log {
                                level: "warn"@,
                                msg: "apple-tv: tvOS has no `"@ + key + "` key"@,
                            },
                        ],
                    ),
                },
                None => effect == (
                    s,
                    seq![CallView::Log { level: "warn"@, msg: "apple-tv: dpad needs a key"@ }],
                ),
            }
        }),
{
    lemma_names();
}

/// A hold lets another key that is held come up first, notes the key, and sends it down and
/// nothing more. Where no key was named, or one that cannot be held, nothing is sent, nothing
/// changes and one warning says so.
pub proof fn law_hold_presses_the_key(s: ScratchView, args: ArgsView)
    ensures
        ({
            let effect = device::commanded(s, "hold"@, args);
            match args.what {
                Some(what) => match device::held_code(what) {
                    Some(code) => {
                        let free = s.held is None || s.held == Some(code);
                        let first = device::requesting(
                            s,
                            "_hidC"@,
                            device::button_node(2, s.held->0),
                        );
                        let from = if free {
                            s
                        } else {
                            first.0
                        };
                        let press = device::requesting(
                            ScratchView { held: Some(code), ..from },
                            "_hidC"@,
                            device::button_node(1, code),
                        );
                        effect == (
                            press.0,
                            if free {
                                press.1
                            } else {
                                first.1 + press.1
                            },
                        )
                    },
                    None => effect == (
                        s,
                        seq![
                            CallView::Log {
                                level: "warn"@,
                                msg: "apple-tv: `"@ + what
                                    + "` cannot be held; try up, down, left, right, volume_up or volume_down"@,
                            },
                        ],
                    ),
                },
                None => effect == (
                    s,
                    seq![CallView::Log { level: "warn"@, msg: "apple-tv: hold needs a key"@ }],
                ),
            }
        }),
{
    lemma_names();
    if args.what is Some && device::held_code(args.what->0) is Some {
        let code = device::held_code(args.what->0)->0;
        if s.held is None || s.held == Some(code) {
            let press = device::requesting(
                ScratchView { held: Some(code), ..s },
                "_hidC"@,
                device::button_node(1, code),
            );
            assert(Seq::<CallView>::empty() + press.1 =~= press.1);
        }
    }
}

/// A release sends up the key that is held, and no other, and notes that none is held. Where none
/// is, nothing happens.
pub proof fn law_release_lifts_the_key(s: ScratchView, args: ArgsView)
    ensures
        device::commanded(s, "release"@, args) == match s.held {
            Some(code) => device::requesting(
                ScratchView { held: None, ..s },
                "_hidC"@,
                device::button_node(2, code),
            ),
            None => (s, Seq::<CallView>::empty()),
        },
{
    lemma_names();
}

/// A launch asks the device with what the app, what it is called there, and the title come to;
/// then tells the host which app it is now; and then says what there is to say, if anything.
/// Without an app nothing is sent, nothing changes and one warning says so.
pub proof fn law_launch_asks_and_tells(s: ScratchView, args: ArgsView)
    ensures
        ({
            let effect = device::commanded(s, "launch_app"@, args);
            match args.app {
                Some(app) => {
                    let launch = links::resolved(
                        app,
                        device::installed(s, app, args.launch_id),
                        args.content_id,
                        args.content_kind,
                    );
                    let asked = device::requesting(
                        s,
                        "_launchApp"@,
                        device::launch_node(launch),
                    );
                    let told = asked.1.push(
                        CallView::Notify {
                            proxy: 1,
                            note: "app_changed"@,
                            args: NoteView::App(app),
                        },
                    );
                    &&& effect.0 == asked.0
                    &&& launch matches links::LaunchView::AppOnly { target, why: Some(why) }
                        ==> effect.1 == told.push(CallView::Log { level: "info"@, msg: why })
                    &&& !(launch matches links::LaunchView::AppOnly { target, why: Some(why) })
                        ==> effect.1 == told
                },
                None => effect == (
                    s,
                    seq![
                        CallView::Log {
                            level: "warn"@,
                            msg: "apple-tv: launch_app needs an app"@,
                        },
                    ],
                ),
            }
        }),
{
    lemma_names();
    if let Some(app) = args.app {
        let launch = links::resolved(
            app,
            device::installed(s, app, args.launch_id),
            args.content_id,
            args.content_kind,
        );
        let asked = device::requesting(s, "_launchApp"@, device::launch_node(launch));
        let note = CallView::Notify {
            proxy: 1,
            note: "app_changed"@,
            args: NoteView::App(app),
        };
        let told = asked.1.push(note);
        let effect = device::commanded(s, "launch_app"@, args);
        match launch {
            links::LaunchView::AppOnly { target, why: Some(why) } => {
                assert(effect.1 =~= told.push(CallView::Log { level: "info"@, msg: why }));
            },
            _ => {
                assert(effect.1 =~= told);
            },
        }
    }
}

/// A command that is none of these sends nothing and changes nothing, and one warning says so.
pub proof fn law_other_commands_are_refused(s: ScratchView, cmd: Seq<char>, args: ArgsView)
    requires
        tapped_by(cmd) is None,
        cmd != "launch_app"@,
        cmd != "dpad"@,
        cmd != "hold"@,
        cmd != "release"@,
    ensures
        device::commanded(s, cmd, args) == (
            s,
            seq![CallView::Log { level: "warn"@, msg: "apple-tv: unhandled `"@ + cmd + "`"@ }],
        ),
{
}

// --------------------------------------------------------------------------------------------
// Connecting
// --------------------------------------------------------------------------------------------

/// A scratch holds a session exactly where both its keys are thirty-two bytes in hexadecimal: the
/// one to write with is the session's to write with, and the one to read with its to read with.
pub proof fn law_session_of_a_scratch(s: ScratchView, x: SessionView)
    ensures
        device::session_in(s) == Some(x) <==> {
            &&& s.write is Some && hex::unhex_of(s.write->0) == Some(x.write)
            &&& s.read is Some && hex::unhex_of(s.read->0) == Some(x.read)
            &&& x.write.len() == 32
            &&& x.read.len() == 32
            &&& x.sent == (if s.sent is Some {
                s.sent->0
            } else {
                0
            })
            &&& x.received == (if s.received is Some {
                s.received->0
            } else {
                0
            })
        },
{
}

/// A device is paired exactly where all four of its properties are bytes in hexadecimal, and our
/// own key is thirty-two of them.
pub proof fn law_pairing_of_a_device(p: PropertiesView, x: srp::PairingView)
    ensures
        device::pairing_in(p) == Some(x) <==> {
            &&& p.device_id is Some && hex::unhex_of(p.device_id->0) == Some(x.device_id)
            &&& p.device_key is Some && hex::unhex_of(p.device_key->0) == Some(x.device_ltpk)
            &&& p.controller_id is Some && hex::unhex_of(p.controller_id->0) == Some(
                x.client_id,
            )
            &&& p.controller_key is Some && hex::unhex_of(p.controller_key->0) == Some(
                x.client_sk,
            )
            &&& x.client_sk.len() == 32
        },
{
}

/// A session that is started has the keys that it was given, in hexadecimal, and both its counters
/// at nought. Nothing else in the scratch changes.
pub proof fn law_session_is_started(s: ScratchView, write: Seq<u8>, read: Seq<u8>)
    ensures
        ({
            let now = device::opened(s, write, read);
            &&& now.write is Some && hex::unhex_of(now.write->0) == Some(write)
            &&& now.read is Some && hex::unhex_of(now.read->0) == Some(read)
            &&& now.sent == Some(0u64)
            &&& now.received == Some(0u64)
            &&& now.verify_seed == s.verify_seed
            &&& now.buffer == s.buffer
            &&& now.held == s.held
            &&& now.xid == s.xid
            &&& now.bundles == s.bundles
        }),
{
    hex::law_hex_round_trip(write);
    hex::law_hex_round_trip(read);
}

/// With a session go its keys, its counters, a verification, what is half-received and the key
/// that is held. The transaction and the apps stay.
pub proof fn law_session_is_forgotten(s: ScratchView)
    ensures
        ({
            let now = device::cleared(s);
            &&& now.write is None
            &&& now.read is None
            &&& now.sent is None
            &&& now.received is None
            &&& now.verify_seed is None
            &&& now.buffer is None
            &&& now.held is None
            &&& now.xid == s.xid
            &&& now.bundles == s.bundles
        }),
{
}

/// A verification begins with one frame of type 5, in clear: a pairing message with the public key
/// of the secret, the flag `_auTy` at 4 and the transaction 1. The secret is kept in hexadecimal,
/// and all else of an earlier session is forgotten.
pub proof fn law_verification_begins(s: ScratchView, seed: Seq<u8>)
    ensures
        ({
            let effect = device::binding(s, seed);
            let message = device::pairing_node(
                srp::offer(crypto::x25519_public(seed)),
                "_auTy"@,
                4,
                1,
            );
            let data = frame::framed(5, model::wire_of(message), None, 0);
            &&& effect.0.verify_seed is Some
            &&& hex::unhex_of(effect.0.verify_seed->0) == Some(seed)
            &&& effect.0 == (ScratchView {
                verify_seed: effect.0.verify_seed,
                ..device::cleared(s)
            })
            &&& device::session_in(effect.0) is None
            &&& data is Some ==> effect.1 == seq![CallView::Tx { control: 0, data: data->0 }]
            &&& data is None ==> effect.1 == seq![
                CallView::Log {
                    level: "warn"@,
                    msg: "apple-tv: "@ + "frame too large for a 24-bit length"@,
                },
            ]
        }),
{
    hex::law_hex_round_trip(seed);
}

/// A device that is not paired forgets its session, sends nothing and says so once.
pub proof fn law_unpaired_is_said(s: ScratchView)
    ensures
        device::binding_unpaired(s) == (
            device::cleared(s),
            seq![
                CallView::Log {
                    level: "warn"@,
                    msg:
                        "apple-tv: this device has not been paired — run its setup again"@,
                },
            ],
        ),
{
}

/// On connecting the remote says who it is, asks for its session and asks for the apps, in this
/// order and each under its own transaction; last the host is told that the device is there.
pub proof fn law_greeting_order(s: ScratchView, client_id: Seq<u8>)
    ensures
        ({
            let one = device::requesting(
                s,
                "_systemInfo"@,
                device::system_info_node(client_id),
            );
            let two = device::requesting(
                one.0,
                "_sessionStart"@,
                device::session_start_node(),
            );
            let three = device::requesting(
                two.0,
                "FetchLaunchableApplicationsEvent"@,
                Node::Dict(Seq::<(Seq<char>, Node)>::empty()),
            );
            &&& device::greeting(s, client_id).0 == three.0
            &&& device::greeting(s, client_id).1 == one.1 + two.1 + three.1 + seq![
                CallView::Notify {
                    proxy: 1,
                    note: "online_changed"@,
                    args: NoteView::Online(true),
                },
            ]
        }),
{
    let none = Seq::<(Seq<char>, Node)>::empty();
    assert(strmap::gather(none) =~= none);
    let one = device::requesting(s, "_systemInfo"@, device::system_info_node(client_id));
    let two = device::requesting(one.0, "_sessionStart"@, device::session_start_node());
    let three = device::requesting(
        two.0,
        "FetchLaunchableApplicationsEvent"@,
        Node::Dict(none),
    );
    assert(device::greeting(s, client_id).1 =~= one.1 + two.1 + three.1 + seq![
        CallView::Notify {
            proxy: 1,
            note: "online_changed"@,
            args: NoteView::Online(true),
        },
    ]);
}

/// A verification that succeeds is answered with one frame of type 6, in clear: a pairing message
/// with our answer, the flag `_auTy` at 4 and the transaction 2. From then on the session has its
/// keys, and the remote goes on in it. One that fails ends the session and is complained of.
pub proof fn law_verification_is_settled(
    s: ScratchView,
    client_id: Seq<u8>,
    tlv: Seq<u8>,
    write: Seq<u8>,
    read: Seq<u8>,
    why: Seq<char>,
)
    ensures
        ({
            let message = device::pairing_node(tlv, "_auTy"@, 4, 2);
            let data = frame::framed(6, model::wire_of(message), None, 0);
            let effect = device::settling(s, client_id, Ok((tlv, write, read)));
            let greeted = device::greeting(device::opened(s, write, read), client_id);
            &&& data is Some ==> effect.0 == greeted.0 && effect.1 == seq![
                CallView::Tx { control: 0, data: data->0 },
            ] + greeted.1
            &&& data is None ==> effect == (s, Seq::<CallView>::empty())
        }),
        device::settling(s, client_id, Err(why)) == (
            device::cleared(s),
            seq![CallView::Log { level: "warn"@, msg: "apple-tv: "@ + why }],
        ),
{
}

// --------------------------------------------------------------------------------------------
// What comes back
// --------------------------------------------------------------------------------------------

/// What a dictionary says under a key counts only where it is of the kind that is looked for:
/// bytes, a text, or a dictionary.
pub proof fn law_what_stands_under(message: Node, key: Seq<char>)
    ensures
        ({
            let found = strmap::lookup(message->Dict_0, key);
            let data = device::data_under(message, key);
            let text = device::text_under(message, key);
            let list = device::entries_under(message, key);
            &&& data is Some <==> message is Dict && found is Some && found->0 is Data
            &&& data is Some ==> found == Some(Node::Data(data->0))
            &&& text is Some <==> message is Dict && found is Some && found->0 is Str
            &&& text is Some ==> found == Some(Node::Str(text->0))
            &&& list is Some <==> message is Dict && found is Some && found->0 is Dict
            &&& list is Some ==> found == Some(Node::Dict(list->0))
        }),
{
}

/// A reply to a verification says its TLV under `_pd`. A refusal in it ends the session and is
/// complained of. Where it has a public key (3) and sealed data (5), and the device is paired and a
/// verification is under way, the verification is settled with them. Anything else is passed over.
pub proof fn law_verification_replies(p: PropertiesView, s: ScratchView, message: Node)
    ensures
        ({
            let effect = device::verify_replied(p, s, message);
            let pd = device::data_under(message, "_pd"@);
            let items = tlv8::decoded(pd->0);
            let theirs = tlv8::lookup(items, 3);
            let encrypted = tlv8::lookup(items, 5);
            let pairing = device::pairing_in(p);
            let seed = hex::unhex_of(s.verify_seed->0);
            &&& pd is None ==> effect == (s, Seq::<CallView>::empty())
            &&& pd is Some && tlv8::refused(items) is Some ==> effect == (
                device::cleared(s),
                seq![
                    CallView::Log {
                        level: "warn"@,
                        msg: "apple-tv: "@ + tlv8::refused(items)->0,
                    },
                ],
            )
            &&& pd is Some && tlv8::refused(items) is None ==> if theirs is Some && encrypted is Some
                && pairing is Some && s.verify_seed is Some && seed is Some && seed->0.len()
                == 32 {
                effect == device::settling(
                    s,
                    pairing->0.client_id,
                    srp::verified(
                        seed->0,
                        crypto::x25519_public(seed->0),
                        pairing->0,
                        theirs->0,
                        encrypted->0,
                    ),
                )
            } else {
                effect == (s, Seq::<CallView>::empty())
            }
        }),
{
}

/// A reply with a text under `_em` failed, and is complained of with that text. Else a list under
/// `_c` with a name in it is kept, turned round, in place of the one before, and its names are told
/// to the host in order. Anything else is passed over.
pub proof fn law_replies(s: ScratchView, message: Node)
    ensures
        ({
            let effect = device::replied(s, message);
            let why = device::text_under(message, "_em"@);
            let list = device::entries_under(message, "_c"@);
            &&& why is Some ==> effect == (
                s,
                seq![CallView::Log { level: "warn"@, msg: "apple-tv: "@ + why->0 }],
            )
            &&& why is None && list is Some && (exists|i: int|
                0 <= i < list->0.len() && (#[trigger] list->0[i]).1 is Str) ==> effect == (
                ScratchView { bundles: Some(device::app_bundles(list->0)), ..s },
                seq![
                    CallView::Notify {
                        proxy: 1,
                        note: "apps_changed"@,
                        args: NoteView::Apps(text::sorted(device::app_names(list->0))),
                    },
                ],
            )
            &&& why is None && (list is None || forall|i: int|
                0 <= i < list->0.len() ==> !((#[trigger] list->0[i]).1 is Str)) ==> effect == (
                s,
                Seq::<CallView>::empty(),
            )
        }),
{
    let list = device::entries_under(message, "_c"@);
    if let Some(all) = list {
        lemma_some_name(all);
    }
}

/// There is a name exactly where there is a text.
proof fn lemma_some_name(list: Seq<(Seq<char>, Node)>)
    ensures
        device::app_names(list).len() > 0 <==> exists|i: int|
            0 <= i < list.len() && (#[trigger] list[i]).1 is Str,
    decreases list.len(),
{
    if list.len() > 0 {
        let front = list.drop_last();
        lemma_some_name(front);
        if exists|i: int| 0 <= i < front.len() && (#[trigger] front[i]).1 is Str {
            let i = choose|i: int| 0 <= i < front.len() && (#[trigger] front[i]).1 is Str;
            assert(list[i].1 is Str);
        }
        if list.last().1 is Str {
            assert(list[list.len() - 1].1 is Str);
        } else if exists|i: int| 0 <= i < list.len() && (#[trigger] list[i]).1 is Str {
            let i = choose|i: int| 0 <= i < list.len() && (#[trigger] list[i]).1 is Str;
            assert(front[i].1 is Str);
        }
    }
}

/// A frame of type 5 or 6 is a reply to a verification and one of type 8 is any other reply. One
/// of another type, or whose payload says nothing, is passed over.
pub proof fn law_frames_by_type(p: PropertiesView, s: ScratchView, kind: u8, payload: Seq<u8>)
    ensures
        device::arrived(p, s, kind, payload) == match model::said_by(payload) {
            Ok(message) => if kind == 5 || kind == 6 {
                device::verify_replied(p, s, message)
            } else if kind == 8 {
                device::replied(s, message)
            } else {
                (s, Seq::<CallView>::empty())
            },
            Err(_) => (s, Seq::<CallView>::empty()),
        },
{
}

/// In a session the frame at the front of what arrived is read under the key to read with and the
/// count of the frames that came in before it. Where it opens and is not empty, that count is one
/// more before it is acted on; then comes what follows it. Where it does not open, the session
/// ends, that is complained of, and nothing more is read.
pub proof fn law_frames_come_in(p: PropertiesView, s: ScratchView, buffer: Seq<u8>)
    requires
        frame::complete(buffer),
        device::session_in(s) is Some,
    ensures
        ({
            let x = device::session_in(s)->0;
            let (effect, rest) = device::consumed(p, s, buffer);
            let counted = ScratchView {
                received: Some(
                    if x.received < u64::MAX {
                        (x.received + 1) as u64
                    } else {
                        0
                    },
                ),
                ..s
            };
            match frame::read(buffer, Some(x.read), x.received) {
                Ok((kind, payload)) => {
                    let now = device::arrived(
                        p,
                        if payload.len() > 0 {
                            counted
                        } else {
                            s
                        },
                        kind,
                        payload,
                    );
                    let (later, over) = device::consumed(p, now.0, frame::left(buffer));
                    effect == (later.0, now.1 + later.1) && rest == over
                },
                Err(why) => {
                    &&& effect.0 == device::cleared(s)
                    &&& effect.1 == seq![
                        CallView::Log { level: "warn"@, msg: "apple-tv: "@ + why },
                    ]
                    &&& rest == frame::left(buffer)
                },
            }
        }),
{
}

/// Without a session the frame at the front of what arrived is read in clear, and no counter moves
/// for it.
pub proof fn law_clear_frames_come_in(p: PropertiesView, s: ScratchView, buffer: Seq<u8>)
    requires
        frame::complete(buffer),
        device::session_in(s) is None,
    ensures
        ({
            let n = crate::bytes::be_nat(buffer.subrange(1, 4)) as int;
            let now = device::arrived(p, s, buffer[0], buffer.subrange(4, 4 + n));
            let (later, over) = device::consumed(p, now.0, buffer.skip(4 + n));
            device::consumed(p, s, buffer) == ((later.0, now.1 + later.1), over)
        }),
{
    frame::law_reading_layout(buffer, None, 0);
}

/// What is no whole frame yet comes to nothing and is left as it is.
pub proof fn law_part_of_a_frame_waits(p: PropertiesView, s: ScratchView, buffer: Seq<u8>)
    requires
        !frame::complete(buffer),
    ensures
        device::consumed(p, s, buffer) == ((s, Seq::<CallView>::empty()), buffer),
{
}

/// Bytes that arrive go behind those that were held over, and what is left over is held over, in
/// hexadecimal, for the next time.
pub proof fn law_what_is_left_is_held_over(p: PropertiesView, s: ScratchView, chunk: Seq<u8>)
    ensures
        ({
            let held = match s.buffer {
                Some(t) => match hex::unhex_of(t) {
                    Some(b) => b,
                    None => Seq::<u8>::empty(),
                },
                None => Seq::<u8>::empty(),
            };
            let (effect, rest) = device::consumed(p, s, held + chunk);
            let now = device::reading(p, s, chunk);
            &&& now.1 == effect.1
            &&& now.0.buffer is Some
            &&& hex::unhex_of(now.0.buffer->0) == Some(rest)
            &&& now.0 == (ScratchView { buffer: now.0.buffer, ..effect.0 })
        }),
{
    let (effect, rest) = device::consumed(p, s, device::held_over(s) + chunk);
    hex::law_hex_round_trip(rest);
}

/// Only the event `rx` with bytes is acted on: of each number its low eight bits are a byte that
/// arrived, in order, and what is no number is left out.
pub proof fn law_events(p: PropertiesView, s: ScratchView, note: Seq<char>, args: ArgsView)
    ensures
        note == "rx"@ && args.bytes is Some ==> device::happened(p, s, note, args)
            == device::reading(
            p,
            s,
            args.bytes->0.filter(|v: Option<u64>| v is Some).map_values(
                |v: Option<u64>| (v->0 % 256) as u8,
            ),
        ),
        note != "rx"@ || args.bytes is None ==> device::happened(p, s, note, args) == (
            s,
            Seq::<CallView>::empty(),
        ),
{
    if let Some(values) = args.bytes {
        host::law_low_bytes(values);
    }
}

} // verus!
