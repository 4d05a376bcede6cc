//! Session Loop state machine.
//!
//! One value of [`Session`] owns the per-association protocol state:
//! the negotiated presentation contexts, the two accumulation
//! buffers, the identifiers captured from the most recent complete
//! command message, and the loop state. Handling a protocol data
//! unit is specified exactly by the pure step functions below; what
//! the external Object Codec returns for a complete bulk-data
//! message is itself a function of the bytes and the encoding,
//! carried by the named outcomes of the collaborator boundary, so
//! every transition — success included — is owed deterministically.
//!
//! The session itself performs no transport or storage work: it
//! returns [`Action`]s — persist this decoded object under this
//! name, send these bytes — that the caller performs in order,
//! stopping (and tearing the session down) if one fails.

use vstd::prelude::*;
use vstd::string::{StrSliceExecFns, StringExecFns};
use dicom_object::mem::InMemDicomObject;
use dicom_object::StandardDataDictionary;
use crate::accumulator::{feed_spec, AccView, Accumulator};
use crate::codec::{
    create_cstore_response, decode_store_request, encode_control_message, encoded_raws, rsp_elems,
    spec_decode_request, uids_wf, DecodeError, StoreRequestView,
};
use crate::codec::{lemma_rsp_fields, lemma_rsp_group_length};
use crate::codec::{
    find_tag, u16_le, CMD_STORE_RESPONSE, COMMAND_GROUP, NO_DATA_SET, STATUS_SUCCESS,
    TAG_AFFECTED_SOP_CLASS_UID, TAG_AFFECTED_SOP_INSTANCE_UID, TAG_COMMAND_DATA_SET_TYPE,
    TAG_COMMAND_FIELD, TAG_MESSAGE_ID_BEING_RESPONDED_TO, TAG_STATUS,
};
use crate::collab::{
    decode_object, obj_class_of, obj_decodes, obj_instance_of, DecodedObject,
};
use crate::pdu::{Channel, ItemView, Pdu, PduItem, PduView};

verus! {

/// Where the loop stands. `AwaitPdu` is the only state that accepts
/// further units; the other three are terminal.
#[derive(Clone, Copy, Debug, PartialEq, Eq, Structural)]
pub enum SessionState {
    /// Waiting for the next protocol data unit.
    AwaitPdu,
    /// The peer released the session; the loop exits cleanly.
    Released,
    /// A fatal error tore the session down.
    Aborted,
    /// The transport ended; expected termination.
    Closed,
}

/// One negotiated presentation context.
pub struct PresentationContext {
    pub id: u8,
    pub object_type: String,
    pub data_encoding: String,
}

/// The mathematical content of a [`PresentationContext`].
#[verifier::ext_equal]
pub struct ContextView {
    pub id: u8,
    pub object_type: Seq<char>,
    pub data_encoding: Seq<char>,
}

impl View for PresentationContext {
    type V = ContextView;

    open spec fn view(&self) -> ContextView {
        ContextView {
            id: self.id,
            object_type: self.object_type@,
            data_encoding: self.data_encoding@,
        }
    }
}

/// Why a session was aborted.
#[derive(Clone, Copy, Debug, PartialEq, Eq, Structural)]
pub enum SessionError {
    /// A complete command message did not decode.
    CommandDecode(DecodeError),
    /// The identifiers of a command message are too long for the
    /// 32-bit group-length field of the acknowledgement.
    OversizedIdentifiers,
    /// A data item named a presentation context the session never
    /// negotiated.
    UnknownContext,
    /// A complete data message did not decode under the context's
    /// data encoding.
    ObjectDecode,
    /// The decoded object carries no extractable class or instance
    /// identifier, so no header could be synthesized.
    MissingIdentity,
}

/// What the session asks its caller to do, in order.
#[derive(Debug)]
pub enum Action {
    /// Write the decoded object to storage: synthesize the header
    /// from the object's own identifiers and the context's data
    /// encoding, and name the file by the object's own instance
    /// identity.
    Persist {
        object: InMemDicomObject<StandardDataDictionary>,
        class_uid: String,
        instance_uid: String,
        data_encoding: String,
        file_name: String,
    },
    /// Send these bytes as a terminal, single-item command-channel
    /// bulk-data unit on the given context.
    SendCommand { context_id: u8, bytes: Vec<u8> },
    /// Send the fixed release response.
    SendReleaseResponse,
}

/// The mathematical content of an [`Action`]. The decoded object is
/// opaque and does not appear.
#[verifier::ext_equal]
pub enum ActionView {
    Persist {
        class_uid: Seq<char>,
        instance_uid: Seq<char>,
        data_encoding: Seq<char>,
        file_name: Seq<char>,
    },
    SendCommand { context_id: u8, bytes: Seq<u8> },
    SendReleaseResponse,
}

impl View for Action {
    type V = ActionView;

    open spec fn view(&self) -> ActionView {
        match self {
            Action::Persist { object, class_uid, instance_uid, data_encoding, file_name } => {
                ActionView::Persist {
                    class_uid: class_uid@,
                    instance_uid: instance_uid@,
                    data_encoding: data_encoding@,
                    file_name: file_name@,
                }
            },
            Action::SendCommand { context_id, bytes } => ActionView::SendCommand {
                context_id: *context_id,
                bytes: bytes@,
            },
            Action::SendReleaseResponse => ActionView::SendReleaseResponse,
        }
    }
}

/// One session's mathematical state.
#[verifier::ext_equal]
pub struct SessionView {
    pub contexts: Seq<ContextView>,
    pub acc: AccView,
    pub message_id: u16,
    pub class_uid: Seq<u8>,
    pub instance_uid: Seq<u8>,
    pub state: SessionState,
}

/// One established session, owned by its loop.
pub struct Session {
    pub contexts: Vec<PresentationContext>,
    pub acc: Accumulator,
    pub message_id: u16,
    pub class_uid: Vec<u8>,
    pub instance_uid: Vec<u8>,
    pub state: SessionState,
}

impl View for Session {
    type V = SessionView;

    open spec fn view(&self) -> SessionView {
        SessionView {
            contexts: self.contexts@.map(|i: int, c: PresentationContext| c@),
            acc: self.acc@,
            message_id: self.message_id,
            class_uid: self.class_uid@,
            instance_uid: self.instance_uid@,
            state: self.state,
        }
    }
}

/// The captured identifiers always fit the acknowledgement's length
/// fields; established by `new` and preserved by every handler.
pub open spec fn session_wf(s: SessionView) -> bool {
    uids_wf(s.class_uid, s.instance_uid)
}

/// The first negotiated context with the given id, if any.
pub open spec fn find_context(cs: Seq<ContextView>, id: u8) -> Option<ContextView>
    decreases cs.len(),
{
    if cs.len() == 0 {
        None
    } else if cs[0].id == id {
        Some(cs[0])
    } else {
        find_context(cs.drop_first(), id)
    }
}

/// An instance identifier with its trailing padding removed.
pub open spec fn trim_trailing_padding(s: Seq<char>) -> Seq<char>
    decreases s.len(),
{
    if s.len() > 0 && s.last() == '\0' {
        trim_trailing_padding(s.drop_last())
    } else {
        s
    }
}

/// The deterministic storage name of an incoming object: the decoded
/// object's own instance identifier — not whatever the triggering
/// command message claimed — trimmed of trailing padding, with the
/// storage extension appended.
pub open spec fn file_name_spec(instance: Seq<char>) -> Seq<char> {
    trim_trailing_padding(instance) + seq!['.', 'd', 'c', 'm']
}

/// What handling one item does to the session. Every transition of
/// the loop's state machine on a bulk-data item is this function;
/// the outcome of the external Object Codec on a complete data
/// message is given by the named functions of the collaborator
/// boundary, so the whole step is deterministic.
pub open spec fn step_item(s: SessionView, item: ItemView) -> (SessionView, Result<
    Seq<ActionView>,
    SessionError,
>) {
    let (acc2, complete) = feed_spec(s.acc, item);
    match item.channel {
        Channel::Command => match complete {
            None => (SessionView { acc: acc2, ..s }, Ok(Seq::empty())),
            Some(bytes) => match spec_decode_request(bytes) {
                Ok(req) => if uids_wf(req.class_uid, req.instance_uid) {
                    (
                        SessionView {
                            acc: AccView { command: acc2.command, data: Seq::empty() },
                            message_id: req.message_id,
                            class_uid: req.class_uid,
                            instance_uid: req.instance_uid,
                            ..s
                        },
                        Ok(Seq::empty()),
                    )
                } else {
                    (
                        SessionView { acc: acc2, state: SessionState::Aborted, ..s },
                        Err(SessionError::OversizedIdentifiers),
                    )
                },
                Err(e) => (
                    SessionView { acc: acc2, state: SessionState::Aborted, ..s },
                    Err(SessionError::CommandDecode(e)),
                ),
            },
        },
        Channel::Data => match complete {
            None => (SessionView { acc: acc2, ..s }, Ok(Seq::empty())),
            Some(bytes) => match find_context(s.contexts, item.context_id) {
                None => (
                    SessionView { acc: acc2, state: SessionState::Aborted, ..s },
                    Err(SessionError::UnknownContext),
                ),
                Some(ctx) => if !obj_decodes(bytes, ctx.data_encoding) {
                    (
                        SessionView { acc: acc2, state: SessionState::Aborted, ..s },
                        Err(SessionError::ObjectDecode),
                    )
                } else {
                    match (obj_class_of(bytes, ctx.data_encoding), obj_instance_of(
                        bytes,
                        ctx.data_encoding,
                    )) {
                        (Some(class_uid), Some(instance_uid)) => (
                            SessionView { acc: acc2, ..s },
                            Ok(
                                seq![
                                    ActionView::Persist {
                                        class_uid,
                                        instance_uid,
                                        data_encoding: ctx.data_encoding,
                                        file_name: file_name_spec(instance_uid),
                                    },
                                    ActionView::SendCommand {
                                        context_id: item.context_id,
                                        bytes: encoded_raws(
                                            rsp_elems(s.message_id, s.class_uid, s.instance_uid),
                                        ),
                                    },
                                ],
                            ),
                        ),
                        _ => (
                            SessionView { acc: acc2, state: SessionState::Aborted, ..s },
                            Err(SessionError::MissingIdentity),
                        ),
                    }
                },
            },
        },
    }
}

/// Folds a run of items through [`step_item`], stopping at the first
/// error. All items of a unit are handled, in order.
pub open spec fn step_items(s: SessionView, items: Seq<ItemView>) -> (SessionView, Result<
    Seq<ActionView>,
    SessionError,
>)
    decreases items.len(),
{
    if items.len() == 0 {
        (s, Ok(Seq::empty()))
    } else {
        let (s1, r1) = step_item(s, items[0]);
        match r1 {
            Err(e) => (s1, Err(e)),
            Ok(a1) => {
                let (s2, r2) = step_items(s1, items.drop_first());
                match r2 {
                    Err(e) => (s2, Err(e)),
                    Ok(a2) => (s2, Ok(a1 + a2)),
                }
            },
        }
    }
}

/// What handling one whole protocol data unit does. A bulk-data unit
/// folds over its items; a release request answers and ends the
/// session; anything else is ignored.
pub open spec fn step_pdu(s: SessionView, pdu: PduView) -> (SessionView, Result<
    Seq<ActionView>,
    SessionError,
>) {
    match pdu {
        PduView::BulkData(items) => step_items(s, items),
        PduView::ReleaseRequest => (
            SessionView { state: SessionState::Released, ..s },
            Ok(seq![ActionView::SendReleaseResponse]),
        ),
        PduView::ReleaseResponse => (s, Ok(Seq::empty())),
        PduView::Other => (s, Ok(Seq::empty())),
    }
}

/// The view of an action list result.
pub open spec fn actions_result_view(r: Result<Vec<Action>, SessionError>) -> Result<
    Seq<ActionView>,
    SessionError,
> {
    match r {
        Ok(v) => Ok(v@.map(|i: int, a: Action| a@)),
        Err(e) => Err(e),
    }
}

/// Builds the storage file name for the given object instance
/// identifier: trailing padding trimmed, extension appended.
pub fn make_file_name(instance: &String) -> (r: String)
    ensures
        r@ == file_name_spec(instance@),
{
    let st = instance.as_str();
    let n = st.unicode_len();
    let mut end = n;
    proof {
        assert(instance@.take(end as int) =~= instance@);
    }
    while end > 0 && st.get_char(end - 1) == '\0'
        invariant
            end <= n,
            n == instance@.len(),
            st@ == instance@,
            trim_trailing_padding(instance@) == trim_trailing_padding(
                instance@.take(end as int),
            ),
        decreases end,
    {
        proof {
            let t = instance@.take(end as int);
            assert(t.last() == instance@[end - 1]);
            assert(t.drop_last() =~= instance@.take(end - 1));
        }
        end = end - 1;
    }
    proof {
        let t = instance@.take(end as int);
        assert(trim_trailing_padding(t) == t);
    }
    let stem = st.substring_char(0, end);
    let mut r = String::from_str(stem);
    r.append(".dcm");
    proof {
        reveal_strlit(".dcm");
        assert(".dcm"@ =~= seq!['.', 'd', 'c', 'm']);
        assert(r@ =~= file_name_spec(instance@));
    }
    r
}

impl Session {
    /// A fresh session over the negotiated contexts: empty buffers,
    /// initial captured identifiers, awaiting the first unit.
    pub fn new(contexts: Vec<PresentationContext>) -> (r: Session)
        ensures
            r@.contexts == contexts@.map(|i: int, c: PresentationContext| c@),
            r@.acc.command.len() == 0,
            r@.acc.data.len() == 0,
            r@.message_id == 1,
            r@.class_uid.len() == 0,
            r@.instance_uid.len() == 0,
            r@.state == SessionState::AwaitPdu,
            session_wf(r@),
    {
        Session {
            contexts,
            acc: Accumulator::new(),
            message_id: 1,
            class_uid: Vec::new(),
            instance_uid: Vec::new(),
            state: SessionState::AwaitPdu,
        }
    }

    /// The data encoding of the first context with the given id.
    pub fn lookup_data_encoding(&self, id: u8) -> (r: Option<String>)
        ensures
            match find_context(self@.contexts, id) {
                None => r is None,
                Some(ctx) => r matches Some(enc) && enc@ == ctx.data_encoding,
            },
    {
        let cs = &self.contexts;
        let n = cs.len();
        let mut i: usize = 0;
        proof {
            assert(self@.contexts.skip(0) =~= self@.contexts);
        }
        while i < n
            invariant
                i <= n,
                n == cs@.len(),
                self@.contexts == cs@.map(|k: int, c: PresentationContext| c@),
                find_context(self@.contexts, id) == find_context(
                    self@.contexts.skip(i as int),
                    id,
                ),
            decreases n - i,
        {
            let ghost tail = self@.contexts.skip(i as int);
            proof {
                assert(tail[0] == self@.contexts[i as int]);
                assert(tail.drop_first() =~= self@.contexts.skip(i as int + 1));
            }
            if cs[i].id == id {
                return Some(cs[i].data_encoding.clone());
            }
            i = i + 1;
        }
        proof {
            assert(self@.contexts.skip(n as int).len() == 0);
        }
        None
    }

    /// Records that the transport ended while awaiting a unit:
    /// expected termination, the loop exits quietly.
    pub fn note_transport_closed(&mut self)
        requires
            old(self)@.state == SessionState::AwaitPdu,
        ensures
            final(self)@ == (SessionView { state: SessionState::Closed, ..old(self)@ }),
    {
        self.state = SessionState::Closed;
    }

    /// Records any other receive failure: the session is torn down.
    pub fn note_transport_error(&mut self)
        requires
            old(self)@.state == SessionState::AwaitPdu,
        ensures
            final(self)@ == (SessionView { state: SessionState::Aborted, ..old(self)@ }),
    {
        self.state = SessionState::Aborted;
    }

    /// Handles one item, returning the actions it demands.
    fn handle_item(&mut self, item: &PduItem) -> (r: Result<Vec<Action>, SessionError>)
        requires
            session_wf(old(self)@),
        ensures
            final(self)@ == step_item(old(self)@, item@).0,
            actions_result_view(r) == step_item(old(self)@, item@).1,
            session_wf(final(self)@),
    {
        let ghost s0 = self@;
        let complete = self.acc.feed(item);
        match item.channel {
            Channel::Command => match complete {
                None => {
                    let empty_actions: Vec<Action> = Vec::new();
                    proof {
                        assert(self@ =~~= step_item(s0, item@).0);
                        assert(empty_actions@.map(|i: int, a: Action| a@) =~= Seq::<
                            ActionView,
                        >::empty());
                    }
                    Ok(empty_actions)
                },
                Some(bytes) => match decode_store_request(&bytes) {
                    Ok(req) => {
                        if req.class_uid.len() as u128 + req.instance_uid.len() as u128 + 58
                            > 0xFFFF_FFFF {
                            self.state = SessionState::Aborted;
                            proof {
                                assert(self@ =~~= step_item(s0, item@).0);
                            }
                            Err(SessionError::OversizedIdentifiers)
                        } else {
                            self.message_id = req.message_id;
                            self.class_uid = req.class_uid;
                            self.instance_uid = req.instance_uid;
                            self.acc.clear_data();
                            let empty_actions: Vec<Action> = Vec::new();
                            proof {
                                assert(self@ =~~= step_item(s0, item@).0);
                                assert(empty_actions@.map(|i: int, a: Action| a@) =~= Seq::<
                                    ActionView,
                                >::empty());
                            }
                            Ok(empty_actions)
                        }
                    },
                    Err(e) => {
                        self.state = SessionState::Aborted;
                        proof {
                            assert(self@ =~~= step_item(s0, item@).0);
                        }
                        Err(SessionError::CommandDecode(e))
                    },
                },
            },
            Channel::Data => match complete {
                None => {
                    let empty_actions: Vec<Action> = Vec::new();
                    proof {
                        assert(self@ =~~= step_item(s0, item@).0);
                        assert(empty_actions@.map(|i: int, a: Action| a@) =~= Seq::<
                            ActionView,
                        >::empty());
                    }
                    Ok(empty_actions)
                },
                Some(bytes) => {
                    let enc = self.lookup_data_encoding(item.context_id);
                    match enc {
                        None => {
                            self.state = SessionState::Aborted;
                            proof {
                                assert(self@ =~~= step_item(s0, item@).0);
                            }
                            Err(SessionError::UnknownContext)
                        },
                        Some(ts) => match decode_object(&bytes, &ts) {
                            None => {
                                self.state = SessionState::Aborted;
                                proof {
                                    assert(self@ =~~= step_item(s0, item@).0);
                                }
                                Err(SessionError::ObjectDecode)
                            },
                            Some(d) => {
                                let DecodedObject { object, class_uid, instance_uid } = d;
                                match (class_uid, instance_uid) {
                                    (Some(class_uid), Some(instance_uid)) => {
                                        let msg = create_cstore_response(
                                            self.message_id,
                                            &self.class_uid,
                                            &self.instance_uid,
                                        );
                                        proof {
                                            lemma_rsp_group_length(
                                                self.message_id,
                                                self@.class_uid,
                                                self@.instance_uid,
                                            );
                                        }
                                        let out = encode_control_message(&msg);
                                        let file_name = make_file_name(&instance_uid);
                                        let mut actions: Vec<Action> = Vec::new();
                                        actions.push(
                                            Action::Persist {
                                                object,
                                                class_uid,
                                                instance_uid,
                                                data_encoding: ts,
                                                file_name,
                                            },
                                        );
                                        actions.push(
                                            Action::SendCommand {
                                                context_id: item.context_id,
                                                bytes: out,
                                            },
                                        );
                                        proof {
                                            let (s2, r2) = step_item(s0, item@);
                                            assert(self@ =~~= s2);
                                            assert(actions@.map(|i: int, a: Action| a@)
                                                =~= r2.unwrap());
                                        }
                                        Ok(actions)
                                    },
                                    _ => {
                                        self.state = SessionState::Aborted;
                                        proof {
                                            assert(self@ =~~= step_item(s0, item@).0);
                                        }
                                        Err(SessionError::MissingIdentity)
                                    },
                                }
                            },
                        },
                    }
                },
            },
        }
    }
}

/// Folding a run of items splits at any point `k`: fold the first
/// `k`, then — unless one of them failed — fold the rest from where
/// they left off, concatenating the actions.
pub proof fn lemma_step_items_decompose(s: SessionView, items: Seq<ItemView>, k: int)
    requires
        0 <= k <= items.len(),
    ensures
        ({
            let (t, ra) = step_items(s, items.take(k));
            match ra {
                Err(e) => step_items(s, items) == (t, Err::<Seq<ActionView>, SessionError>(e)),
                Ok(a) => ({
                    let (t2, rb) = step_items(t, items.skip(k));
                    match rb {
                        Err(e) => step_items(s, items) == (
                            t2,
                            Err::<Seq<ActionView>, SessionError>(e),
                        ),
                        Ok(b) => step_items(s, items) == (
                            t2,
                            Ok::<Seq<ActionView>, SessionError>(a + b),
                        ),
                    }
                }),
            }
        }),
    decreases k,
{
    if k == 0 {
        assert(items.take(0) =~= Seq::<ItemView>::empty());
        assert(step_items(s, items.take(0)) == (
            s,
            Ok::<Seq<ActionView>, SessionError>(Seq::empty()),
        ));
        assert(items.skip(0) =~= items);
        let (t2, rb) = step_items(s, items);
        match rb {
            Err(_) => {},
            Ok(b) => {
                assert(Seq::<ActionView>::empty() + b =~= b);
            },
        }
    } else {
        let (s1, r1) = step_item(s, items[0]);
        assert(items.take(k)[0] == items[0]);
        assert(items.take(k).drop_first() =~= items.drop_first().take(k - 1));
        assert(items.skip(k) =~= items.drop_first().skip(k - 1));
        match r1 {
            Err(_) => {},
            Ok(a1) => {
                lemma_step_items_decompose(s1, items.drop_first(), k - 1);
                let (t, ra) = step_items(s1, items.drop_first().take(k - 1));
                match ra {
                    Err(_) => {},
                    Ok(ap) => {
                        let (t2, rb) = step_items(t, items.drop_first().skip(k - 1));
                        match rb {
                            Err(_) => {},
                            Ok(b) => {
                                assert((a1 + ap) + b =~= a1 + (ap + b));
                            },
                        }
                    },
                }
            },
        }
    }
}

/// Extends a successful partial fold by one more successful item.
proof fn lemma_fold_extend_ok(
    s0: SessionView,
    prev: SessionView,
    next: SessionView,
    views: Seq<ItemView>,
    i: int,
    prev_acts: Seq<ActionView>,
    new_acts: Seq<ActionView>,
)
    requires
        0 <= i < views.len(),
        step_items(s0, views.take(i)) == (prev, Ok::<Seq<ActionView>, SessionError>(prev_acts)),
        step_item(prev, views[i]) == (next, Ok::<Seq<ActionView>, SessionError>(new_acts)),
    ensures
        step_items(s0, views.take(i + 1)) == (
            next,
            Ok::<Seq<ActionView>, SessionError>(prev_acts + new_acts),
        ),
{
    let items1 = views.take(i + 1);
    assert(items1.take(i) =~= views.take(i));
    lemma_step_items_decompose(s0, items1, i);
    assert(items1.skip(i) =~= seq![views[i]]);
    assert(seq![views[i]].drop_first() =~= Seq::<ItemView>::empty());
    assert(step_items(next, Seq::<ItemView>::empty()) == (
        next,
        Ok::<Seq<ActionView>, SessionError>(Seq::empty()),
    ));
    assert(step_items(prev, seq![views[i]]) == (
        next,
        Ok::<Seq<ActionView>, SessionError>(new_acts + Seq::<ActionView>::empty()),
    ));
    assert(new_acts + Seq::<ActionView>::empty() =~= new_acts);
}

/// A failing item aborts the whole fold with its error, whatever
/// items follow.
proof fn lemma_fold_extend_err(
    s0: SessionView,
    prev: SessionView,
    next: SessionView,
    views: Seq<ItemView>,
    i: int,
    prev_acts: Seq<ActionView>,
    e: SessionError,
)
    requires
        0 <= i < views.len(),
        step_items(s0, views.take(i)) == (prev, Ok::<Seq<ActionView>, SessionError>(prev_acts)),
        step_item(prev, views[i]) == (next, Err::<Seq<ActionView>, SessionError>(e)),
    ensures
        step_items(s0, views) == (next, Err::<Seq<ActionView>, SessionError>(e)),
{
    lemma_step_items_decompose(s0, views, i);
    assert(views.skip(i)[0] == views[i]);
    assert(views.skip(i).len() > 0);
    assert(step_items(prev, views.skip(i)) == (next, Err::<Seq<ActionView>, SessionError>(e)));
}

impl Session {
    /// Handles one received protocol data unit, in the awaiting
    /// state: feeds every item of a bulk-data unit in order, answers
    /// a release request, ignores anything else. Returns the actions
    /// to perform, in order; on a fatal error nothing is returned —
    /// in particular no acknowledgement — and the session is
    /// aborted.
    pub fn handle_pdu(&mut self, pdu: &Pdu) -> (r: Result<Vec<Action>, SessionError>)
        requires
            old(self)@.state == SessionState::AwaitPdu,
            session_wf(old(self)@),
        ensures
            final(self)@ == step_pdu(old(self)@, pdu@).0,
            actions_result_view(r) == step_pdu(old(self)@, pdu@).1,
            session_wf(final(self)@),
    {
        let ghost s0 = self@;
        match pdu {
            Pdu::ReleaseRequest => {
                self.state = SessionState::Released;
                let mut actions: Vec<Action> = Vec::new();
                actions.push(Action::SendReleaseResponse);
                proof {
                    assert(self@ =~~= step_pdu(s0, pdu@).0);
                    assert(actions@.map(|i: int, a: Action| a@) =~= seq![
                        ActionView::SendReleaseResponse,
                    ]);
                }
                Ok(actions)
            },
            Pdu::ReleaseResponse => {
                let actions: Vec<Action> = Vec::new();
                proof {
                    assert(actions@.map(|i: int, a: Action| a@) =~= Seq::<ActionView>::empty());
                }
                Ok(actions)
            },
            Pdu::Other => {
                let actions: Vec<Action> = Vec::new();
                proof {
                    assert(actions@.map(|i: int, a: Action| a@) =~= Seq::<ActionView>::empty());
                }
                Ok(actions)
            },
            Pdu::BulkData(items) => {
                let ghost views = items@.map(|i: int, it: PduItem| it@);
                let n = items.len();
                let mut actions: Vec<Action> = Vec::new();
                let mut i: usize = 0;
                proof {
                    assert(views.take(0) =~= Seq::<ItemView>::empty());
                    assert(actions@.map(|k: int, a: Action| a@) =~= Seq::<ActionView>::empty());
                }
                while i < n
                    invariant
                        i <= n,
                        n == items@.len(),
                        views == items@.map(|k: int, it: PduItem| it@),
                        pdu@ == PduView::BulkData(views),
                        s0 == old(self)@,
                        session_wf(self@),
                        step_items(s0, views.take(i as int)) == (
                            self@,
                            Ok::<Seq<ActionView>, SessionError>(
                                actions@.map(|k: int, a: Action| a@),
                            ),
                        ),
                    decreases n - i,
                {
                    let ghost prev = self@;
                    let ghost prev_acts = actions@.map(|k: int, a: Action| a@);
                    let r1 = self.handle_item(&items[i]);
                    proof {
                        assert(views[i as int] == items@[i as int]@);
                    }
                    match r1 {
                        Ok(mut new_actions) => {
                            let ghost new_views = new_actions@.map(|k: int, a: Action| a@);
                            actions.append(&mut new_actions);
                            proof {
                                lemma_fold_extend_ok(
                                    s0,
                                    prev,
                                    self@,
                                    views,
                                    i as int,
                                    prev_acts,
                                    new_views,
                                );
                                assert(actions@.map(|k: int, a: Action| a@) =~= prev_acts
                                    + new_views);
                            }
                        },
                        Err(e) => {
                            proof {
                                lemma_fold_extend_err(
                                    s0,
                                    prev,
                                    self@,
                                    views,
                                    i as int,
                                    prev_acts,
                                    e,
                                );
                                assert(pdu@ =~~= PduView::BulkData(views));
                            }
                            return Err(e);
                        },
                    }
                    i = i + 1;
                }
                proof {
                    assert(views.take(n as int) =~= views);
                    assert(pdu@ =~~= PduView::BulkData(views));
                }
                Ok(actions)
            },
        }
    }
}

/// Every failing step leaves the session aborted: a fatal error on
/// any item tears the session down, and — the result being an error
/// — no action, in particular no acknowledgement, is handed out.
pub proof fn lemma_error_aborts(s: SessionView, item: ItemView)
    ensures
        step_item(s, item).1 is Err ==> step_item(s, item).0.state == SessionState::Aborted,
{
}

/// Abort without response, over a whole unit: if folding a unit's
/// items fails anywhere, the session ends aborted and the fold
/// yields an error — no actions, so nothing is transmitted.
pub proof fn lemma_abort_without_response(s: SessionView, items: Seq<ItemView>)
    ensures
        step_items(s, items).1 is Err ==> step_items(s, items).0.state == SessionState::Aborted,
    decreases items.len(),
{
    if items.len() == 0 {
    } else {
        let (s1, r1) = step_item(s, items[0]);
        lemma_error_aborts(s, items[0]);
        if r1 is Ok {
            lemma_abort_without_response(s1, items.drop_first());
        }
    }
}

/// Abort without response, for a whole received unit: if handling
/// any unit fails, the session ends aborted and nothing is
/// transmitted.
pub proof fn lemma_pdu_error_aborts(s: SessionView, pdu: PduView)
    ensures
        step_pdu(s, pdu).1 is Err ==> step_pdu(s, pdu).0.state == SessionState::Aborted,
{
    match pdu {
        PduView::BulkData(items) => {
            lemma_abort_without_response(s, items);
        },
        _ => {},
    }
}

/// A malformed data-channel message — its accumulated bytes fail to
/// decode under the context's encoding — yields the decode error and
/// an aborted session, never an acknowledgement.
pub proof fn lemma_data_decode_failure(s: SessionView, item: ItemView)
    requires
        item.channel is Data,
        item.is_terminal,
    ensures
        ({
            let bytes = s.acc.data + item.payload;
            match find_context(s.contexts, item.context_id) {
                None => true,
                Some(ctx) => !obj_decodes(bytes, ctx.data_encoding) ==> step_item(s, item).1
                    == Err::<Seq<ActionView>, SessionError>(SessionError::ObjectDecode)
                    && step_item(s, item).0.state == SessionState::Aborted,
            }
        }),
{
}

/// A unit carrying two items is handled as two sequential feeds:
/// folding the pair composes the two single-item steps, never just
/// the first.
pub proof fn lemma_multi_item_pdu(s: SessionView, i1: ItemView, i2: ItemView)
    ensures
        ({
            let (s1, r1) = step_item(s, i1);
            match r1 {
                Err(e) => step_pdu(s, PduView::BulkData(seq![i1, i2])) == (
                    s1,
                    Err::<Seq<ActionView>, SessionError>(e),
                ),
                Ok(a1) => ({
                    let (s2, r2) = step_item(s1, i2);
                    match r2 {
                        Err(e) => step_pdu(s, PduView::BulkData(seq![i1, i2])) == (
                            s2,
                            Err::<Seq<ActionView>, SessionError>(e),
                        ),
                        Ok(a2) => step_pdu(s, PduView::BulkData(seq![i1, i2])) == (
                            s2,
                            Ok::<Seq<ActionView>, SessionError>(a1 + a2),
                        ),
                    }
                }),
            }
        }),
{
    let items = seq![i1, i2];
    assert(items.drop_first() =~= seq![i2]);
    assert(seq![i2].drop_first() =~= Seq::<ItemView>::empty());
    assert(step_pdu(s, PduView::BulkData(items)) == step_items(s, items));
    let (s1, r1) = step_item(s, i1);
    match r1 {
        Err(e) => {
            assert(step_items(s, items) == (s1, Err::<Seq<ActionView>, SessionError>(e)));
        },
        Ok(a1) => {
            let (s2, r2) = step_item(s1, i2);
            match r2 {
                Err(e) => {
                    assert(step_items(s1, seq![i2]) == (
                        s2,
                        Err::<Seq<ActionView>, SessionError>(e),
                    ));
                    assert(step_items(s, items) == (
                        s2,
                        Err::<Seq<ActionView>, SessionError>(e),
                    ));
                },
                Ok(a2) => {
                    assert(a2 + Seq::<ActionView>::empty() =~= a2);
                    assert(step_items(s2, Seq::<ItemView>::empty()) == (
                        s2,
                        Ok::<Seq<ActionView>, SessionError>(Seq::empty()),
                    ));
                    assert(step_items(s1, seq![i2]) == (
                        s2,
                        Ok::<Seq<ActionView>, SessionError>(a2),
                    ));
                    assert(step_items(s, items) == (
                        s2,
                        Ok::<Seq<ActionView>, SessionError>(a1 + a2),
                    ));
                },
            }
        },
    }
}

/// Handling a command-channel item never consults the negotiated
/// contexts: the fixed sub-encoding governs the command channel
/// whatever data encodings the session negotiated.
pub proof fn lemma_command_ignores_contexts(s: SessionView, cs2: Seq<ContextView>, item: ItemView)
    requires
        item.channel is Command,
    ensures
        ({
            let swapped = (SessionView { contexts: cs2, ..s });
            let (t1, r1) = step_item(s, item);
            let (t2, r2) = step_item(swapped, item);
            r2 == r1 && t2 == (SessionView { contexts: cs2, ..t1 })
        }),
{
    let swapped = (SessionView { contexts: cs2, ..s });
    let (t1, r1) = step_item(s, item);
    let (t2, r2) = step_item(swapped, item);
    assert(t2 =~~= (SessionView { contexts: cs2, ..t1 }));
}

/// Acknowledgement correlation: after a terminal command item whose
/// accumulated bytes decode to a store request with message id `m`,
/// class `C` and instance `I`, a data message that decodes and
/// carries its identifiers is persisted and acknowledged — success
/// owed, not merely permitted — by a command whose
/// message-id-being-responded-to is `m`, whose affected class and
/// instance echo `C` and `I` (padded to even length on the wire),
/// whose status is success and whose data-set-type is "no data set",
/// sent on the data item's own context.
pub proof fn lemma_ack_correlation(
    s: SessionView,
    req: StoreRequestView,
    cmd: ItemView,
    data: ItemView,
    oc: Seq<char>,
    oi: Seq<char>,
)
    requires
        cmd.channel is Command,
        cmd.is_terminal,
        spec_decode_request(s.acc.command + cmd.payload) == Ok::<StoreRequestView, DecodeError>(
            req,
        ),
        uids_wf(req.class_uid, req.instance_uid),
        data.channel is Data,
        data.is_terminal,
        find_context(s.contexts, data.context_id) is Some,
    ensures
        ({
            let (s1, r1) = step_item(s, cmd);
            let ctx = find_context(s.contexts, data.context_id).unwrap();
            let ack = rsp_elems(req.message_id, req.class_uid, req.instance_uid);
            &&& r1 == Ok::<Seq<ActionView>, SessionError>(Seq::empty())
            &&& s1.message_id == req.message_id
            &&& s1.class_uid == req.class_uid
            &&& s1.instance_uid == req.instance_uid
            &&& (obj_decodes(data.payload, ctx.data_encoding) && obj_class_of(
                data.payload,
                ctx.data_encoding,
            ) == Some(oc) && obj_instance_of(data.payload, ctx.data_encoding) == Some(oi))
                ==> ({
                let (s2, r2) = step_item(s1, data);
                &&& r2 == Ok::<Seq<ActionView>, SessionError>(
                    seq![
                        ActionView::Persist {
                            class_uid: oc,
                            instance_uid: oi,
                            data_encoding: ctx.data_encoding,
                            file_name: file_name_spec(oi),
                        },
                        ActionView::SendCommand {
                            context_id: data.context_id,
                            bytes: encoded_raws(ack),
                        },
                    ],
                )
                &&& s2.state == s1.state
            })
            &&& find_tag(ack, COMMAND_GROUP, TAG_MESSAGE_ID_BEING_RESPONDED_TO) == Some(
                u16_le(req.message_id),
            )
            &&& find_tag(ack, COMMAND_GROUP, TAG_AFFECTED_SOP_CLASS_UID) == Some(
                crate::codec::pad_even(req.class_uid),
            )
            &&& find_tag(ack, COMMAND_GROUP, TAG_AFFECTED_SOP_INSTANCE_UID) == Some(
                crate::codec::pad_even(req.instance_uid),
            )
            &&& find_tag(ack, COMMAND_GROUP, TAG_STATUS) == Some(u16_le(STATUS_SUCCESS))
            &&& find_tag(ack, COMMAND_GROUP, TAG_COMMAND_DATA_SET_TYPE) == Some(
                u16_le(NO_DATA_SET),
            )
            &&& find_tag(ack, COMMAND_GROUP, TAG_COMMAND_FIELD) == Some(
                u16_le(CMD_STORE_RESPONSE),
            )
        }),
{
    let (s1, r1) = step_item(s, cmd);
    assert(s1.contexts == s.contexts);
    assert(s1.acc.data =~= Seq::<u8>::empty());
    assert(s1.acc.data + data.payload =~= data.payload);
    let (s2, r2) = step_item(s1, data);
    lemma_rsp_fields(req.message_id, req.class_uid, req.instance_uid);
}

/// The storage path of a successful store is a function of the
/// decoded object's own instance identifier alone — never of the
/// identifiers the command message claimed.
pub proof fn lemma_persist_path(s: SessionView, item: ItemView, oc: Seq<char>, oi: Seq<char>)
    requires
        item.channel is Data,
        item.is_terminal,
    ensures
        ({
            let bytes = s.acc.data + item.payload;
            match find_context(s.contexts, item.context_id) {
                None => true,
                Some(ctx) => (obj_decodes(bytes, ctx.data_encoding) && obj_class_of(
                    bytes,
                    ctx.data_encoding,
                ) == Some(oc) && obj_instance_of(bytes, ctx.data_encoding) == Some(oi)) ==> ({
                    let (t, r) = step_item(s, item);
                    &&& r matches Ok(acts)
                    &&& acts.len() == 2
                    &&& (acts[0] matches ActionView::Persist { file_name, .. } && file_name
                        == file_name_spec(oi))
                }),
            }
        }),
{
}

/// Idempotent overwrite, the part the core decides: two objects
/// bearing the same instance identifier are directed to the same
/// deterministic path, whatever else their payloads hold.
pub proof fn lemma_idempotent_path(
    sa: SessionView,
    sb: SessionView,
    ia: ItemView,
    ib: ItemView,
    oca: Seq<char>,
    ocb: Seq<char>,
    oi: Seq<char>,
)
    requires
        ia.channel is Data,
        ia.is_terminal,
        ib.channel is Data,
        ib.is_terminal,
    ensures
        ({
            let ba = sa.acc.data + ia.payload;
            let bb = sb.acc.data + ib.payload;
            match (find_context(sa.contexts, ia.context_id), find_context(
                sb.contexts,
                ib.context_id,
            )) {
                (Some(ca), Some(cb)) => (obj_decodes(ba, ca.data_encoding) && obj_class_of(
                    ba,
                    ca.data_encoding,
                ) == Some(oca) && obj_instance_of(ba, ca.data_encoding) == Some(oi)
                    && obj_decodes(bb, cb.data_encoding) && obj_class_of(bb, cb.data_encoding)
                    == Some(ocb) && obj_instance_of(bb, cb.data_encoding) == Some(oi)) ==> ({
                    let (ta, ra) = step_item(sa, ia);
                    let (tb, rb) = step_item(sb, ib);
                    &&& ra matches Ok(aa)
                    &&& rb matches Ok(ab)
                    &&& (aa[0] matches ActionView::Persist { file_name: fa, .. } && (ab[0] matches
                    ActionView::Persist { file_name: fb, .. } && fa == fb))
                }),
                _ => true,
            }
        }),
{
    lemma_persist_path(sa, ia, oca, oi);
    lemma_persist_path(sb, ib, ocb, oi);
}

} // verus!
