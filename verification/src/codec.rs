//! Control Message Codec.
//!
//! Command-channel messages travel in one fixed sub-encoding
//! (Implicit VR Little Endian), independent of whatever data encoding
//! was negotiated for the bulk-data channel of the same context.
//! An encoded message is a flat run of elements; each element is a
//! little-endian group number (2 bytes), element number (2 bytes),
//! value length (4 bytes), and then the value bytes themselves.

use vstd::prelude::*;
use vstd::arithmetic::div_mod::lemma_fundamental_div_mod;

verus! {

/// Group number of every command-set field.
pub const COMMAND_GROUP: u16 = 0x0000;

/// Element number of the group-length field.
pub const TAG_COMMAND_GROUP_LENGTH: u16 = 0x0000;

/// Element number of the affected object-class identifier.
pub const TAG_AFFECTED_SOP_CLASS_UID: u16 = 0x0002;

/// Element number of the command field.
pub const TAG_COMMAND_FIELD: u16 = 0x0100;

/// Element number of the message identifier of a request.
pub const TAG_MESSAGE_ID: u16 = 0x0110;

/// Element number of the message identifier echoed by a response.
pub const TAG_MESSAGE_ID_BEING_RESPONDED_TO: u16 = 0x0120;

/// Element number of the data-set-type field.
pub const TAG_COMMAND_DATA_SET_TYPE: u16 = 0x0800;

/// Element number of the status field.
pub const TAG_STATUS: u16 = 0x0900;

/// Element number of the affected object-instance identifier.
pub const TAG_AFFECTED_SOP_INSTANCE_UID: u16 = 0x1000;

/// Command-field value identifying a store response.
pub const CMD_STORE_RESPONSE: u16 = 0x8001;

/// Data-set-type value saying that no data set follows.
pub const NO_DATA_SET: u16 = 0x0101;

/// Status value of a successful store.
pub const STATUS_SUCCESS: u16 = 0x0000;

/// One decoded element as the byte-level grammar sees it:
/// a tag and the raw value bytes. Used only in specifications.
#[verifier::ext_equal]
pub struct RawElement {
    pub group: u16,
    pub element: u16,
    pub value: Seq<u8>,
}

/// The value carried by one command-set element.
pub enum CommandValue {
    /// An unsigned 16-bit value (representation US).
    Ushort(u16),
    /// An unsigned 32-bit value (representation UL).
    Ulong(u32),
    /// An identifier string, kept as its raw bytes (representation UI).
    Uid(Vec<u8>),
}

/// One field of a control message.
pub struct CommandElement {
    pub group: u16,
    pub element: u16,
    pub value: CommandValue,
}

/// A control message: a flat run of command-set fields.
pub struct ControlMessage {
    pub elements: Vec<CommandElement>,
}

/// The two little-endian bytes of a 16-bit value.
pub open spec fn u16_le(v: u16) -> Seq<u8> {
    seq![(v as int % 256) as u8, (v as int / 256) as u8]
}

/// The four little-endian bytes of a 32-bit value.
pub open spec fn u32_le(v: u32) -> Seq<u8> {
    seq![
        (v as int % 256) as u8,
        (v as int / 256 % 256) as u8,
        (v as int / 65536 % 256) as u8,
        (v as int / 16777216) as u8,
    ]
}

/// The 16-bit value read from two little-endian bytes.
pub open spec fn le16(b0: u8, b1: u8) -> u16 {
    (b0 as int + 256 * (b1 as int)) as u16
}

/// The value read from four little-endian bytes.
pub open spec fn le32(b0: u8, b1: u8, b2: u8, b3: u8) -> int {
    b0 as int + 256 * (b1 as int) + 65536 * (b2 as int) + 16777216 * (b3 as int)
}

/// A value padded to even length with one NUL byte, as identifier
/// values are written on the wire.
pub open spec fn pad_even(v: Seq<u8>) -> Seq<u8> {
    if v.len() % 2 == 1 {
        v.push(0)
    } else {
        v
    }
}

/// The bytes of one element's value.
pub open spec fn value_bytes(v: CommandValue) -> Seq<u8> {
    match v {
        CommandValue::Ushort(x) => u16_le(x),
        CommandValue::Ulong(x) => u32_le(x),
        CommandValue::Uid(b) => pad_even(b@),
    }
}

/// The raw view of one field.
pub open spec fn raw_of(e: CommandElement) -> RawElement {
    RawElement { group: e.group, element: e.element, value: value_bytes(e.value) }
}

impl View for ControlMessage {
    type V = Seq<RawElement>;

    open spec fn view(&self) -> Seq<RawElement> {
        self.elements@.map(|i: int, e: CommandElement| raw_of(e))
    }
}

/// A value small enough for its length to fit the 4-byte length field.
pub open spec fn raw_wf(e: RawElement) -> bool {
    e.value.len() <= 0xFFFF_FFFF
}

pub open spec fn raws_wf(es: Seq<RawElement>) -> bool {
    forall|i: int| 0 <= i < es.len() ==> raw_wf(#[trigger] es[i])
}

/// The encoded bytes of one element.
pub open spec fn encoded_raw(e: RawElement) -> Seq<u8> {
    u16_le(e.group) + u16_le(e.element) + u32_le(e.value.len() as u32) + e.value
}

/// The encoded bytes of a run of elements, in order.
pub open spec fn encoded_raws(es: Seq<RawElement>) -> Seq<u8>
    decreases es.len(),
{
    if es.len() == 0 {
        Seq::empty()
    } else {
        encoded_raw(es[0]) + encoded_raws(es.drop_first())
    }
}

/// The element run recovered from encoded bytes, or `None` where the
/// bytes do not follow the fixed sub-encoding (a truncated header or
/// a length that runs past the end).
pub open spec fn parse_elements(b: Seq<u8>) -> Option<Seq<RawElement>>
    decreases b.len(),
{
    if b.len() == 0 {
        Some(Seq::empty())
    } else if b.len() < 8 {
        None
    } else {
        let l = le32(b[4], b[5], b[6], b[7]);
        if b.len() < 8 + l {
            None
        } else {
            match parse_elements(b.skip(8 + l)) {
                None => None,
                Some(rest) => Some(
                    seq![
                        RawElement {
                            group: le16(b[0], b[1]),
                            element: le16(b[2], b[3]),
                            value: b.subrange(8, 8 + l),
                        },
                    ] + rest,
                ),
            }
        }
    }
}

/// The value of the last element bearing the given tag, if any.
pub open spec fn find_tag(es: Seq<RawElement>, group: u16, element: u16) -> Option<Seq<u8>>
    decreases es.len(),
{
    if es.len() == 0 {
        None
    } else if es.last().group == group && es.last().element == element {
        Some(es.last().value)
    } else {
        find_tag(es.drop_last(), group, element)
    }
}

/// Appending one element to a run appends its encoding to the bytes.
pub proof fn lemma_encoded_raws_snoc(es: Seq<RawElement>, e: RawElement)
    ensures
        encoded_raws(es.push(e)) == encoded_raws(es) + encoded_raw(e),
    decreases es.len(),
{
    if es.len() == 0 {
        assert(es.push(e)[0] == e);
        assert(es.push(e).drop_first() =~= Seq::<RawElement>::empty());
        assert(encoded_raws(Seq::<RawElement>::empty()) =~= Seq::<u8>::empty());
        assert(encoded_raws(es.push(e)) =~= encoded_raw(e));
        assert(encoded_raws(es) + encoded_raw(e) =~= encoded_raw(e));
    } else {
        assert(es.push(e)[0] == es[0]);
        assert(es.push(e).drop_first() =~= es.drop_first().push(e));
        lemma_encoded_raws_snoc(es.drop_first(), e);
        assert(encoded_raws(es.push(e)) =~= encoded_raws(es) + encoded_raw(e));
    }
}

/// Encoding a well-formed element run and parsing the bytes back
/// recovers exactly the same run.
pub proof fn lemma_parse_encoded(es: Seq<RawElement>)
    requires
        raws_wf(es),
    ensures
        parse_elements(encoded_raws(es)) == Some(es),
    decreases es.len(),
{
    if es.len() == 0 {
        assert(encoded_raws(es).len() == 0);
        assert(parse_elements(encoded_raws(es)) == Some(Seq::<RawElement>::empty()));
        assert(Seq::<RawElement>::empty() =~= es);
    } else {
        let e = es[0];
        let rest = es.drop_first();
        let head = encoded_raw(e);
        let tail = encoded_raws(rest);
        let b = encoded_raws(es);
        assert(b == head + tail);
        assert(raw_wf(e));
        let lv = (e.value.len() as u32);
        assert(head =~= u16_le(e.group) + u16_le(e.element) + u32_le(lv) + e.value);
        assert(head.len() == 8 + e.value.len());
        assert(b.len() >= 8);
        assert(b[0] == u16_le(e.group)[0] && b[1] == u16_le(e.group)[1]);
        assert(b[2] == u16_le(e.element)[0] && b[3] == u16_le(e.element)[1]);
        assert(b[4] == u32_le(lv)[0] && b[5] == u32_le(lv)[1] && b[6] == u32_le(lv)[2] && b[7]
            == u32_le(lv)[3]);
        lemma_u16_le_roundtrip(e.group);
        lemma_u16_le_roundtrip(e.element);
        lemma_u32_le_roundtrip(lv);
        let l = le32(b[4], b[5], b[6], b[7]);
        assert(l == e.value.len());
        assert(b.len() == 8 + l + tail.len());
        assert(b.subrange(8, 8 + l) =~= e.value);
        assert(b.skip(8 + l) =~= tail);
        assert(forall|i: int| 0 <= i < rest.len() ==> rest[i] == es[i + 1]);
        lemma_parse_encoded(rest);
        assert(parse_elements(b.skip(8 + l)) == Some(rest));
        let got = RawElement {
            group: le16(b[0], b[1]),
            element: le16(b[2], b[3]),
            value: b.subrange(8, 8 + l),
        };
        assert(got =~= e);
        assert(seq![got] + rest =~= es);
        assert(parse_elements(b) == Some(seq![got] + rest));
    }
}

/// The identifiers carried by an inbound store request:
/// the message identifier and the affected class and instance
/// identifiers, the latter two as their raw value bytes.
#[derive(Debug, PartialEq, Eq)]
pub struct StoreRequest {
    pub message_id: u16,
    pub class_uid: Vec<u8>,
    pub instance_uid: Vec<u8>,
}

/// The mathematical content of a [`StoreRequest`].
#[verifier::ext_equal]
pub struct StoreRequestView {
    pub message_id: u16,
    pub class_uid: Seq<u8>,
    pub instance_uid: Seq<u8>,
}

impl View for StoreRequest {
    type V = StoreRequestView;

    open spec fn view(&self) -> StoreRequestView {
        StoreRequestView {
            message_id: self.message_id,
            class_uid: self.class_uid@,
            instance_uid: self.instance_uid@,
        }
    }
}

/// Why decoding an inbound command message failed. Any of these is
/// fatal to the session.
#[derive(Clone, Copy, Debug, PartialEq, Eq, Structural)]
pub enum DecodeError {
    /// The bytes do not follow the fixed sub-encoding.
    Malformed,
    /// No message-identifier field is present.
    MissingMessageId,
    /// The message-identifier field is not a 16-bit integer.
    InvalidMessageId,
    /// No affected-class identifier is present.
    MissingClassUid,
    /// No affected-instance identifier is present.
    MissingInstanceUid,
}

/// What decoding a command-channel byte sequence yields: the three
/// identifiers of a store request, or the first error found, in the
/// order message id, class, instance.
pub open spec fn spec_decode_request(b: Seq<u8>) -> Result<StoreRequestView, DecodeError> {
    match parse_elements(b) {
        None => Err(DecodeError::Malformed),
        Some(es) => match find_tag(es, COMMAND_GROUP, TAG_MESSAGE_ID) {
            None => Err(DecodeError::MissingMessageId),
            Some(mv) => if mv.len() != 2 {
                Err(DecodeError::InvalidMessageId)
            } else {
                match find_tag(es, COMMAND_GROUP, TAG_AFFECTED_SOP_CLASS_UID) {
                    None => Err(DecodeError::MissingClassUid),
                    Some(cv) => match find_tag(es, COMMAND_GROUP, TAG_AFFECTED_SOP_INSTANCE_UID) {
                        None => Err(DecodeError::MissingInstanceUid),
                        Some(iv) => Ok(
                            StoreRequestView {
                                message_id: le16(mv[0], mv[1]),
                                class_uid: cv,
                                instance_uid: iv,
                            },
                        ),
                    },
                }
            },
        },
    }
}

/// The view of a decode result.
pub open spec fn decode_result_view(r: Result<StoreRequest, DecodeError>) -> Result<
    StoreRequestView,
    DecodeError,
> {
    match r {
        Ok(q) => Ok(q@),
        Err(e) => Err(e),
    }
}

/// Decodes an accumulated command-channel byte sequence under the
/// fixed sub-encoding and extracts the store-request identifiers.
pub fn decode_store_request(b: &Vec<u8>) -> (r: Result<StoreRequest, DecodeError>)
    ensures
        decode_result_view(r) == spec_decode_request(b@),
{
    let n = b.len();
    let mut pos: usize = 0;
    let ghost mut done: Seq<RawElement> = Seq::empty();
    let mut msg: Option<Vec<u8>> = None;
    let mut class: Option<Vec<u8>> = None;
    let mut instance: Option<Vec<u8>> = None;
    proof {
        assert(b@.skip(0) =~= b@);
    }
    while pos < n
        invariant
            pos <= n,
            n == b@.len(),
            parse_elements(b@) == match parse_elements(b@.skip(pos as int)) {
                None => None::<Seq<RawElement>>,
                Some(rest) => Some(done + rest),
            },
            option_view(msg) == find_tag(done, COMMAND_GROUP, TAG_MESSAGE_ID),
            option_view(class) == find_tag(done, COMMAND_GROUP, TAG_AFFECTED_SOP_CLASS_UID),
            option_view(instance) == find_tag(done, COMMAND_GROUP, TAG_AFFECTED_SOP_INSTANCE_UID),
        decreases n - pos,
    {
        let ghost tail = b@.skip(pos as int);
        if n - pos < 8 {
            proof {
                assert(tail.len() == n - pos);
                assert(parse_elements(tail) is None);
            }
            return Err(DecodeError::Malformed);
        }
        let g = b[pos] as u16 + (b[pos + 1] as u16) * 256;
        let el = b[pos + 2] as u16 + (b[pos + 3] as u16) * 256;
        let l: u32 = b[pos + 4] as u32 + (b[pos + 5] as u32) * 256 + (b[pos + 6] as u32) * 65536 + (
        b[pos + 7] as u32) * 16777216;
        proof {
            assert(tail.len() == n - pos);
            assert(tail[0] == b@[pos as int] && tail[1] == b@[pos as int + 1] && tail[2] == b@[pos
                as int + 2] && tail[3] == b@[pos as int + 3] && tail[4] == b@[pos as int + 4]
                && tail[5] == b@[pos as int + 5] && tail[6] == b@[pos as int + 6] && tail[7] == b@[
            pos as int + 7]);
            assert(g == le16(tail[0], tail[1]));
            assert(el == le16(tail[2], tail[3]));
            assert(l as int == le32(tail[4], tail[5], tail[6], tail[7]));
        }
        let remaining = n - pos - 8;
        if (l as u64) > (remaining as u64) {
            proof {
                assert(tail.len() < 8 + le32(tail[4], tail[5], tail[6], tail[7]));
                assert(parse_elements(tail) is None);
            }
            return Err(DecodeError::Malformed);
        }
        let lsz = l as usize;
        let value = copy_range(b, pos + 8, pos + 8 + lsz);
        let ghost raw = RawElement { group: g, element: el, value: value@ };
        proof {
            let li = le32(tail[4], tail[5], tail[6], tail[7]);
            assert(tail.subrange(8, 8 + li) =~= b@.subrange(
                pos as int + 8,
                pos as int + 8 + li,
            ));
            assert(tail.skip(8 + li) =~= b@.skip(pos as int + 8 + li));
            assert(parse_elements(tail) == match parse_elements(b@.skip(pos as int + 8 + li)) {
                None => None::<Seq<RawElement>>,
                Some(rest) => Some(seq![raw] + rest),
            });
            if parse_elements(b@.skip(pos as int + 8 + li)) is Some {
                let rest = parse_elements(b@.skip(pos as int + 8 + li)).unwrap();
                assert(done + (seq![raw] + rest) =~= done.push(raw) + rest);
            }
            assert(done.push(raw).drop_last() =~= done);
            assert(done.push(raw).last() == raw);
        }
        if g == COMMAND_GROUP && el == TAG_MESSAGE_ID {
            msg = Some(value);
        } else if g == COMMAND_GROUP && el == TAG_AFFECTED_SOP_CLASS_UID {
            class = Some(value);
        } else if g == COMMAND_GROUP && el == TAG_AFFECTED_SOP_INSTANCE_UID {
            instance = Some(value);
        }
        proof {
            done = done.push(raw);
        }
        pos = pos + 8 + lsz;
    }
    proof {
        assert(b@.skip(n as int).len() == 0);
        assert(parse_elements(b@.skip(n as int)) == Some(Seq::<RawElement>::empty()));
        assert(done + Seq::<RawElement>::empty() =~= done);
        assert(parse_elements(b@) == Some(done));
    }
    let mv = match msg {
        None => { return Err(DecodeError::MissingMessageId) },
        Some(mv) => mv,
    };
    if mv.len() != 2 {
        return Err(DecodeError::InvalidMessageId);
    }
    let cv = match class {
        None => { return Err(DecodeError::MissingClassUid) },
        Some(cv) => cv,
    };
    let iv = match instance {
        None => { return Err(DecodeError::MissingInstanceUid) },
        Some(iv) => iv,
    };
    let message_id = mv[0] as u16 + (mv[1] as u16) * 256;
    Ok(StoreRequest { message_id, class_uid: cv, instance_uid: iv })
}

/// The byte length of a run of elements, header bytes included.
pub open spec fn raws_len(es: Seq<RawElement>) -> int
    decreases es.len(),
{
    if es.len() == 0 {
        0
    } else {
        8 + es[0].value.len() + raws_len(es.drop_first())
    }
}

/// The encoding of a run is exactly as long as `raws_len` says.
pub proof fn lemma_encoded_raws_len(es: Seq<RawElement>)
    ensures
        encoded_raws(es).len() == raws_len(es),
    decreases es.len(),
{
    if es.len() == 0 {
    } else {
        lemma_encoded_raws_len(es.drop_first());
    }
}

/// The group length a store acknowledgement must carry: the encoded
/// byte length of every field that follows the group-length field,
/// identifier padding included.
pub open spec fn rsp_group_length(c: Seq<u8>, i: Seq<u8>) -> int {
    56 + pad_even(c).len() as int + pad_even(i).len() as int
}

/// The fields of a store acknowledgement correlated to a request with
/// message id `m`, class identifier `c` and instance identifier `i`.
pub open spec fn rsp_elems(m: u16, c: Seq<u8>, i: Seq<u8>) -> Seq<RawElement> {
    seq![
        RawElement {
            group: COMMAND_GROUP,
            element: TAG_COMMAND_GROUP_LENGTH,
            value: u32_le(rsp_group_length(c, i) as u32),
        },
        RawElement {
            group: COMMAND_GROUP,
            element: TAG_AFFECTED_SOP_CLASS_UID,
            value: pad_even(c),
        },
        RawElement {
            group: COMMAND_GROUP,
            element: TAG_COMMAND_FIELD,
            value: u16_le(CMD_STORE_RESPONSE),
        },
        RawElement {
            group: COMMAND_GROUP,
            element: TAG_MESSAGE_ID_BEING_RESPONDED_TO,
            value: u16_le(m),
        },
        RawElement { group: COMMAND_GROUP, element: TAG_COMMAND_DATA_SET_TYPE, value: u16_le(NO_DATA_SET) },
        RawElement { group: COMMAND_GROUP, element: TAG_STATUS, value: u16_le(STATUS_SUCCESS) },
        RawElement {
            group: COMMAND_GROUP,
            element: TAG_AFFECTED_SOP_INSTANCE_UID,
            value: pad_even(i),
        },
    ]
}

/// The identifiers fit the length fields of the fixed sub-encoding,
/// padding included.
pub open spec fn uids_wf(c: Seq<u8>, i: Seq<u8>) -> bool {
    c.len() + i.len() + 58 <= 0xFFFF_FFFF
}

/// Copies a byte vector.
pub(crate) fn clone_bytes(v: &Vec<u8>) -> (r: Vec<u8>)
    ensures
        r@ == v@,
{
    let r = copy_range(v, 0, v.len());
    proof {
        assert(v@.subrange(0, v@.len() as int) =~= v@);
    }
    r
}

/// Builds the store acknowledgement for the request identified by
/// `message_id`, `sop_class_uid` and `sop_instance_uid`: command
/// field "store response", data-set-type "no data set", status
/// success, class and instance identifiers echoed (padded to even
/// length on the wire), and a group length equal to the encoded
/// byte length of all following fields, padding included.
pub fn create_cstore_response(
    message_id: u16,
    sop_class_uid: &Vec<u8>,
    sop_instance_uid: &Vec<u8>,
) -> (r: ControlMessage)
    requires
        uids_wf(sop_class_uid@, sop_instance_uid@),
    ensures
        r@ == rsp_elems(message_id, sop_class_uid@, sop_instance_uid@),
{
    let clen: u64 = sop_class_uid.len() as u64;
    let ilen: u64 = sop_instance_uid.len() as u64;
    let glen: u32 = (clen + clen % 2 + ilen + ilen % 2 + 56) as u32;
    let mut elements: Vec<CommandElement> = Vec::new();
    elements.push(
        CommandElement {
            group: COMMAND_GROUP,
            element: TAG_COMMAND_GROUP_LENGTH,
            value: CommandValue::Ulong(glen),
        },
    );
    elements.push(
        CommandElement {
            group: COMMAND_GROUP,
            element: TAG_AFFECTED_SOP_CLASS_UID,
            value: CommandValue::Uid(clone_bytes(sop_class_uid)),
        },
    );
    elements.push(
        CommandElement {
            group: COMMAND_GROUP,
            element: TAG_COMMAND_FIELD,
            value: CommandValue::Ushort(CMD_STORE_RESPONSE),
        },
    );
    elements.push(
        CommandElement {
            group: COMMAND_GROUP,
            element: TAG_MESSAGE_ID_BEING_RESPONDED_TO,
            value: CommandValue::Ushort(message_id),
        },
    );
    elements.push(
        CommandElement {
            group: COMMAND_GROUP,
            element: TAG_COMMAND_DATA_SET_TYPE,
            value: CommandValue::Ushort(NO_DATA_SET),
        },
    );
    elements.push(
        CommandElement {
            group: COMMAND_GROUP,
            element: TAG_STATUS,
            value: CommandValue::Ushort(STATUS_SUCCESS),
        },
    );
    elements.push(
        CommandElement {
            group: COMMAND_GROUP,
            element: TAG_AFFECTED_SOP_INSTANCE_UID,
            value: CommandValue::Uid(clone_bytes(sop_instance_uid)),
        },
    );
    let r = ControlMessage { elements };
    proof {
        assert(r@ =~~= rsp_elems(message_id, sop_class_uid@, sop_instance_uid@));
    }
    r
}

/// The acknowledgement's group-length field equals the encoded byte
/// length of every field after it, and its run is well formed.
pub proof fn lemma_rsp_group_length(m: u16, c: Seq<u8>, i: Seq<u8>)
    requires
        uids_wf(c, i),
    ensures
        raws_wf(rsp_elems(m, c, i)),
        encoded_raws(rsp_elems(m, c, i).drop_first()).len() == rsp_group_length(c, i),
{
    let es = rsp_elems(m, c, i);
    let t = es.drop_first();
    lemma_encoded_raws_len(t);
    assert(raws_len(t) == rsp_group_length(c, i)) by {
        reveal_with_fuel(raws_len, 8);
        assert(t.len() == 6);
        assert(t[0] == es[1] && t[1] == es[2] && t[2] == es[3] && t[3] == es[4] && t[4] == es[5]
            && t[5] == es[6]);
        assert(t.drop_first() =~= seq![es[2], es[3], es[4], es[5], es[6]]);
        assert(t.drop_first().drop_first() =~= seq![es[3], es[4], es[5], es[6]]);
        assert(t.drop_first().drop_first().drop_first() =~= seq![es[4], es[5], es[6]]);
        assert(t.drop_first().drop_first().drop_first().drop_first() =~= seq![es[5], es[6]]);
        assert(t.drop_first().drop_first().drop_first().drop_first().drop_first() =~= seq![es[6]]);
        assert(t.drop_first().drop_first().drop_first().drop_first().drop_first().drop_first()
            =~= Seq::<RawElement>::empty());
    }
}

/// The acknowledgement carries exactly the echoed identifiers, the
/// fixed command field, data-set-type, and success status.
pub proof fn lemma_rsp_fields(m: u16, c: Seq<u8>, i: Seq<u8>)
    ensures
        find_tag(rsp_elems(m, c, i), COMMAND_GROUP, TAG_MESSAGE_ID_BEING_RESPONDED_TO) == Some(
            u16_le(m),
        ),
        find_tag(rsp_elems(m, c, i), COMMAND_GROUP, TAG_AFFECTED_SOP_CLASS_UID) == Some(
            pad_even(c),
        ),
        find_tag(rsp_elems(m, c, i), COMMAND_GROUP, TAG_AFFECTED_SOP_INSTANCE_UID) == Some(
            pad_even(i),
        ),
        find_tag(rsp_elems(m, c, i), COMMAND_GROUP, TAG_COMMAND_FIELD) == Some(
            u16_le(CMD_STORE_RESPONSE),
        ),
        find_tag(rsp_elems(m, c, i), COMMAND_GROUP, TAG_COMMAND_DATA_SET_TYPE) == Some(
            u16_le(NO_DATA_SET),
        ),
        find_tag(rsp_elems(m, c, i), COMMAND_GROUP, TAG_STATUS) == Some(u16_le(STATUS_SUCCESS)),
        find_tag(rsp_elems(m, c, i), COMMAND_GROUP, TAG_COMMAND_GROUP_LENGTH) == Some(
            u32_le(rsp_group_length(c, i) as u32),
        ),
{
    reveal_with_fuel(find_tag, 9);
    let es = rsp_elems(m, c, i);
    assert(es.drop_last() =~= seq![es[0], es[1], es[2], es[3], es[4], es[5]]);
    assert(es.drop_last().drop_last() =~= seq![es[0], es[1], es[2], es[3], es[4]]);
    assert(es.drop_last().drop_last().drop_last() =~= seq![es[0], es[1], es[2], es[3]]);
    assert(es.drop_last().drop_last().drop_last().drop_last() =~= seq![es[0], es[1], es[2]]);
    assert(es.drop_last().drop_last().drop_last().drop_last().drop_last() =~= seq![es[0], es[1]]);
    assert(es.drop_last().drop_last().drop_last().drop_last().drop_last().drop_last() =~= seq![
        es[0],
    ]);
    assert(es.drop_last().drop_last().drop_last().drop_last().drop_last().drop_last().drop_last()
        =~= Seq::<RawElement>::empty());
}

/// The fields of an inbound store request with message id `m`, class
/// identifier `c` and instance identifier `i`, as a sender encodes
/// them.
pub open spec fn req_elems(m: u16, c: Seq<u8>, i: Seq<u8>) -> Seq<RawElement> {
    seq![
        RawElement { group: COMMAND_GROUP, element: TAG_AFFECTED_SOP_CLASS_UID, value: c },
        RawElement { group: COMMAND_GROUP, element: TAG_COMMAND_FIELD, value: u16_le(1) },
        RawElement { group: COMMAND_GROUP, element: TAG_MESSAGE_ID, value: u16_le(m) },
        RawElement { group: COMMAND_GROUP, element: TAG_COMMAND_DATA_SET_TYPE, value: u16_le(1) },
        RawElement { group: COMMAND_GROUP, element: TAG_AFFECTED_SOP_INSTANCE_UID, value: i },
    ]
}

/// A byte sequence that parses to an element run carrying the three
/// request identifiers decodes to exactly those identifiers.
pub proof fn lemma_decode_of_parsed(b: Seq<u8>, es: Seq<RawElement>, m: u16, c: Seq<u8>, i: Seq<u8>)
    requires
        parse_elements(b) == Some(es),
        find_tag(es, COMMAND_GROUP, TAG_MESSAGE_ID) == Some(u16_le(m)),
        find_tag(es, COMMAND_GROUP, TAG_AFFECTED_SOP_CLASS_UID) == Some(c),
        find_tag(es, COMMAND_GROUP, TAG_AFFECTED_SOP_INSTANCE_UID) == Some(i),
    ensures
        spec_decode_request(b) == Ok::<StoreRequestView, DecodeError>(
            StoreRequestView { message_id: m, class_uid: c, instance_uid: i },
        ),
{
    lemma_u16_le_roundtrip(m);
    assert(u16_le(m).len() == 2);
}

/// Encoding a store request under the fixed sub-encoding and decoding
/// the bytes recovers its three identifiers exactly. The decoder
/// never consults any negotiated data encoding.
#[verifier::rlimit(100)]
#[verifier::spinoff_prover]
pub proof fn lemma_store_request_roundtrip(m: u16, c: Seq<u8>, i: Seq<u8>)
    requires
        c.len() <= 0xFFFF_FFFF,
        i.len() <= 0xFFFF_FFFF,
    ensures
        spec_decode_request(encoded_raws(req_elems(m, c, i))) == Ok::<StoreRequestView, DecodeError>(
            StoreRequestView { message_id: m, class_uid: c, instance_uid: i },
        ),
{
    let es = req_elems(m, c, i);
    assert(raws_wf(es)) by {
        assert forall|k: int| 0 <= k < es.len() implies raw_wf(#[trigger] es[k]) by {
            if k == 0 {
                assert(raw_wf(es[0]));
            } else if k == 1 {
                assert(raw_wf(es[1]));
            } else if k == 2 {
                assert(raw_wf(es[2]));
            } else if k == 3 {
                assert(raw_wf(es[3]));
            } else {
                assert(raw_wf(es[4]));
            }
        }
    }
    lemma_parse_encoded(es);
    let d4 = es.drop_last();
    let d3 = d4.drop_last();
    let d2 = d3.drop_last();
    let d1 = d2.drop_last();
    let d0 = d1.drop_last();
    assert(d4 =~= seq![es[0], es[1], es[2], es[3]]);
    assert(d3 =~= seq![es[0], es[1], es[2]]);
    assert(d2 =~= seq![es[0], es[1]]);
    assert(d1 =~= seq![es[0]]);
    assert(d0 =~= Seq::<RawElement>::empty());
    assert(find_tag(es, COMMAND_GROUP, TAG_MESSAGE_ID) == Some(u16_le(m))) by {
        assert(find_tag(es, COMMAND_GROUP, TAG_MESSAGE_ID) == find_tag(
            d4,
            COMMAND_GROUP,
            TAG_MESSAGE_ID,
        ));
        assert(find_tag(d4, COMMAND_GROUP, TAG_MESSAGE_ID) == find_tag(
            d3,
            COMMAND_GROUP,
            TAG_MESSAGE_ID,
        ));
        assert(find_tag(d3, COMMAND_GROUP, TAG_MESSAGE_ID) == Some(u16_le(m)));
    }
    assert(find_tag(es, COMMAND_GROUP, TAG_AFFECTED_SOP_CLASS_UID) == Some(c)) by {
        assert(find_tag(es, COMMAND_GROUP, TAG_AFFECTED_SOP_CLASS_UID) == find_tag(
            d4,
            COMMAND_GROUP,
            TAG_AFFECTED_SOP_CLASS_UID,
        ));
        assert(find_tag(d4, COMMAND_GROUP, TAG_AFFECTED_SOP_CLASS_UID) == find_tag(
            d3,
            COMMAND_GROUP,
            TAG_AFFECTED_SOP_CLASS_UID,
        ));
        assert(find_tag(d3, COMMAND_GROUP, TAG_AFFECTED_SOP_CLASS_UID) == find_tag(
            d2,
            COMMAND_GROUP,
            TAG_AFFECTED_SOP_CLASS_UID,
        ));
        assert(find_tag(d2, COMMAND_GROUP, TAG_AFFECTED_SOP_CLASS_UID) == find_tag(
            d1,
            COMMAND_GROUP,
            TAG_AFFECTED_SOP_CLASS_UID,
        ));
        assert(find_tag(d1, COMMAND_GROUP, TAG_AFFECTED_SOP_CLASS_UID) == Some(c));
    }
    assert(find_tag(es, COMMAND_GROUP, TAG_AFFECTED_SOP_INSTANCE_UID) == Some(i)) by {
        assert(es.last() == es[4]);
    }
    lemma_decode_of_parsed(encoded_raws(es), es, m, c, i);
}

/// The view of an optional byte vector.
pub open spec fn option_view(o: Option<Vec<u8>>) -> Option<Seq<u8>> {
    match o {
        None => None,
        Some(v) => Some(v@),
    }
}

/// Appends the two little-endian bytes of `v`.
fn push_u16_le(out: &mut Vec<u8>, v: u16)
    ensures
        final(out)@ == old(out)@ + u16_le(v),
{
    out.push((v % 256) as u8);
    out.push((v / 256) as u8);
    assert(final(out)@ =~= old(out)@ + u16_le(v));
}

/// Appends the four little-endian bytes of `v`.
fn push_u32_le(out: &mut Vec<u8>, v: u32)
    ensures
        final(out)@ == old(out)@ + u32_le(v),
{
    out.push((v % 256) as u8);
    out.push((v / 256 % 256) as u8);
    out.push((v / 65536 % 256) as u8);
    out.push((v / 16777216) as u8);
    assert(final(out)@ =~= old(out)@ + u32_le(v));
}

/// Appends every byte of `src` to `out`, in order.
pub(crate) fn push_all(out: &mut Vec<u8>, src: &Vec<u8>)
    ensures
        final(out)@ == old(out)@ + src@,
{
    let n = src.len();
    let mut j: usize = 0;
    while j < n
        invariant
            j <= n,
            n == src@.len(),
            out@ == old(out)@ + src@.take(j as int),
        decreases n - j,
    {
        out.push(src[j]);
        proof {
            assert(src@.take(j as int + 1) =~= src@.take(j as int).push(src@[j as int]));
            assert(out@ =~= old(out)@ + src@.take(j as int + 1));
        }
        j = j + 1;
    }
    assert(src@.take(n as int) =~= src@);
}

/// Copies the byte range `[start, end)` of `b` into a fresh vector.
pub(crate) fn copy_range(b: &Vec<u8>, start: usize, end: usize) -> (r: Vec<u8>)
    requires
        start <= end <= b@.len(),
    ensures
        r@ == b@.subrange(start as int, end as int),
{
    let mut r: Vec<u8> = Vec::new();
    let mut j: usize = start;
    while j < end
        invariant
            start <= j <= end <= b@.len(),
            r@ == b@.subrange(start as int, j as int),
        decreases end - j,
    {
        r.push(b[j]);
        proof {
            assert(b@.subrange(start as int, j as int + 1) =~= b@.subrange(
                start as int,
                j as int,
            ).push(b@[j as int]));
        }
        j = j + 1;
    }
    r
}

/// Serializes a control message in the fixed sub-encoding.
pub fn encode_control_message(m: &ControlMessage) -> (r: Vec<u8>)
    requires
        raws_wf(m@),
    ensures
        r@ == encoded_raws(m@),
{
    let mut out: Vec<u8> = Vec::new();
    let n = m.elements.len();
    let mut i: usize = 0;
    while i < n
        invariant
            i <= n,
            n == m.elements@.len(),
            raws_wf(m@),
            m@.len() == m.elements@.len(),
            out@ == encoded_raws(m@.take(i as int)),
        decreases n - i,
    {
        proof {
            assert(m@[i as int] == raw_of(m.elements@[i as int]));
            assert(raw_wf(m@[i as int]));
            assert(m@.take(i as int + 1) =~= m@.take(i as int).push(m@[i as int]));
            lemma_encoded_raws_snoc(m@.take(i as int), m@[i as int]);
        }
        let e = &m.elements[i];
        push_u16_le(&mut out, e.group);
        push_u16_le(&mut out, e.element);
        let ghost out_before_value = out@;
        match &e.value {
            CommandValue::Ushort(x) => {
                push_u32_le(&mut out, 2);
                push_u16_le(&mut out, *x);
            },
            CommandValue::Ulong(x) => {
                push_u32_le(&mut out, 4);
                push_u32_le(&mut out, *x);
            },
            CommandValue::Uid(v) => {
                let vl: u64 = v.len() as u64;
                push_u32_le(&mut out, (vl + vl % 2) as u32);
                push_all(&mut out, v);
                if v.len() % 2 == 1 {
                    out.push(0);
                }
                proof {
                    assert(out@ =~= out_before_value + u32_le((vl + vl % 2) as u32) + pad_even(
                        v@,
                    ));
                }
            },
        }
        proof {
            assert(out@ =~= encoded_raws(m@.take(i as int)) + encoded_raw(m@[i as int]));
        }
        i = i + 1;
    }
    proof {
        assert(m@.take(n as int) =~= m@);
    }
    out
}

proof fn lemma_u16_le_roundtrip(v: u16)
    ensures
        le16(u16_le(v)[0], u16_le(v)[1]) == v,
{
    lemma_fundamental_div_mod(v as int, 256);
}

proof fn lemma_u32_le_roundtrip(v: u32)
    ensures
        le32(u32_le(v)[0], u32_le(v)[1], u32_le(v)[2], u32_le(v)[3]) == v as int,
{
    lemma_fundamental_div_mod(v as int, 256);
    lemma_fundamental_div_mod(v as int / 256, 256);
    lemma_fundamental_div_mod(v as int / 256 / 256, 256);
    assert(v as int / 256 / 256 == v as int / 65536) by (nonlinear_arith);
    assert(v as int / 65536 / 256 == v as int / 16777216) by (nonlinear_arith);
}

} // verus!
