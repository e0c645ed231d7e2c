//! Binary codec for the three-field envelope exchanged over the overlay.
//!
//! The wire form is a fixed nine-byte header followed by the payload: the
//! request id as eight little-endian bytes, one type-tag byte, then the raw
//! payload bytes. Decoding never aborts: malformed input is reported as a
//! typed [`DecodeError`].

use vstd::bytes::lemma_auto_spec_u64_to_from_le_bytes;
use vstd::bytes::spec_u64_from_le_bytes;
use vstd::bytes::spec_u64_to_le_bytes;
use vstd::bytes::u64_from_le_bytes;
use vstd::bytes::u64_to_le_bytes;
use vstd::prelude::*;
use vstd::slice::slice_index_get;
use vstd::slice::slice_subrange;
use vstd::slice::slice_to_vec;
use vstd::string::StrSliceExecFns;
use vstd::string::StringSliceAdditionalSpecFns;
use vstd::utf8::decode_utf8;
use vstd::utf8::valid_utf8;

verus! {

/// The closed set of message kinds carried by an envelope.
#[derive(Clone, Copy, Debug, PartialEq, Eq, Structural)]
pub enum MsgType {
    /// Reserved extension point; currently a no-op everywhere.
    Control,
    /// A response carrying a resolved value; consumed by clients.
    Notification,
    /// A request to store a key-value pair; consumed by the server.
    SetValue,
    /// A request for the value of a key; consumed by the server.
    Get,
}

/// Why a byte sequence was rejected by [`decode`].
#[derive(Clone, Copy, Debug, PartialEq, Eq, Structural)]
pub enum DecodeError {
    /// Fewer bytes than the fixed header takes.
    Truncated,
    /// The type-tag byte names no message kind.
    UnknownTag,
}

/// The envelope: a correlation id, a message kind, and an opaque payload
/// whose interpretation depends on the kind (a key name for `Get`, a
/// key-value pair for `Set`, a value string for `Notification`).
#[derive(Clone, Debug, PartialEq, Eq)]
pub struct Message {
    pub id: u64,
    pub msgtype: MsgType,
    pub payload: Vec<u8>,
}

/// The mathematical value of an envelope, with the payload as a sequence.
#[verifier::ext_equal]
pub struct MessageView {
    pub id: u64,
    pub msgtype: MsgType,
    pub payload: Seq<u8>,
}

impl View for Message {
    type V = MessageView;

    open spec fn view(&self) -> MessageView {
        MessageView { id: self.id, msgtype: self.msgtype, payload: self.payload@ }
    }
}

impl Default for Message {
    /// The placeholder envelope: a `Hello` notification under id zero.
    fn default() -> (r: Message)
        ensures
            r.id == 0,
            r.msgtype == MsgType::Notification,
            r.payload@ == "Hello".spec_bytes(),
    {
        Message { id: 0, msgtype: MsgType::Notification, payload: "Hello".as_bytes_vec() }
    }
}

/// The number of bytes before the payload: eight id bytes and one tag byte.
pub const HEADER_LEN: usize = 9;

/// The wire tag of each message kind.
pub open spec fn tag_of(t: MsgType) -> u8 {
    match t {
        MsgType::Control => 0,
        MsgType::Notification => 1,
        MsgType::SetValue => 2,
        MsgType::Get => 3,
    }
}

/// The message kind a wire tag stands for, if any.
pub open spec fn type_of_tag(tag: u8) -> Option<MsgType> {
    if tag == 0 {
        Some(MsgType::Control)
    } else if tag == 1 {
        Some(MsgType::Notification)
    } else if tag == 2 {
        Some(MsgType::SetValue)
    } else if tag == 3 {
        Some(MsgType::Get)
    } else {
        None
    }
}

/// The wire form of an envelope.
pub open spec fn spec_encode(m: MessageView) -> Seq<u8> {
    spec_u64_to_le_bytes(m.id) + seq![tag_of(m.msgtype)] + m.payload
}

/// The envelope a byte sequence carries, or why it carries none.
pub open spec fn spec_decode(bytes: Seq<u8>) -> Result<MessageView, DecodeError> {
    if bytes.len() < HEADER_LEN {
        Err(DecodeError::Truncated)
    } else if type_of_tag(bytes[8]) is None {
        Err(DecodeError::UnknownTag)
    } else {
        Ok(
            MessageView {
                id: spec_u64_from_le_bytes(bytes.subrange(0, 8)),
                msgtype: type_of_tag(bytes[8])->0,
                payload: bytes.skip(HEADER_LEN as int),
            },
        )
    }
}

/// Serializes an envelope into its wire form.
pub fn encode(m: &Message) -> (out: Vec<u8>)
    requires
        m.payload@.len() + HEADER_LEN <= usize::MAX,
    ensures
        out@ == spec_encode(m@),
{
    let mut out = u64_to_le_bytes(m.id);
    let tag: u8 = match m.msgtype {
        MsgType::Control => 0,
        MsgType::Notification => 1,
        MsgType::SetValue => 2,
        MsgType::Get => 3,
    };
    out.push(tag);
    out.extend_from_slice(m.payload.as_slice());
    proof {
        assert(out@ =~= spec_encode(m@));
    }
    out
}

/// Deserializes an envelope from its wire form, reporting malformed input
/// as a typed error instead of aborting.
pub fn decode(bytes: &[u8]) -> (r: Result<Message, DecodeError>)
    ensures
        match spec_decode(bytes@) {
            Ok(v) => r matches Ok(m) && m@ == v,
            Err(e) => r matches Err(e2) && e2 == e,
        },
{
    if bytes.len() < HEADER_LEN {
        return Err(DecodeError::Truncated);
    }
    let tag: u8 = *slice_index_get(bytes, 8);
    let msgtype = if tag == 0 {
        MsgType::Control
    } else if tag == 1 {
        MsgType::Notification
    } else if tag == 2 {
        MsgType::SetValue
    } else if tag == 3 {
        MsgType::Get
    } else {
        return Err(DecodeError::UnknownTag);
    };
    let id = u64_from_le_bytes(slice_subrange(bytes, 0, 8));
    let payload = slice_to_vec(slice_subrange(bytes, HEADER_LEN, bytes.len()));
    let m = Message { id, msgtype, payload };
    proof {
        assert(m@ =~= spec_decode(bytes@)->Ok_0);
    }
    Ok(m)
}

/// Relies on `String::from_utf8`: it succeeds exactly on valid UTF-8 input,
/// returning the text those bytes encode, and fails on anything else.
#[verifier::external_body]
pub(crate) fn bytes_to_string(bytes: Vec<u8>) -> (r: Option<String>)
    ensures
        r is Some <==> valid_utf8(bytes@),
        r matches Some(s) ==> s@ == decode_utf8(bytes@),
{
    match String::from_utf8(bytes) {
        Ok(s) => Some(s),
        Err(_) => None,
    }
}

/// Round trip: decoding the wire form of any envelope gives the envelope
/// back, zero-length payloads included.
pub proof fn lemma_encode_decode(m: MessageView)
    ensures
        spec_decode(spec_encode(m)) == Ok::<MessageView, DecodeError>(m),
{
    lemma_auto_spec_u64_to_from_le_bytes();
    let b = spec_encode(m);
    assert(b.subrange(0, 8) =~= spec_u64_to_le_bytes(m.id));
    assert(b[8] == tag_of(m.msgtype));
    assert(type_of_tag(tag_of(m.msgtype)) == Some(m.msgtype));
    assert(b.skip(HEADER_LEN as int) =~= m.payload);
    assert(spec_decode(b)->Ok_0 =~= m);
}

} // verus!
