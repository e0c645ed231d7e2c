//! Server store handler: the authoritative key-value mapping and the reducer
//! that answers `Get`, applies `Set` and emits `Notification` replies.
//!
//! The handler is a reducer over `(store, incoming envelope)`: `Get` looks a
//! key up without mutating the store and replies with the stored value, or
//! with the sentinel `NONE` for an absent key; `Set` carries an explicit
//! key-value pair in its payload (the key bytes, one separator byte `=`, the
//! value bytes), overwrites the store at that key and replies `Ok`;
//! `Control` and `Notification` are ignored. A payload that is not valid
//! UTF-8 text, or a `Set` payload without a separator, drops the envelope
//! without a reply and without a crash.

use crate::assoc::keys_of;
use crate::assoc::lemma_map_of_contains;
use crate::assoc::lemma_map_of_index;
use crate::assoc::lemma_map_of_push;
use crate::assoc::lemma_map_of_update;
use crate::assoc::map_of;
use crate::assoc::unique_keys;
use crate::codec::bytes_to_string;
use crate::codec::decode;
use crate::codec::encode;
use crate::codec::spec_decode;
use crate::codec::spec_encode;
use crate::codec::DecodeError;
use crate::codec::Message;
use crate::codec::MessageView;
use crate::codec::MsgType;
use crate::codec::HEADER_LEN;
use vstd::prelude::*;
use vstd::slice::slice_index_get;
use vstd::slice::slice_subrange;
use vstd::slice::slice_to_vec;
use vstd::string::StrSliceExecFns;
use vstd::utf8::decode_utf8;
use vstd::utf8::decode_utf8_encode_utf8;
use vstd::utf8::encode_utf8;
use vstd::utf8::is_ascii_chars_encode_utf8;
use vstd::utf8::valid_utf8;

verus! {

/// One stored pair.
pub struct StoreEntry {
    pub key: String,
    pub value: String,
}

/// The authoritative key-value store, owned by the server's event loop.
/// Last writer wins; there is no versioning and no conflict detection.
pub struct Store {
    pub entries: Vec<StoreEntry>,
}

/// The sentinel value returned for a key absent from the store.
pub open spec fn none_value() -> Seq<char> {
    seq!['N', 'O', 'N', 'E']
}

/// The acknowledgement value returned for an applied `Set`.
pub open spec fn ok_value() -> Seq<char> {
    seq!['O', 'k']
}

/// The byte that separates key from value in a `Set` payload.
pub const SEPARATOR: u8 = 61;

/// The position of the first separator byte, if any.
pub open spec fn find_sep(bytes: Seq<u8>) -> Option<int>
    decreases bytes.len(),
{
    if bytes.len() == 0 {
        None
    } else if bytes[0] == SEPARATOR {
        Some(0)
    } else {
        match find_sep(bytes.drop_first()) {
            Some(i) => Some(i + 1),
            None => None,
        }
    }
}

/// The key-value pair a `Set` payload carries: the text before the first
/// separator byte and the text after it, if both halves are valid UTF-8.
pub open spec fn parse_set_payload(bytes: Seq<u8>) -> Option<(Seq<char>, Seq<char>)> {
    match find_sep(bytes) {
        Some(i) => {
            let kb = bytes.take(i);
            let vb = bytes.skip(i + 1);
            if valid_utf8(kb) && valid_utf8(vb) {
                Some((decode_utf8(kb), decode_utf8(vb)))
            } else {
                None
            }
        },
        None => None,
    }
}

/// The value a `Get` resolves to: the stored value, or the sentinel.
pub open spec fn spec_lookup(db: Map<Seq<char>, Seq<char>>, key: Seq<char>) -> Seq<char> {
    if db.contains_key(key) {
        db[key]
    } else {
        none_value()
    }
}

/// How one incoming envelope changes the store: only a `Set` whose payload
/// parses mutates it, overwriting the key with the value.
pub open spec fn step_db(db: Map<Seq<char>, Seq<char>>, m: MessageView) -> Map<Seq<char>, Seq<char>> {
    if m.msgtype is SetValue {
        match parse_set_payload(m.payload) {
            Some(kv) => db.insert(kv.0, kv.1),
            None => db,
        }
    } else {
        db
    }
}

/// The reply one incoming envelope provokes: a `Notification` with the same
/// id, carrying the resolved value for a `Get` and `Ok` for an applied
/// `Set`; nothing for `Control`, `Notification`, or a malformed payload.
pub open spec fn step_reply(db: Map<Seq<char>, Seq<char>>, m: MessageView) -> Option<MessageView> {
    match m.msgtype {
        MsgType::Get => if valid_utf8(m.payload) {
            Some(
                MessageView {
                    id: m.id,
                    msgtype: MsgType::Notification,
                    payload: encode_utf8(spec_lookup(db, decode_utf8(m.payload))),
                },
            )
        } else {
            None
        },
        MsgType::SetValue => match parse_set_payload(m.payload) {
            Some(kv) => Some(
                MessageView { id: m.id, msgtype: MsgType::Notification, payload: encode_utf8(ok_value()) },
            ),
            None => None,
        },
        MsgType::Control => None,
        MsgType::Notification => None,
    }
}

/// How one delivered byte sequence changes the store: undecodable bytes are
/// dropped.
pub open spec fn step_db_bytes(db: Map<Seq<char>, Seq<char>>, bytes: Seq<u8>) -> Map<
    Seq<char>,
    Seq<char>,
> {
    match spec_decode(bytes) {
        Ok(m) => step_db(db, m),
        Err(e) => db,
    }
}

/// The encoded reply one delivered byte sequence provokes, if any.
pub open spec fn step_reply_bytes(db: Map<Seq<char>, Seq<char>>, bytes: Seq<u8>) -> Option<Seq<u8>> {
    match spec_decode(bytes) {
        Ok(m) => match step_reply(db, m) {
            Some(v) => Some(spec_encode(v)),
            None => None,
        },
        Err(e) => None,
    }
}

/// The store after a sweep over delivered messages, applied in order.
pub open spec fn drain_db(db: Map<Seq<char>, Seq<char>>, msgs: Seq<Seq<u8>>) -> Map<
    Seq<char>,
    Seq<char>,
>
    decreases msgs.len(),
{
    if msgs.len() == 0 {
        db
    } else {
        drain_db(step_db_bytes(db, msgs.first()), msgs.drop_first())
    }
}

/// The encoded replies a sweep over delivered messages emits, in order.
pub open spec fn drain_replies(db: Map<Seq<char>, Seq<char>>, msgs: Seq<Seq<u8>>) -> Seq<Seq<u8>>
    decreases msgs.len(),
{
    if msgs.len() == 0 {
        Seq::empty()
    } else {
        let rest = drain_replies(step_db_bytes(db, msgs.first()), msgs.drop_first());
        match step_reply_bytes(db, msgs.first()) {
            Some(v) => seq![v] + rest,
            None => rest,
        }
    }
}

/// The text of the `NONE` sentinel, and how long its encoding is.
pub proof fn lemma_none_literal()
    ensures
        "NONE"@ == none_value(),
        encode_utf8(none_value()).len() == 4,
{
    reveal_strlit("NONE");
    assert("NONE"@ =~= none_value());
    assert(vstd::utf8::is_ascii_chars(none_value()));
    is_ascii_chars_encode_utf8(none_value());
}

/// The text of the `Ok` acknowledgement, and how long its encoding is.
pub proof fn lemma_ok_literal()
    ensures
        "Ok"@ == ok_value(),
        encode_utf8(ok_value()).len() == 2,
{
    reveal_strlit("Ok");
    assert("Ok"@ =~= ok_value());
    assert(vstd::utf8::is_ascii_chars(ok_value()));
    is_ascii_chars_encode_utf8(ok_value());
}

/// A separator found at `i` behind separator-free bytes is the first one.
proof fn lemma_find_sep_at(bytes: Seq<u8>, i: int)
    requires
        0 <= i < bytes.len(),
        bytes[i] == SEPARATOR,
        forall|j: int| 0 <= j < i ==> bytes[j] != SEPARATOR,
    ensures
        find_sep(bytes) == Some(i),
    decreases bytes.len(),
{
    if i > 0 {
        assert(bytes[0] != SEPARATOR);
        let rest = bytes.drop_first();
        assert(rest[i - 1] == SEPARATOR);
        assert(forall|j: int| 0 <= j < i - 1 ==> rest[j] != SEPARATOR);
        lemma_find_sep_at(rest, i - 1);
    }
}

/// Separator-free bytes have no separator position.
proof fn lemma_find_sep_none(bytes: Seq<u8>)
    requires
        forall|j: int| 0 <= j < bytes.len() ==> bytes[j] != SEPARATOR,
    ensures
        find_sep(bytes) is None,
    decreases bytes.len(),
{
    if bytes.len() > 0 {
        lemma_find_sep_none(bytes.drop_first());
    }
}

/// Scans for the first separator byte.
fn find_separator(bytes: &[u8]) -> (r: Option<usize>)
    ensures
        match r {
            Some(i) => find_sep(bytes@) == Some(i as int) && i < bytes@.len(),
            None => find_sep(bytes@) is None,
        },
{
    let n = bytes.len();
    let mut i: usize = 0;
    while i < n
        invariant
            0 <= i <= n,
            n == bytes@.len(),
            forall|j: int| 0 <= j < i ==> bytes@[j] != SEPARATOR,
        decreases n - i,
    {
        if *slice_index_get(bytes, i) == SEPARATOR {
            proof {
                lemma_find_sep_at(bytes@, i as int);
            }
            return Some(i);
        }
        i += 1;
    }
    proof {
        lemma_find_sep_none(bytes@);
    }
    None
}

impl Store {
    /// The store's entries as pairs of character sequences.
    pub open spec fn pairs(self) -> Seq<(Seq<char>, Seq<char>)> {
        self.entries@.map_values(|e: StoreEntry| (e.key@, e.value@))
    }

    /// The mapping the store holds.
    pub open spec fn db(self) -> Map<Seq<char>, Seq<char>> {
        map_of(self.pairs())
    }

    /// Well-formed: keys are pairwise distinct, and every value is small
    /// enough for its bytes to fit behind an envelope header.
    pub open spec fn wf(self) -> bool {
        &&& unique_keys(self.pairs())
        &&& forall|i: int|
            0 <= i < self.entries@.len() ==> encode_utf8(
                (#[trigger] self.entries@[i]).value@,
            ).len() + HEADER_LEN <= usize::MAX
    }

    /// An empty store.
    pub fn new() -> (s: Store)
        ensures
            s.wf(),
            s.db() == Map::<Seq<char>, Seq<char>>::empty(),
    {
        let s = Store { entries: Vec::new() };
        proof {
            assert(s.pairs() =~= Seq::<(Seq<char>, Seq<char>)>::empty());
        }
        s
    }

    /// The position of the entry holding `key`, if any.
    fn position_of(&self, key: &String) -> (r: Option<usize>)
        ensures
            match r {
                Some(i) => i < self.entries@.len() && self.entries@[i as int].key@ == key@,
                None => forall|i: int| 0 <= i < self.entries@.len() ==> self.entries@[i].key@ != key@,
            },
    {
        let n = self.entries.len();
        let mut i: usize = 0;
        while i < n
            invariant
                0 <= i <= n,
                n == self.entries@.len(),
                forall|j: int| 0 <= j < i ==> self.entries@[j].key@ != key@,
            decreases n - i,
        {
            if self.entries[i].key == *key {
                return Some(i);
            }
            i += 1;
        }
        None
    }

    /// Stores `value` under `key`, overwriting any earlier value.
    pub fn set(&mut self, key: String, value: String)
        requires
            old(self).wf(),
            encode_utf8(value@).len() + HEADER_LEN <= usize::MAX,
        ensures
            final(self).wf(),
            final(self).db() == old(self).db().insert(key@, value@),
            old(self).db().contains_key(key@) ==> keys_of(final(self).pairs()) == keys_of(
                old(self).pairs(),
            ),
            !old(self).db().contains_key(key@) ==> keys_of(final(self).pairs()) == keys_of(
                old(self).pairs(),
            ).push(key@),
    {
        proof {
            lemma_map_of_contains(self.pairs(), key@);
        }
        match self.position_of(&key) {
            Some(i) => {
                let ghost k = key@;
                let ghost v = value@;
                self.entries[i] = StoreEntry { key, value };
                proof {
                    assert(self.pairs() =~= old(self).pairs().update(
                        i as int,
                        (old(self).pairs()[i as int].0, v),
                    ));
                    lemma_map_of_update(old(self).pairs(), i as int, v);
                    assert(keys_of(self.pairs()) =~= keys_of(old(self).pairs()));
                    assert(old(self).pairs()[i as int].0 == k);
                }
            },
            None => {
                let ghost k = key@;
                let ghost v = value@;
                self.entries.push(StoreEntry { key, value });
                proof {
                    assert(self.pairs() =~= old(self).pairs().push((k, v)));
                    lemma_map_of_push(old(self).pairs(), k, v);
                    assert(keys_of(self.pairs()) =~= keys_of(old(self).pairs()).push(k));
                }
            },
        }
    }

    /// Resolves `key`: the stored value, or the `NONE` sentinel for a key
    /// absent from the store. Does not mutate the store.
    pub fn get(&self, key: &String) -> (r: String)
        requires
            self.wf(),
        ensures
            r@ == spec_lookup(self.db(), key@),
            encode_utf8(r@).len() + HEADER_LEN <= usize::MAX,
    {
        proof {
            lemma_map_of_contains(self.pairs(), key@);
        }
        match self.position_of(key) {
            Some(i) => {
                proof {
                    lemma_map_of_index(self.pairs(), i as int);
                }
                self.entries[i].value.clone()
            },
            None => {
                proof {
                    lemma_none_literal();
                }
                "NONE".to_owned()
            },
        }
    }

    /// The reducer: applies one incoming envelope to the store and returns
    /// the reply to publish, if the envelope provokes one.
    pub fn handle(&mut self, m: &Message) -> (r: Option<Message>)
        requires
            old(self).wf(),
            m.payload@.len() + HEADER_LEN <= usize::MAX,
        ensures
            final(self).wf(),
            final(self).db() == step_db(old(self).db(), m@),
            match step_reply(old(self).db(), m@) {
                Some(v) => r matches Some(rm) && rm@ == v && rm.payload@.len() + HEADER_LEN
                    <= usize::MAX,
                None => r is None,
            },
    {
        match m.msgtype {
            MsgType::Control => None,
            MsgType::Notification => None,
            MsgType::Get => {
                match bytes_to_string(slice_to_vec(m.payload.as_slice())) {
                    Some(key) => {
                        let value = self.get(&key);
                        let payload = value.as_str().as_bytes_vec();
                        let reply = Message { id: m.id, msgtype: MsgType::Notification, payload };
                        proof {
                            assert(reply@ =~= step_reply(self.db(), m@)->0);
                        }
                        Some(reply)
                    },
                    None => None,
                }
            },
            MsgType::SetValue => {
                let n = m.payload.len();
                match find_separator(m.payload.as_slice()) {
                    None => None,
                    Some(i) => {
                        let kb = slice_to_vec(slice_subrange(m.payload.as_slice(), 0, i));
                        let vb = slice_to_vec(slice_subrange(m.payload.as_slice(), i + 1, n));
                        let key = bytes_to_string(kb);
                        let value = bytes_to_string(vb);
                        match (key, value) {
                            (Some(k), Some(v)) => {
                                proof {
                                    decode_utf8_encode_utf8(m.payload@.skip(i + 1));
                                }
                                self.set(k, v);
                                let payload = "Ok".as_bytes_vec();
                                let reply = Message {
                                    id: m.id,
                                    msgtype: MsgType::Notification,
                                    payload,
                                };
                                proof {
                                    lemma_ok_literal();
                                    assert(reply@ =~= step_reply(old(self).db(), m@)->0);
                                }
                                Some(reply)
                            },
                            _ => None,
                        }
                    },
                }
            },
        }
    }

    /// Decodes one delivered byte sequence, dispatches it to the reducer,
    /// and encodes the reply. Malformed bytes are reported, never fatal.
    pub fn process(&mut self, bytes: &[u8]) -> (r: Result<Option<Vec<u8>>, DecodeError>)
        requires
            old(self).wf(),
        ensures
            final(self).wf(),
            final(self).db() == step_db_bytes(old(self).db(), bytes@),
            match step_reply_bytes(old(self).db(), bytes@) {
                Some(out) => r matches Ok(o) && o matches Some(v) && v@ == out,
                None => match spec_decode(bytes@) {
                    Ok(m) => r matches Ok(o) && o is None,
                    Err(e) => r matches Err(e2) && e2 == e,
                },
            },
    {
        // Binds the byte count, so a decoded payload is known to fit behind
        // an envelope header again.
        let n = bytes.len();
        match decode(bytes) {
            Err(e) => Err(e),
            Ok(m) => {
                match self.handle(&m) {
                    Some(reply) => Ok(Some(encode(&reply))),
                    None => Ok(None),
                }
            },
        }
    }

    /// One event-loop sweep: processes every delivered message in order and
    /// collects the replies to publish. Undecodable messages are dropped.
    pub fn drain(&mut self, delivered: &Vec<Vec<u8>>) -> (out: Vec<Vec<u8>>)
        requires
            old(self).wf(),
        ensures
            final(self).wf(),
            final(self).db() == drain_db(old(self).db(), delivered.deep_view()),
            out.deep_view() == drain_replies(old(self).db(), delivered.deep_view()),
    {
        let ghost all = delivered.deep_view();
        let ghost db0 = old(self).db();
        let n = delivered.len();
        let mut out: Vec<Vec<u8>> = Vec::new();
        let mut i: usize = 0;
        proof {
            assert(all.skip(0) =~= all);
        }
        while i < n
            invariant
                0 <= i <= n,
                n == delivered@.len(),
                all == delivered.deep_view(),
                self.wf(),
                drain_db(self.db(), all.skip(i as int)) == drain_db(db0, all),
                out.deep_view() + drain_replies(self.db(), all.skip(i as int)) == drain_replies(
                    db0,
                    all,
                ),
            decreases n - i,
        {
            let ghost pre = self.db();
            let ghost rem = all.skip(i as int);
            proof {
                assert(rem.first() =~= delivered@[i as int]@);
                assert(rem.drop_first() =~= all.skip(i as int + 1));
            }
            let ghost out0 = out.deep_view();
            let r = self.process(delivered[i].as_slice());
            match r {
                Ok(Some(reply)) => {
                    out.push(reply);
                    proof {
                        assert(out.deep_view() =~~= out0.push(reply@));
                        assert(out.deep_view() + drain_replies(self.db(), all.skip(i as int + 1))
                            =~~= out0 + drain_replies(pre, rem));
                    }
                },
                _ => {
                    proof {
                        assert(drain_replies(self.db(), all.skip(i as int + 1)) == drain_replies(
                            pre,
                            rem,
                        ));
                    }
                },
            }
            i += 1;
        }
        proof {
            assert(all.skip(n as int) =~= Seq::<Seq<u8>>::empty());
            assert(out.deep_view() + Seq::<Seq<u8>>::empty() =~= out.deep_view());
        }
        out
    }
}

/// Set-then-get consistency: after a `Set` whose payload parses as the pair
/// `(key, value)` is applied, a `Get` for that key from any client resolves
/// to `value`: the reply is a `Notification` with the `Get`'s own id whose
/// payload carries exactly the value's bytes.
pub proof fn lemma_set_then_get(
    db: Map<Seq<char>, Seq<char>>,
    set_msg: MessageView,
    get_msg: MessageView,
    key: Seq<char>,
    value: Seq<char>,
)
    requires
        set_msg.msgtype is SetValue,
        parse_set_payload(set_msg.payload) == Some((key, value)),
        get_msg.msgtype is Get,
        valid_utf8(get_msg.payload),
        decode_utf8(get_msg.payload) == key,
    ensures
        step_reply(step_db(db, set_msg), get_msg) == Some(
            MessageView {
                id: get_msg.id,
                msgtype: MsgType::Notification,
                payload: encode_utf8(value),
            },
        ),
{
    let db1 = step_db(db, set_msg);
    assert(db1 == db.insert(key, value));
    assert(spec_lookup(db1, key) == value);
}

/// Unknown key returns the sentinel: a `Get` for a key absent from the store
/// is answered by a `Notification` with the same id and payload `NONE`.
pub proof fn lemma_unknown_key_sentinel(db: Map<Seq<char>, Seq<char>>, get_msg: MessageView)
    requires
        get_msg.msgtype is Get,
        valid_utf8(get_msg.payload),
        !db.contains_key(decode_utf8(get_msg.payload)),
    ensures
        step_reply(db, get_msg) == Some(
            MessageView {
                id: get_msg.id,
                msgtype: MsgType::Notification,
                payload: encode_utf8(none_value()),
            },
        ),
{
}

} // verus!
