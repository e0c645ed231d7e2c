//! Client want-list state machine and correlation table.
//!
//! The client starts with a fixed set of keys whose values are unknown. Each
//! broadcast round builds one `Get` envelope per unresolved key under a
//! fresh, monotonically increasing request id, and records `id -> key` in
//! the correlation table. A delivered `Notification` is matched through that
//! table — never through arrival order — and fills the value in, consuming
//! the table entry so the table cannot grow without bound; an unknown id or
//! a payload that is not valid UTF-8 text is discarded silently. Once
//! every key is resolved the machine is converged and never asks again.

use crate::assoc::keys_of;
use crate::assoc::lemma_map_of_contains;
use crate::assoc::lemma_map_of_index;
use crate::assoc::lemma_map_of_remove;
use crate::assoc::lemma_map_of_update;
use crate::assoc::map_of;
use crate::assoc::unique_keys;
use crate::codec::bytes_to_string;
use crate::codec::decode;
use crate::codec::encode;
use crate::codec::spec_decode;
use crate::codec::spec_encode;
use crate::codec::Message;
use crate::codec::MessageView;
use crate::codec::MsgType;
use crate::codec::HEADER_LEN;
use crate::gate::should_ask;
use crate::gate::MIN_MESH_PEERS;
use vstd::prelude::*;
use vstd::string::StrSliceExecFns;
use vstd::utf8::decode_utf8;
use vstd::utf8::encode_utf8;
use vstd::utf8::valid_utf8;

verus! {

/// The two states of the want-list machine: initial `Resolving`, terminal
/// `Converged` (non-reversible by design: a converged client never re-asks).
#[derive(Clone, Copy, Debug, PartialEq, Eq, Structural)]
pub enum ClientState {
    Resolving,
    Converged,
}

/// What handling one notification did.
#[derive(Clone, Copy, Debug, PartialEq, Eq, Structural)]
pub enum NotifyOutcome {
    /// The id was outstanding and the value was stored against its key.
    Resolved,
    /// No outstanding request has this id; the notification was discarded.
    UnknownId,
    /// The payload is not valid UTF-8 text; the notification was discarded.
    BadPayload,
}

/// What handling one delivered byte sequence did.
#[derive(Clone, Copy, Debug, PartialEq, Eq, Structural)]
pub enum DeliverOutcome {
    /// A notification resolved a wanted key.
    Resolved,
    /// A notification carried an id with no outstanding request.
    UnknownId,
    /// A notification payload was not valid UTF-8 text.
    BadPayload,
    /// The envelope was of a kind the client does not consume.
    Ignored,
    /// The bytes carried no envelope at all.
    Undecodable,
}

/// One want-list entry: a key and its resolved value, if any yet.
pub struct WantEntry {
    pub key: String,
    pub value: Option<String>,
}

/// One correlation-table entry: an outstanding request id and the key the
/// request was issued for.
pub struct PendingRequest {
    pub id: u64,
    pub key: String,
}

/// The client: the next request id to mint, the cached convergence flag,
/// the want-list, and the correlation table.
pub struct Client {
    pub id: u64,
    pub wants: bool,
    pub wanted: Vec<WantEntry>,
    pub mapping: Vec<PendingRequest>,
}

/// The keys of a want-list view that are still unresolved, in order.
pub open spec fn unresolved_of(pairs: Seq<(Seq<char>, Option<Seq<char>>)>) -> Seq<Seq<char>>
    decreases pairs.len(),
{
    if pairs.len() == 0 {
        Seq::empty()
    } else {
        let rest = unresolved_of(pairs.drop_last());
        if pairs.last().1 is None {
            rest.push(pairs.last().0)
        } else {
            rest
        }
    }
}

/// There are never more unresolved keys than entries.
pub proof fn lemma_unresolved_len(pairs: Seq<(Seq<char>, Option<Seq<char>>)>)
    ensures
        unresolved_of(pairs).len() <= pairs.len(),
    decreases pairs.len(),
{
    if pairs.len() > 0 {
        lemma_unresolved_len(pairs.drop_last());
    }
}

/// Every unresolved key is the key of some unresolved entry.
pub proof fn lemma_unresolved_is_wanted(pairs: Seq<(Seq<char>, Option<Seq<char>>)>, j: int)
    requires
        0 <= j < unresolved_of(pairs).len(),
    ensures
        exists|i: int|
            0 <= i < pairs.len() && (#[trigger] pairs[i]).0 == unresolved_of(pairs)[j] && pairs[i].1 is None,
    decreases pairs.len(),
{
    if pairs.len() > 0 {
        let rest = unresolved_of(pairs.drop_last());
        if pairs.last().1 is None && j == rest.len() {
            assert(pairs[pairs.len() - 1].0 == unresolved_of(pairs)[j]);
        } else {
            lemma_unresolved_is_wanted(pairs.drop_last(), j);
            let i = choose|i: int|
                0 <= i < pairs.drop_last().len() && (#[trigger] pairs.drop_last()[i]).0
                    == unresolved_of(pairs.drop_last())[j] && pairs.drop_last()[i].1 is None;
            assert((#[trigger] pairs[i]).0 == unresolved_of(pairs)[j] && pairs[i].1 is None);
        }
    }
}

/// The key of every unresolved entry appears among the unresolved keys.
pub proof fn lemma_unresolved_complete(pairs: Seq<(Seq<char>, Option<Seq<char>>)>, i: int)
    requires
        0 <= i < pairs.len(),
        pairs[i].1 is None,
    ensures
        exists|j: int|
            0 <= j < unresolved_of(pairs).len() && #[trigger] unresolved_of(pairs)[j] == pairs[i].0,
    decreases pairs.len(),
{
    let u = unresolved_of(pairs);
    let rest = unresolved_of(pairs.drop_last());
    if i == pairs.len() - 1 {
        assert(u[u.len() - 1] == pairs[i].0);
    } else {
        lemma_unresolved_complete(pairs.drop_last(), i);
        let j = choose|j: int| 0 <= j < rest.len() && #[trigger] rest[j] == pairs.drop_last()[i].0;
        assert(u[j] == pairs[i].0);
    }
}

/// How one notification changes the want-list: if the id is outstanding and
/// the payload is valid UTF-8 text, the decoded text is stored against the
/// correlated key; anything else leaves the want-list untouched.
pub open spec fn resolve_step(
    wanted: Map<Seq<char>, Option<Seq<char>>>,
    mapping: Map<u64, Seq<char>>,
    id: u64,
    payload: Seq<u8>,
) -> Map<Seq<char>, Option<Seq<char>>> {
    if mapping.contains_key(id) && valid_utf8(payload) {
        wanted.insert(mapping[id], Some(decode_utf8(payload)))
    } else {
        wanted
    }
}

/// How one notification changes the correlation table: a consumed entry is
/// removed, so a later duplicate of the same id finds nothing; an unknown id
/// or a malformed payload leaves the table as it is.
pub open spec fn consume_step(
    mapping: Map<u64, Seq<char>>,
    id: u64,
    payload: Seq<u8>,
) -> Map<u64, Seq<char>> {
    if mapping.contains_key(id) && valid_utf8(payload) {
        mapping.remove(id)
    } else {
        mapping
    }
}

/// How one delivered byte sequence changes the want-list: only a decodable
/// `Notification` does anything.
pub open spec fn deliver_wanted(
    wanted: Map<Seq<char>, Option<Seq<char>>>,
    mapping: Map<u64, Seq<char>>,
    bytes: Seq<u8>,
) -> Map<Seq<char>, Option<Seq<char>>> {
    match spec_decode(bytes) {
        Ok(m) => if m.msgtype is Notification {
            resolve_step(wanted, mapping, m.id, m.payload)
        } else {
            wanted
        },
        Err(e) => wanted,
    }
}

/// How one delivered byte sequence changes the correlation table.
pub open spec fn deliver_mapping(mapping: Map<u64, Seq<char>>, bytes: Seq<u8>) -> Map<
    u64,
    Seq<char>,
> {
    match spec_decode(bytes) {
        Ok(m) => if m.msgtype is Notification {
            consume_step(mapping, m.id, m.payload)
        } else {
            mapping
        },
        Err(e) => mapping,
    }
}

/// The want-list after a sweep over delivered messages, applied in order;
/// each step matches ids through the table as the step before it left it.
pub open spec fn drain_wanted(
    wanted: Map<Seq<char>, Option<Seq<char>>>,
    mapping: Map<u64, Seq<char>>,
    msgs: Seq<Seq<u8>>,
) -> Map<Seq<char>, Option<Seq<char>>>
    decreases msgs.len(),
{
    if msgs.len() == 0 {
        wanted
    } else {
        drain_wanted(
            deliver_wanted(wanted, mapping, msgs.first()),
            deliver_mapping(mapping, msgs.first()),
            msgs.drop_first(),
        )
    }
}

/// The correlation table after a sweep over delivered messages.
pub open spec fn drain_mapping(mapping: Map<u64, Seq<char>>, msgs: Seq<Seq<u8>>) -> Map<
    u64,
    Seq<char>,
>
    decreases msgs.len(),
{
    if msgs.len() == 0 {
        mapping
    } else {
        drain_mapping(deliver_mapping(mapping, msgs.first()), msgs.drop_first())
    }
}

impl Client {
    /// The want-list as pairs of key and optional value.
    pub open spec fn wanted_pairs(self) -> Seq<(Seq<char>, Option<Seq<char>>)> {
        self.wanted@.map_values(|e: WantEntry| (e.key@, e.value.deep_view()))
    }

    /// The correlation table as pairs of id and key.
    pub open spec fn mapping_pairs(self) -> Seq<(u64, Seq<char>)> {
        self.mapping@.map_values(|p: PendingRequest| (p.id, p.key@))
    }

    /// The mapping the want-list holds.
    pub open spec fn wanted_map(self) -> Map<Seq<char>, Option<Seq<char>>> {
        map_of(self.wanted_pairs())
    }

    /// The mapping the correlation table holds.
    pub open spec fn mapping_map(self) -> Map<u64, Seq<char>> {
        map_of(self.mapping_pairs())
    }

    /// The want-list keys, in order. The set of keys is fixed at startup.
    pub open spec fn wanted_keys(self) -> Seq<Seq<char>> {
        keys_of(self.wanted_pairs())
    }

    /// The keys still unresolved, in want-list order.
    pub open spec fn unresolved_keys(self) -> Seq<Seq<char>> {
        unresolved_of(self.wanted_pairs())
    }

    /// The correlation table after a broadcast round, as pairs: the old
    /// entries followed by one fresh entry per unresolved key, each under
    /// the next id in turn.
    pub open spec fn asked_pairs(self) -> Seq<(u64, Seq<char>)> {
        self.mapping_pairs() + Seq::new(
            self.unresolved_keys().len(),
            |j: int| (((self.id + j) as u64), self.unresolved_keys()[j]),
        )
    }

    /// Converged: every wanted key has a resolved value.
    pub open spec fn is_converged(self) -> bool {
        forall|i: int| 0 <= i < self.wanted@.len() ==> (#[trigger] self.wanted@[i]).value is Some
    }

    /// Whether `k` is one of the wanted keys.
    pub open spec fn key_is_wanted(self, k: Seq<char>) -> bool {
        exists|i: int| 0 <= i < self.wanted@.len() && (#[trigger] self.wanted@[i]).key@ == k
    }

    /// Well-formed: want-list keys and outstanding ids are pairwise
    /// distinct, every outstanding id is below the next id to mint, and
    /// every correlated key is a wanted key.
    pub open spec fn wf(self) -> bool {
        &&& unique_keys(self.wanted_pairs())
        &&& unique_keys(self.mapping_pairs())
        &&& forall|j: int| 0 <= j < self.mapping@.len() ==> (#[trigger] self.mapping@[j]).id < self.id
        &&& forall|j: int|
            0 <= j < self.mapping@.len() ==> self.key_is_wanted((#[trigger] self.mapping@[j]).key@)
    }

    /// A client that wants exactly `keys`, all unresolved, with no request
    /// outstanding yet.
    pub fn new(keys: Vec<String>) -> (c: Client)
        requires
            forall|i: int, j: int| 0 <= i < j < keys@.len() ==> keys@[i]@ != keys@[j]@,
        ensures
            c.wf(),
            c.id == 0,
            c.wants == true,
            c.mapping@.len() == 0,
            c.wanted_keys() == keys.deep_view(),
            forall|i: int| 0 <= i < c.wanted@.len() ==> (#[trigger] c.wanted@[i]).value is None,
    {
        let n = keys.len();
        let mut wanted: Vec<WantEntry> = Vec::new();
        let mut i: usize = 0;
        while i < n
            invariant
                0 <= i <= n,
                n == keys@.len(),
                wanted@.len() == i,
                forall|j: int|
                    0 <= j < i ==> (#[trigger] wanted@[j]).key@ == keys@[j]@ && wanted@[j].value is None,
            decreases n - i,
        {
            wanted.push(WantEntry { key: keys[i].clone(), value: None });
            i += 1;
        }
        let c = Client { id: 0, wants: true, wanted, mapping: Vec::new() };
        proof {
            assert(c.wanted_keys() =~~= keys.deep_view());
            assert(c.mapping_pairs() =~= Seq::<(u64, Seq<char>)>::empty());
        }
        c
    }

    /// The reference configuration client: it wants the three
    /// `configservice` keys, all unresolved.
    pub fn default() -> (c: Client)
        ensures
            c.wf(),
            c.id == 0,
            c.wants == true,
            c.mapping@.len() == 0,
            c.wanted_keys() == seq![
                "configservice.address"@,
                "configservice.port"@,
                "configservice.user"@,
            ],
            forall|i: int| 0 <= i < c.wanted@.len() ==> (#[trigger] c.wanted@[i]).value is None,
    {
        let mut keys: Vec<String> = Vec::new();
        keys.push("configservice.address".to_owned());
        keys.push("configservice.port".to_owned());
        keys.push("configservice.user".to_owned());
        proof {
            reveal_strlit("configservice.address");
            reveal_strlit("configservice.port");
            reveal_strlit("configservice.user");
            assert("configservice.port"@[14] != "configservice.user"@[14]);
            assert(keys.deep_view() =~~= seq![
                "configservice.address"@,
                "configservice.port"@,
                "configservice.user"@,
            ]);
        }
        let c = Client::new(keys);
        c
    }

    /// Re-evaluates convergence: scans the want-list, records whether any
    /// key is still unresolved, and reports the machine's state. Called
    /// once per scheduler tick.
    pub fn poll(&mut self) -> (r: ClientState)
        ensures
            final(self).wanted == old(self).wanted,
            final(self).mapping == old(self).mapping,
            final(self).id == old(self).id,
            final(self).wants == !old(self).is_converged(),
            r == ClientState::Converged <==> old(self).is_converged(),
            old(self).wf() ==> final(self).wf(),
    {
        let n = self.wanted.len();
        let mut unresolved_found = false;
        let mut i: usize = 0;
        while i < n
            invariant
                0 <= i <= n,
                n == self.wanted@.len(),
                unresolved_found == exists|j: int|
                    0 <= j < i && (#[trigger] self.wanted@[j]).value is None,
            decreases n - i,
        {
            if self.wanted[i].value.is_none() {
                unresolved_found = true;
            }
            i += 1;
        }
        self.wants = unresolved_found;
        if unresolved_found {
            ClientState::Resolving
        } else {
            ClientState::Converged
        }
    }

    /// The position of the correlation-table entry carrying `id`, if any.
    fn mapping_position(&self, id: u64) -> (r: Option<usize>)
        ensures
            match r {
                Some(j) => j < self.mapping@.len() && self.mapping@[j as int].id == id,
                None => forall|j: int|
                    0 <= j < self.mapping@.len() ==> (#[trigger] self.mapping@[j]).id != id,
            },
    {
        let n = self.mapping.len();
        let mut j: usize = 0;
        while j < n
            invariant
                0 <= j <= n,
                n == self.mapping@.len(),
                forall|l: int| 0 <= l < j ==> (#[trigger] self.mapping@[l]).id != id,
            decreases n - j,
        {
            if self.mapping[j].id == id {
                return Some(j);
            }
            j += 1;
        }
        None
    }

    /// The position of the want-list entry for `key`, if any.
    fn wanted_position(&self, key: &String) -> (r: Option<usize>)
        ensures
            match r {
                Some(i) => i < self.wanted@.len() && self.wanted@[i as int].key@ == key@,
                None => forall|i: int|
                    0 <= i < self.wanted@.len() ==> (#[trigger] self.wanted@[i]).key@ != key@,
            },
    {
        let n = self.wanted.len();
        let mut i: usize = 0;
        while i < n
            invariant
                0 <= i <= n,
                n == self.wanted@.len(),
                forall|l: int| 0 <= l < i ==> (#[trigger] self.wanted@[l]).key@ != key@,
            decreases n - i,
        {
            if self.wanted[i].key == *key {
                return Some(i);
            }
            i += 1;
        }
        None
    }

    /// Consumes one notification: looks the id up in the correlation table
    /// and, when found and the payload is valid UTF-8 text, stores the text
    /// against the correlated key and removes the consumed table entry. An
    /// unknown id or a malformed payload is discarded silently, never a
    /// failure; a duplicate of an already-consumed id is by then unknown.
    pub fn on_notification(&mut self, id: u64, payload: Vec<u8>) -> (r: NotifyOutcome)
        requires
            old(self).wf(),
        ensures
            final(self).wf(),
            final(self).id == old(self).id,
            final(self).wants == old(self).wants,
            final(self).mapping_map() == consume_step(old(self).mapping_map(), id, payload@),
            !(old(self).mapping_map().contains_key(id) && valid_utf8(payload@)) ==> final(self).mapping == old(self).mapping,
            final(self).wanted_keys() == old(self).wanted_keys(),
            final(self).wanted_map() == resolve_step(
                old(self).wanted_map(),
                old(self).mapping_map(),
                id,
                payload@,
            ),
            r == NotifyOutcome::Resolved <==> (old(self).mapping_map().contains_key(id)
                && valid_utf8(payload@)),
            r == NotifyOutcome::UnknownId <==> !old(self).mapping_map().contains_key(id),
    {
        match self.mapping_position(id) {
            None => {
                proof {
                    lemma_map_of_contains(self.mapping_pairs(), id);
                    assert(forall|j: int|
                        0 <= j < self.mapping_pairs().len() ==> (#[trigger] self.mapping_pairs()[j]).0
                            != id);
                }
                NotifyOutcome::UnknownId
            },
            Some(j) => {
                let key = self.mapping[j].key.clone();
                proof {
                    assert(self.mapping_pairs()[j as int] == (self.mapping@[j as int].id, key@));
                    lemma_map_of_contains(self.mapping_pairs(), id);
                    lemma_map_of_index(self.mapping_pairs(), j as int);
                }
                match bytes_to_string(payload) {
                    None => NotifyOutcome::BadPayload,
                    Some(value) => {
                        let ghost v = value@;
                        match self.wanted_position(&key) {
                            Some(i) => {
                                self.wanted[i] = WantEntry { key, value: Some(value) };
                                proof {
                                    assert(self.wanted_pairs() =~= old(self).wanted_pairs().update(
                                        i as int,
                                        (old(self).wanted_pairs()[i as int].0, Some(v)),
                                    ));
                                    lemma_map_of_update(old(self).wanted_pairs(), i as int, Some(v));
                                    assert(self.wanted_keys() =~= old(self).wanted_keys());
                                    assert(forall|l: int|
                                        0 <= l < self.wanted@.len() ==> (#[trigger] self.wanted@[l]).key@
                                            == old(self).wanted@[l].key@);
                                    assert(forall|l: int|
                                        0 <= l < self.wanted_pairs().len() ==> (
                                        #[trigger] self.wanted_pairs()[l]).0 == old(self).wanted_pairs()[l].0);
                                    assert forall|jj: int|
                                        0 <= jj < self.mapping@.len() implies self.key_is_wanted(
                                        (#[trigger] self.mapping@[jj]).key@,
                                    ) by {
                                        assert(old(self).key_is_wanted(
                                            old(self).mapping@[jj].key@,
                                        ));
                                        let l = choose|l: int|
                                            0 <= l < old(self).wanted@.len() && (#[trigger] old(self).wanted@[l]).key@ == old(self).mapping@[jj].key@;
                                        assert(self.wanted@[l].key@ == self.mapping@[jj].key@);
                                    }
                                }
                                self.mapping.remove(j);
                                proof {
                                    let mp0 = old(self).mapping_pairs();
                                    old(self).mapping@.remove_ensures(j as int);
                                    mp0.remove_ensures(j as int);
                                    assert(self.mapping_pairs() =~= mp0.remove(j as int));
                                    lemma_map_of_remove(mp0, j as int);
                                    assert(mp0[j as int].0 == id);
                                    assert forall|a: int, b: int|
                                        0 <= a < b < self.mapping_pairs().len() implies (
                                    #[trigger] self.mapping_pairs()[a]).0 != (
                                    #[trigger] self.mapping_pairs()[b]).0 by {
                                        let a0: int = if a < j { a } else { a + 1 };
                                        let b0: int = if b < j { b } else { b + 1 };
                                        assert(self.mapping_pairs()[a] == mp0[a0]);
                                        assert(self.mapping_pairs()[b] == mp0[b0]);
                                    }
                                    assert forall|jj: int|
                                        0 <= jj < self.mapping@.len() implies (
                                    #[trigger] self.mapping@[jj]).id < self.id
                                        && self.key_is_wanted(self.mapping@[jj].key@) by {
                                        let j0: int = if jj < j { jj } else { jj + 1 };
                                        assert(self.mapping@[jj] == old(self).mapping@[j0]);
                                        assert(old(self).key_is_wanted(old(self).mapping@[j0].key@));
                                        let l = choose|l: int|
                                            0 <= l < old(self).wanted@.len() && (#[trigger] old(self).wanted@[l]).key@ == old(self).mapping@[j0].key@;
                                        assert(self.wanted@[l].key@ == self.mapping@[jj].key@);
                                    }
                                }
                                NotifyOutcome::Resolved
                            },
                            None => {
                                proof {
                                    assert(old(self).key_is_wanted(old(self).mapping@[j as int].key@));
                                    assert(false);
                                }
                                NotifyOutcome::Resolved
                            },
                        }
                    },
                }
            },
        }
    }

    /// Broadcast round: builds one `Get` envelope per unresolved key, each
    /// under a fresh monotonically increasing id that is recorded in the
    /// correlation table, and returns the encoded envelopes for the caller
    /// to publish. This is the sole place ids are minted; the same key gets
    /// a distinct id every round, and the overlay's own delivery semantics
    /// decide how many times a responder actually sees each request.
    pub fn ask_all(&mut self) -> (out: Vec<Vec<u8>>)
        requires
            old(self).wf(),
            old(self).id + old(self).wanted@.len() <= u64::MAX,
            forall|i: int|
                0 <= i < old(self).wanted@.len() ==> encode_utf8(
                    (#[trigger] old(self).wanted@[i]).key@,
                ).len() + HEADER_LEN <= usize::MAX,
        ensures
            final(self).wf(),
            final(self).wanted == old(self).wanted,
            final(self).wants == old(self).wants,
            final(self).id == old(self).id + old(self).unresolved_keys().len(),
            final(self).mapping_pairs() == old(self).asked_pairs(),
            out@.len() == old(self).unresolved_keys().len(),
            forall|j: int|
                0 <= j < out@.len() ==> (#[trigger] out@[j])@ == spec_encode(
                    MessageView {
                        id: (old(self).id + j) as u64,
                        msgtype: MsgType::Get,
                        payload: encode_utf8(old(self).unresolved_keys()[j]),
                    },
                ),
    {
        let n = self.wanted.len();
        let mut out: Vec<Vec<u8>> = Vec::new();
        let mut i: usize = 0;
        proof {
            assert(old(self).wanted_pairs().take(0) =~= Seq::<(
                Seq<char>,
                Option<Seq<char>>,
            )>::empty());
        }
        while i < n
            invariant
                0 <= i <= n,
                n == self.wanted@.len(),
                self.wanted == old(self).wanted,
                self.wants == old(self).wants,
                old(self).wf(),
                old(self).id + old(self).wanted@.len() <= u64::MAX,
                forall|l: int|
                    0 <= l < old(self).wanted@.len() ==> encode_utf8(
                        (#[trigger] old(self).wanted@[l]).key@,
                    ).len() + HEADER_LEN <= usize::MAX,
                self.id == old(self).id + unresolved_of(
                    old(self).wanted_pairs().take(i as int),
                ).len(),
                unresolved_of(old(self).wanted_pairs().take(i as int)).len() <= i,
                self.mapping@.len() == old(self).mapping@.len() + unresolved_of(
                    old(self).wanted_pairs().take(i as int),
                ).len(),
                forall|j: int|
                    0 <= j < old(self).mapping@.len() ==> #[trigger] self.mapping@[j] == old(self).mapping@[j],
                forall|j: int|
                    0 <= j < unresolved_of(old(self).wanted_pairs().take(i as int)).len() ==> (
                    #[trigger] self.mapping@[old(self).mapping@.len() + j]).id == old(self).id + j
                        && self.mapping@[old(self).mapping@.len() + j].key@ == unresolved_of(
                        old(self).wanted_pairs().take(i as int),
                    )[j],
                out@.len() == unresolved_of(old(self).wanted_pairs().take(i as int)).len(),
                forall|j: int|
                    0 <= j < out@.len() ==> (#[trigger] out@[j])@ == spec_encode(
                        MessageView {
                            id: (old(self).id + j) as u64,
                            msgtype: MsgType::Get,
                            payload: encode_utf8(
                                unresolved_of(old(self).wanted_pairs().take(i as int))[j],
                            ),
                        },
                    ),
            decreases n - i,
        {
            proof {
                assert(old(self).wanted_pairs().take(i as int + 1).drop_last() =~= old(self).wanted_pairs().take(i as int));
                assert(old(self).wanted_pairs().take(i as int + 1).last() == old(self).wanted_pairs()[i as int]);
                lemma_unresolved_len(old(self).wanted_pairs().take(i as int + 1));
            }
            let unresolved_here = self.wanted[i].value.is_none();
            if unresolved_here {
                let key = self.wanted[i].key.clone();
                let payload = key.as_str().as_bytes_vec();
                let msg = Message { id: self.id, msgtype: MsgType::Get, payload };
                let bytes = encode(&msg);
                out.push(bytes);
                self.mapping.push(PendingRequest { id: self.id, key });
                self.id = self.id + 1;
            }
            i += 1;
        }
        proof {
            assert(old(self).wanted_pairs().take(n as int) =~= old(self).wanted_pairs());
            let m0 = old(self).mapping@.len() as int;
            let u = old(self).unresolved_keys();
            assert forall|a: int, b: int|
                0 <= a < b < self.mapping_pairs().len() implies (
            #[trigger] self.mapping_pairs()[a]).0 != (#[trigger] self.mapping_pairs()[b]).0 by {
                if b < m0 {
                    assert(old(self).mapping_pairs()[a].0 != old(self).mapping_pairs()[b].0);
                } else if a < m0 {
                    assert(self.mapping@[a].id < old(self).id);
                    assert(self.mapping@[m0 + (b - m0)].id == old(self).id + (b - m0));
                } else {
                    assert(self.mapping@[m0 + (a - m0)].id == old(self).id + (a - m0));
                    assert(self.mapping@[m0 + (b - m0)].id == old(self).id + (b - m0));
                }
            }
            assert forall|jj: int|
                0 <= jj < self.mapping@.len() implies self.key_is_wanted(
                (#[trigger] self.mapping@[jj]).key@,
            ) by {
                if jj < m0 {
                    assert(old(self).key_is_wanted(old(self).mapping@[jj].key@));
                    let l = choose|l: int|
                        0 <= l < old(self).wanted@.len() && (#[trigger] old(self).wanted@[l]).key@
                            == old(self).mapping@[jj].key@;
                    assert(self.wanted@[l].key@ == self.mapping@[jj].key@);
                } else {
                    assert(self.mapping@[m0 + (jj - m0)].key@ == u[jj - m0]);
                    lemma_unresolved_is_wanted(old(self).wanted_pairs(), jj - m0);
                    let l = choose|l: int|
                        0 <= l < old(self).wanted_pairs().len() && (#[trigger] old(self).wanted_pairs()[l]).0 == u[jj - m0] && old(self).wanted_pairs()[l].1 is None;
                    assert(old(self).wanted_pairs()[l].0 == old(self).wanted@[l].key@);
                    assert(self.wanted@[l].key@ == self.mapping@[jj].key@);
                }
            }
            assert forall|jj: int|
                0 <= jj < self.mapping@.len() implies (#[trigger] self.mapping@[jj]).id
                < self.id by {
                if jj < m0 {
                    assert(self.mapping@[jj] == old(self).mapping@[jj]);
                } else {
                    assert(self.mapping@[m0 + (jj - m0)].id == old(self).id + (jj - m0));
                }
            }
            assert(self.wanted_pairs() == old(self).wanted_pairs());
            assert(unique_keys(self.mapping_pairs()));
            assert forall|l: int|
                0 <= l < self.mapping_pairs().len() implies #[trigger] self.mapping_pairs()[l]
                == old(self).asked_pairs()[l] by {
                if l < m0 {
                    assert(self.mapping@[l] == old(self).mapping@[l]);
                } else {
                    assert(self.mapping@[m0 + (l - m0)].id == old(self).id + (l - m0));
                    assert(self.mapping@[m0 + (l - m0)].key@ == u[l - m0]);
                }
            }
            assert(self.mapping_pairs() =~= old(self).asked_pairs());
        }
        out
    }

    /// Consumes one delivered byte sequence: a `Notification` goes through
    /// the correlation table; `Control`, `Get` and `Set` are other roles'
    /// traffic and are ignored; undecodable bytes are dropped, never fatal.
    pub fn on_delivered(&mut self, bytes: &[u8]) -> (r: DeliverOutcome)
        requires
            old(self).wf(),
        ensures
            final(self).wf(),
            final(self).id == old(self).id,
            final(self).wants == old(self).wants,
            final(self).wanted_keys() == old(self).wanted_keys(),
            final(self).wanted_map() == deliver_wanted(
                old(self).wanted_map(),
                old(self).mapping_map(),
                bytes@,
            ),
            final(self).mapping_map() == deliver_mapping(old(self).mapping_map(), bytes@),
            match spec_decode(bytes@) {
                Err(e) => r == DeliverOutcome::Undecodable,
                Ok(m) => match m.msgtype {
                    MsgType::Notification => {
                        &&& (r == DeliverOutcome::Resolved <==> old(self).mapping_map().contains_key(m.id) && valid_utf8(m.payload))
                        &&& (r == DeliverOutcome::UnknownId <==> !old(self).mapping_map().contains_key(m.id))
                    },
                    MsgType::Control => r == DeliverOutcome::Ignored,
                    MsgType::SetValue => r == DeliverOutcome::Ignored,
                    MsgType::Get => r == DeliverOutcome::Ignored,
                },
            },
    {
        match decode(bytes) {
            Err(e) => DeliverOutcome::Undecodable,
            Ok(m) => {
                match m.msgtype {
                    MsgType::Notification => {
                        match self.on_notification(m.id, m.payload) {
                            NotifyOutcome::Resolved => DeliverOutcome::Resolved,
                            NotifyOutcome::UnknownId => DeliverOutcome::UnknownId,
                            NotifyOutcome::BadPayload => DeliverOutcome::BadPayload,
                        }
                    },
                    MsgType::Control => DeliverOutcome::Ignored,
                    MsgType::SetValue => DeliverOutcome::Ignored,
                    MsgType::Get => DeliverOutcome::Ignored,
                }
            },
        }
    }

    /// One event-loop iteration: re-evaluates the state machine, asks for
    /// every unresolved key while the overlay gate permits and the machine
    /// is still resolving, then consumes the already-delivered messages in
    /// order. The returned envelopes are for the caller to publish;
    /// yielding between iterations is the caller's concern.
    pub fn tick(&mut self, mesh_peer_count: usize, delivered: &Vec<Vec<u8>>) -> (out: Vec<Vec<u8>>)
        requires
            old(self).wf(),
            old(self).id + old(self).wanted@.len() <= u64::MAX,
            forall|i: int|
                0 <= i < old(self).wanted@.len() ==> encode_utf8(
                    (#[trigger] old(self).wanted@[i]).key@,
                ).len() + HEADER_LEN <= usize::MAX,
        ensures
            final(self).wf(),
            final(self).wanted_keys() == old(self).wanted_keys(),
            final(self).wants == !old(self).is_converged(),
            (mesh_peer_count >= MIN_MESH_PEERS && !old(self).is_converged()) ==> {
                &&& final(self).id == old(self).id + old(self).unresolved_keys().len()
                &&& out@.len() == old(self).unresolved_keys().len()
                &&& (forall|j: int|
                    0 <= j < out@.len() ==> (#[trigger] out@[j])@ == spec_encode(
                        MessageView {
                            id: (old(self).id + j) as u64,
                            msgtype: MsgType::Get,
                            payload: encode_utf8(old(self).unresolved_keys()[j]),
                        },
                    ))
                &&& final(self).wanted_map() == drain_wanted(
                    old(self).wanted_map(),
                    map_of(old(self).asked_pairs()),
                    delivered.deep_view(),
                )
                &&& final(self).mapping_map() == drain_mapping(
                    map_of(old(self).asked_pairs()),
                    delivered.deep_view(),
                )
            },
            !(mesh_peer_count >= MIN_MESH_PEERS && !old(self).is_converged()) ==> {
                &&& final(self).id == old(self).id
                &&& out@.len() == 0
                &&& final(self).wanted_map() == drain_wanted(
                    old(self).wanted_map(),
                    old(self).mapping_map(),
                    delivered.deep_view(),
                )
                &&& final(self).mapping_map() == drain_mapping(
                    old(self).mapping_map(),
                    delivered.deep_view(),
                )
            },
    {
        let asked_now = should_ask(mesh_peer_count);
        let state = self.poll();
        let out: Vec<Vec<u8>> = if asked_now && state == ClientState::Resolving {
            self.ask_all()
        } else {
            Vec::new()
        };
        let ghost mid = *self;
        proof {
            if mesh_peer_count >= MIN_MESH_PEERS && !old(self).is_converged() {
                assert(mid.mapping_pairs() == old(self).asked_pairs());
            } else {
                assert(mid.mapping_pairs() == old(self).mapping_pairs());
            }
        }
        let ghost all = delivered.deep_view();
        let n = delivered.len();
        let mut i: usize = 0;
        proof {
            assert(all.skip(0) =~= all);
        }
        while i < n
            invariant
                0 <= i <= n,
                n == delivered@.len(),
                all == delivered.deep_view(),
                self.wf(),
                self.id == mid.id,
                self.wants == mid.wants,
                self.wanted_keys() == mid.wanted_keys(),
                drain_wanted(self.wanted_map(), self.mapping_map(), all.skip(i as int))
                    == drain_wanted(mid.wanted_map(), mid.mapping_map(), all),
                drain_mapping(self.mapping_map(), all.skip(i as int)) == drain_mapping(
                    mid.mapping_map(),
                    all,
                ),
            decreases n - i,
        {
            proof {
                assert(all.skip(i as int).first() =~= delivered@[i as int]@);
                assert(all.skip(i as int).drop_first() =~= all.skip(i as int + 1));
            }
            let outcome = self.on_delivered(delivered[i].as_slice());
            i += 1;
        }
        proof {
            assert(all.skip(n as int) =~= Seq::<Seq<u8>>::empty());
        }
        out
    }
}

/// Every wanted key resolved, said of the map the want-list denotes.
pub open spec fn all_resolved(wanted: Map<Seq<char>, Option<Seq<char>>>) -> bool {
    forall|k: Seq<char>| #[trigger] wanted.contains_key(k) ==> wanted[k] is Some
}

/// Whether some notification in `notifs` answers the key `k`: its id is
/// correlated to `k` and its payload is valid text.
pub open spec fn covers(
    mapping: Map<u64, Seq<char>>,
    notifs: Seq<(u64, Seq<u8>)>,
    k: Seq<char>,
) -> bool {
    exists|j: int|
        0 <= j < notifs.len() && mapping.contains_key((#[trigger] notifs[j]).0)
            && mapping[notifs[j].0] == k && valid_utf8(notifs[j].1)
}

/// The want-list after a sequence of notifications, applied in order; each
/// consumed id leaves the correlation table before the next notification is
/// matched.
pub open spec fn apply_notifications(
    wanted: Map<Seq<char>, Option<Seq<char>>>,
    mapping: Map<u64, Seq<char>>,
    notifs: Seq<(u64, Seq<u8>)>,
) -> Map<Seq<char>, Option<Seq<char>>>
    decreases notifs.len(),
{
    if notifs.len() == 0 {
        wanted
    } else {
        apply_notifications(
            resolve_step(wanted, mapping, notifs.first().0, notifs.first().1),
            consume_step(mapping, notifs.first().0, notifs.first().1),
            notifs.drop_first(),
        )
    }
}

/// Positional convergence agrees with the map the want-list denotes: the
/// machine is converged exactly when every key of the map holds a value.
pub proof fn lemma_converged_iff_map(c: Client)
    requires
        unique_keys(c.wanted_pairs()),
    ensures
        c.is_converged() <==> all_resolved(c.wanted_map()),
{
    if c.is_converged() {
        assert forall|k: Seq<char>| #[trigger] c.wanted_map().contains_key(k) implies c.wanted_map()[k] is Some by {
            lemma_map_of_contains(c.wanted_pairs(), k);
            let i = choose|i: int|
                0 <= i < c.wanted_pairs().len() && (#[trigger] c.wanted_pairs()[i]).0 == k;
            lemma_map_of_index(c.wanted_pairs(), i);
            assert(c.wanted@[i].value is Some);
        }
    }
    if all_resolved(c.wanted_map()) {
        assert forall|i: int| 0 <= i < c.wanted@.len() implies (#[trigger] c.wanted@[i]).value is Some by {
            lemma_map_of_index(c.wanted_pairs(), i);
            assert(c.wanted_map().contains_key(c.wanted_pairs()[i].0));
        }
    }
}

/// Convergence: when every still-unresolved key is answered by some
/// notification — one whose id the correlation table sends to that key and
/// whose payload is valid text, as `ask_all` mints and a server answering
/// every `Get` produces — then after applying the notifications, in
/// whatever order they arrive, every wanted key is resolved. One full
/// ask/answer round over `n` unresolved keys therefore converges.
pub proof fn lemma_convergence(
    wanted: Map<Seq<char>, Option<Seq<char>>>,
    mapping: Map<u64, Seq<char>>,
    notifs: Seq<(u64, Seq<u8>)>,
)
    requires
        forall|k: Seq<char>|
            (#[trigger] wanted.contains_key(k)) && wanted[k] is None ==> covers(mapping, notifs, k),
    ensures
        all_resolved(apply_notifications(wanted, mapping, notifs)),
    decreases notifs.len(),
{
    if notifs.len() == 0 {
        assert forall|k: Seq<char>| #[trigger] wanted.contains_key(k) implies wanted[k] is Some by {
            if wanted[k] is None {
                assert(covers(mapping, notifs, k));
                assert(false);
            }
        }
    } else {
        let n0 = notifs.first();
        let w1 = resolve_step(wanted, mapping, n0.0, n0.1);
        let m1 = consume_step(mapping, n0.0, n0.1);
        let rest = notifs.drop_first();
        assert forall|k: Seq<char>| (#[trigger] w1.contains_key(k)) && w1[k] is None implies covers(
            m1,
            rest,
            k,
        ) by {
            if mapping.contains_key(n0.0) && valid_utf8(n0.1) {
                let key0 = mapping[n0.0];
                assert(w1 == wanted.insert(key0, Some(decode_utf8(n0.1))));
                assert(k != key0);
                assert(wanted.contains_key(k) && wanted[k] is None);
                assert(covers(mapping, notifs, k));
                let j = choose|j: int|
                    0 <= j < notifs.len() && mapping.contains_key((#[trigger] notifs[j]).0)
                        && mapping[notifs[j].0] == k && valid_utf8(notifs[j].1);
                assert(j != 0);
                assert(rest[j - 1] == notifs[j]);
                assert(notifs[j].0 != n0.0);
                assert(m1.contains_key(rest[j - 1].0) && m1[rest[j - 1].0] == k);
            } else {
                assert(w1 == wanted);
                assert(m1 == mapping);
                assert(covers(mapping, notifs, k));
                let j = choose|j: int|
                    0 <= j < notifs.len() && mapping.contains_key((#[trigger] notifs[j]).0)
                        && mapping[notifs[j].0] == k && valid_utf8(notifs[j].1);
                assert(j != 0);
                assert(rest[j - 1] == notifs[j]);
            }
        }
        lemma_convergence(w1, m1, rest);
    }
}

/// One broadcast round converges: `ask_all` mints one request per
/// unresolved key, so when a notification with valid text answers each of
/// those requests — the `j`-th carrying the id the correlation table sends
/// to the `j`-th unresolved key, exactly the entries `ask_all` records —
/// applying the answers resolves every wanted key. A want-list of `n`
/// unresolved keys against a server that answers every `Get` therefore
/// converges within one ask/answer cycle, and a fortiori within `n`.
pub proof fn lemma_round_answers_converge(c: Client, notifs: Seq<(u64, Seq<u8>)>)
    requires
        c.wf(),
        notifs.len() == c.unresolved_keys().len(),
        forall|j: int|
            0 <= j < notifs.len() ==> c.mapping_map().contains_key((#[trigger] notifs[j]).0)
                && c.mapping_map()[notifs[j].0] == c.unresolved_keys()[j] && valid_utf8(
                notifs[j].1,
            ),
    ensures
        all_resolved(apply_notifications(c.wanted_map(), c.mapping_map(), notifs)),
{
    let u = c.unresolved_keys();
    assert forall|k: Seq<char>|
        (#[trigger] c.wanted_map().contains_key(k)) && c.wanted_map()[k] is None implies covers(
        c.mapping_map(),
        notifs,
        k,
    ) by {
        lemma_map_of_contains(c.wanted_pairs(), k);
        let i = choose|i: int|
            0 <= i < c.wanted_pairs().len() && (#[trigger] c.wanted_pairs()[i]).0 == k;
        lemma_map_of_index(c.wanted_pairs(), i);
        lemma_unresolved_complete(c.wanted_pairs(), i);
        let j = choose|j: int| 0 <= j < u.len() && #[trigger] u[j] == c.wanted_pairs()[i].0;
        assert(c.mapping_map().contains_key(notifs[j].0) && c.mapping_map()[notifs[j].0] == k
            && valid_utf8(notifs[j].1));
    }
    lemma_convergence(c.wanted_map(), c.mapping_map(), notifs);
}

/// Idempotent resolution: a notification for an id whose correlated key
/// already holds exactly the delivered value leaves the want-list unchanged
/// (the table entry is still consumed).
pub proof fn lemma_duplicate_notification_is_noop(
    wanted: Map<Seq<char>, Option<Seq<char>>>,
    mapping: Map<u64, Seq<char>>,
    id: u64,
    payload: Seq<u8>,
)
    requires
        mapping.contains_key(id),
        valid_utf8(payload),
        wanted.contains_key(mapping[id]),
        wanted[mapping[id]] == Some(decode_utf8(payload)),
    ensures
        resolve_step(wanted, mapping, id, payload) == wanted,
{
    assert(resolve_step(wanted, mapping, id, payload) =~= wanted);
}

/// A stray notification whose id matches no outstanding request is a no-op.
pub proof fn lemma_unknown_id_is_noop(
    wanted: Map<Seq<char>, Option<Seq<char>>>,
    mapping: Map<u64, Seq<char>>,
    id: u64,
    payload: Seq<u8>,
)
    requires
        !mapping.contains_key(id),
    ensures
        resolve_step(wanted, mapping, id, payload) == wanted,
{
}

} // verus!
