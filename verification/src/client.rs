//! The node-local context and the client's side of the wire protocol: the
//! exact text of each request it issues. Opening connections and moving
//! bytes is the surrounding program's business; what travels is fixed and
//! proved here, and responses are read back through `codec::parse_decimal`
//! and the `wire` parsers.

use vstd::prelude::*;
use vstd::string::StringExecFns;
use crate::codec::{dec_str_of, dec_val, format_decimal};
use crate::store::pairs_view;

verus! {

#[derive(Debug)]
struct NodeMetadata {
    node_id: String,
    node_ids: Vec<String>,
}

/// A node's local state: its identity once initialized, a message-id
/// counter, and the messages it has accepted.
#[derive(Debug)]
pub struct Context {
    nodes: Option<NodeMetadata>,
    counter: usize,
    messages: Vec<usize>,
}

#[derive(Debug)]
pub enum ContextInitializationError {
    AlreadyInitialized,
}

#[derive(Debug)]
pub enum ContextWhoamiError {
    NotInitialized,
}

impl Context {
    /// Whether the node has been told who it is.
    pub closed spec fn is_initialized(self) -> bool {
        self.nodes is Some
    }

    /// The node's own identifier, once initialized.
    pub closed spec fn node_id(self) -> Seq<char> {
        match self.nodes {
            Some(n) => n.node_id@,
            None => Seq::empty(),
        }
    }

    /// The message-id counter.
    pub closed spec fn counter_value(self) -> usize {
        self.counter
    }

    /// The messages accepted so far, in arrival order.
    pub closed spec fn messages_view(self) -> Seq<usize> {
        self.messages@
    }

    /// A fresh context: uninitialized, counter at zero, no messages.
    pub fn new() -> (c: Context)
        ensures
            !c.is_initialized(),
            c.counter_value() == 0,
            c.messages_view() == Seq::<usize>::empty(),
    {
        Context { nodes: None, counter: 0, messages: Vec::new() }
    }

    /// Records the node's identity. Succeeds exactly once: a second call
    /// fails and changes nothing.
    pub fn initialize(&mut self, node_id: String, node_ids: Vec<String>) -> (r: Result<
        (),
        ContextInitializationError,
    >)
        ensures
            match r {
                Ok(_) => !old(self).is_initialized() && final(self).is_initialized()
                    && final(self).node_id() == node_id@
                    && final(self).counter_value() == old(self).counter_value()
                    && final(self).messages_view() == old(self).messages_view(),
                Err(ContextInitializationError::AlreadyInitialized) => old(self).is_initialized()
                    && *final(self) == *old(self),
            },
    {
        match &self.nodes {
            None => {
                self.nodes = Some(NodeMetadata { node_id, node_ids });
                Ok(())
            },
            Some(_) => Err(ContextInitializationError::AlreadyInitialized),
        }
    }

    /// The node's identifier; fails exactly when uninitialized.
    pub fn whoami(&self) -> (r: Result<&String, ContextWhoamiError>)
        ensures
            match r {
                Ok(id) => self.is_initialized() && id@ == self.node_id(),
                Err(ContextWhoamiError::NotInitialized) => !self.is_initialized(),
            },
    {
        match &self.nodes {
            Some(n) => Ok(&n.node_id),
            None => Err(ContextWhoamiError::NotInitialized),
        }
    }

    /// The current counter value.
    pub fn counter(&self) -> (r: usize)
        ensures
            r == self.counter_value(),
    {
        self.counter
    }

    /// Hands out the current counter value and advances it by one.
    pub fn read_counter_and_increment(&mut self) -> (r: usize)
        requires
            old(self).counter_value() < usize::MAX,
        ensures
            r == old(self).counter_value(),
            final(self).counter_value() == old(self).counter_value() + 1,
            final(self).is_initialized() == old(self).is_initialized(),
            final(self).node_id() == old(self).node_id(),
            final(self).messages_view() == old(self).messages_view(),
    {
        let result = self.counter;
        self.counter = self.counter + 1;
        result
    }

    /// Accepts one broadcast message.
    pub fn push_message(&mut self, message: usize)
        ensures
            final(self).messages_view() == old(self).messages_view().push(message),
            final(self).is_initialized() == old(self).is_initialized(),
            final(self).node_id() == old(self).node_id(),
            final(self).counter_value() == old(self).counter_value(),
    {
        self.messages.push(message)
    }
}

/// Law: a built send request parses back to exactly the send it encodes,
/// for any key free of the field separator and any message.
pub proof fn lemma_send_request_round_trip(key: Seq<char>, msg: usize)
    requires
        forall|j: int| 0 <= j < key.len() ==> key[j] != ':',
    ensures
        crate::codec::parse_request_spec("send:"@ + key + ":"@ + dec_str_of(msg as nat))
            == Ok::<_, crate::codec::SpecParseError>(
            crate::codec::SpecRequest::Send { key, msg },
        ),
{
    reveal_strlit("send:");
    reveal_strlit("send");
    reveal_strlit(":");
    let d = dec_str_of(msg as nat);
    crate::codec::lemma_dec_round_trip(msg as nat);
    let s = "send:"@ + key + ":"@ + d;
    crate::codec::lemma_colon_idx(s);
    assert(s[4] == ':');
    if crate::codec::colon_idx(s) < 4 {
        assert(s[crate::codec::colon_idx(s)] == ':');
        assert(false);
    }
    if crate::codec::colon_idx(s) > 4 {
        assert(s[4] != ':');
        assert(false);
    }
    assert(crate::codec::token_of(s) =~= "send"@);
    let remain = crate::codec::rest_of(s);
    assert(remain =~= key + ":"@ + d);
    crate::codec::lemma_colon_idx(remain);
    assert(remain[key.len() as int] == ':');
    if crate::codec::colon_idx(remain) < key.len() {
        assert(remain[crate::codec::colon_idx(remain)] == key[crate::codec::colon_idx(remain)]);
        assert(false);
    }
    if crate::codec::colon_idx(remain) > key.len() {
        assert(remain[key.len() as int] != ':');
        assert(false);
    }
    assert(crate::codec::token_of(remain) =~= key);
    assert(crate::codec::rest_of(remain) =~= d);
    assert(dec_val(d) == msg as nat);
}

/// The wire text of one key/offset pair.
pub open spec fn pair_str(p: (Seq<char>, usize)) -> Seq<char> {
    p.0 + ":"@ + dec_str_of(p.1 as nat)
}

/// The colon-joined rendering of key/offset pairs.
pub open spec fn pairs_str(entries: Seq<(Seq<char>, usize)>) -> Seq<char>
    decreases entries.len(),
{
    if entries.len() == 0 {
        Seq::empty()
    } else if entries.len() == 1 {
        pair_str(entries[0])
    } else {
        pairs_str(entries.drop_last()) + ":"@ + pair_str(entries.last())
    }
}

/// The colon-joined rendering of keys.
pub open spec fn keys_str(keys: Seq<Seq<char>>) -> Seq<char>
    decreases keys.len(),
{
    if keys.len() == 0 {
        Seq::empty()
    } else if keys.len() == 1 {
        keys[0]
    } else {
        keys_str(keys.drop_last()) + ":"@ + keys.last()
    }
}

/// Splitting a non-empty join at its first pair.
proof fn lemma_pairs_str_front(entries: Seq<(Seq<char>, usize)>)
    requires
        entries.len() > 0,
    ensures
        entries.len() == 1 ==> pairs_str(entries) == pair_str(entries[0]),
        entries.len() > 1 ==> pairs_str(entries) == pair_str(entries[0]) + ":"@ + pairs_str(
            entries.drop_first(),
        ),
    decreases entries.len(),
{
    if entries.len() > 1 {
        lemma_pairs_str_front(entries.drop_last());
        assert(entries.drop_last()[0] == entries[0]);
        assert(entries.drop_last().drop_first() =~= entries.drop_first().drop_last());
        assert(entries.drop_first().last() == entries.last());
        assert(entries.drop_first()[0] == entries[1]);
        assert(pairs_str(entries) =~= pair_str(entries[0]) + ":"@ + pairs_str(
            entries.drop_first(),
        ));
    }
}

/// Law: a rendered pair list with its terminator parses back to exactly
/// the entries it encodes, for non-empty, separator-free, pairwise
/// distinct keys.
pub proof fn lemma_pairs_round_trip(entries: Seq<(Seq<char>, usize)>)
    requires
        forall|i: int| 0 <= i < entries.len() ==> (#[trigger] entries[i]).0.len() > 0,
        forall|i: int, j: int|
            0 <= i < entries.len() && 0 <= j < entries[i].0.len() ==> #[trigger] entries[i].0[j]
                != ':',
        forall|i: int, j: int|
            0 <= i < j < entries.len() ==> (#[trigger] entries[i]).0 != (#[trigger] entries[j]).0,
    ensures
        crate::codec::parse_pairs(pairs_str(entries) + "::"@) == Ok::<
            _,
            crate::codec::SpecParseError,
        >(entries),
    decreases entries.len(),
{
    reveal_strlit("::");
    reveal_strlit(":");
    let text = pairs_str(entries) + "::"@;
    crate::codec::lemma_colon_idx(text);
    if entries.len() == 0 {
        assert(pairs_str(entries) =~= Seq::<char>::empty());
        assert(text =~= "::"@);
        assert(text[0] == ':');
        if crate::codec::colon_idx(text) > 0 {
            assert(text[0] != ':');
        }
        assert(crate::codec::token_of(text) =~= Seq::<char>::empty());
        assert(entries =~= Seq::<(Seq<char>, usize)>::empty());
    } else {
        lemma_pairs_str_front(entries);
        let k = entries[0].0;
        let v = entries[0].1;
        let d = dec_str_of(v as nat);
        crate::codec::lemma_dec_round_trip(v as nat);
        let tail = entries.drop_first();
        // The first token is the first key.
        assert(text[k.len() as int] == ':');
        if crate::codec::colon_idx(text) < k.len() {
            assert(text[crate::codec::colon_idx(text)] == k[crate::codec::colon_idx(text)]);
            assert(false);
        }
        if crate::codec::colon_idx(text) > k.len() {
            assert(text[k.len() as int] != ':');
            assert(false);
        }
        assert(crate::codec::token_of(text) =~= k);
        let rest1 = crate::codec::rest_of(text);
        if entries.len() == 1 {
            assert(rest1 =~= d + ":"@ + ":"@);
        } else {
            assert(rest1 =~= d + ":"@ + pairs_str(tail) + "::"@);
        }
        // The second token is the rendered offset: digits hold no separator.
        crate::codec::lemma_colon_idx(rest1);
        assert(rest1[d.len() as int] == ':');
        if crate::codec::colon_idx(rest1) < d.len() {
            let c = rest1[crate::codec::colon_idx(rest1)];
            assert(c == d[crate::codec::colon_idx(rest1)]);
            assert(crate::codec::is_digit(c));
            assert(false);
        }
        if crate::codec::colon_idx(rest1) > d.len() {
            assert(rest1[d.len() as int] != ':');
            assert(false);
        }
        assert(crate::codec::token_of(rest1) =~= d);
        let rest2 = crate::codec::rest_of(rest1);
        if entries.len() == 1 {
            assert(rest2 =~= ":"@);
            crate::codec::lemma_colon_idx(rest2);
            assert(rest2[0] == ':');
            if crate::codec::colon_idx(rest2) > 0 {
                assert(rest2[0] != ':');
            }
            assert(crate::codec::token_of(rest2) =~= Seq::<char>::empty());
            assert(crate::codec::parse_pairs(rest2) == Ok::<_, crate::codec::SpecParseError>(
                Seq::<(Seq<char>, usize)>::empty(),
            ));
            assert(!crate::codec::pairs_contain(Seq::<(Seq<char>, usize)>::empty(), k));
            assert(seq![(k, v)] + Seq::<(Seq<char>, usize)>::empty() =~= entries);
            assert((dec_val(d) as usize) == v);
        } else {
            assert(rest2 =~= pairs_str(tail) + "::"@);
            assert(forall|i: int| 0 <= i < tail.len() ==> (#[trigger] tail[i]) == entries[i + 1]);
            lemma_pairs_round_trip(tail);
            assert(crate::codec::parse_pairs(rest2) == Ok::<_, crate::codec::SpecParseError>(
                tail,
            ));
            if crate::codec::pairs_contain(tail, k) {
                let i = choose|i: int| 0 <= i < tail.len() && tail[i].0 == k;
                assert(entries[i + 1].0 == entries[0].0);
                assert(false);
            }
            assert(seq![(k, v)] + tail =~= entries);
            assert((dec_val(d) as usize) == v);
        }
    }
}

/// Splitting a non-empty join at its first key.
proof fn lemma_keys_str_front(keys: Seq<Seq<char>>)
    requires
        keys.len() > 0,
    ensures
        keys.len() == 1 ==> keys_str(keys) == keys[0],
        keys.len() > 1 ==> keys_str(keys) == keys[0] + ":"@ + keys_str(keys.drop_first()),
    decreases keys.len(),
{
    if keys.len() > 1 {
        lemma_keys_str_front(keys.drop_last());
        assert(keys.drop_last()[0] == keys[0]);
        assert(keys.drop_last().drop_first() =~= keys.drop_first().drop_last());
        assert(keys.drop_first().last() == keys.last());
        assert(keys.drop_first()[0] == keys[1]);
        assert(keys_str(keys) =~= keys[0] + ":"@ + keys_str(keys.drop_first()));
    }
}

/// Law: a rendered key list with its terminator parses back to exactly
/// the keys it encodes — duplicates kept — for non-empty, separator-free
/// keys.
pub proof fn lemma_keys_round_trip(keys: Seq<Seq<char>>)
    requires
        forall|i: int| 0 <= i < keys.len() ==> (#[trigger] keys[i]).len() > 0,
        forall|i: int, j: int|
            0 <= i < keys.len() && 0 <= j < keys[i].len() ==> #[trigger] keys[i][j] != ':',
    ensures
        crate::codec::parse_key_seq(keys_str(keys) + "::"@) == Ok::<
            _,
            crate::codec::SpecParseError,
        >(keys),
    decreases keys.len(),
{
    reveal_strlit("::");
    reveal_strlit(":");
    let text = keys_str(keys) + "::"@;
    crate::codec::lemma_colon_idx(text);
    if keys.len() == 0 {
        assert(keys_str(keys) =~= Seq::<char>::empty());
        assert(text =~= "::"@);
        assert(text[0] == ':');
        if crate::codec::colon_idx(text) > 0 {
            assert(text[0] != ':');
        }
        assert(crate::codec::token_of(text) =~= Seq::<char>::empty());
        assert(keys =~= Seq::<Seq<char>>::empty());
    } else {
        lemma_keys_str_front(keys);
        let k = keys[0];
        let tail = keys.drop_first();
        assert(text[k.len() as int] == ':');
        if crate::codec::colon_idx(text) < k.len() {
            assert(text[crate::codec::colon_idx(text)] == k[crate::codec::colon_idx(text)]);
            assert(false);
        }
        if crate::codec::colon_idx(text) > k.len() {
            assert(text[k.len() as int] != ':');
            assert(false);
        }
        assert(crate::codec::token_of(text) =~= k);
        let rest1 = crate::codec::rest_of(text);
        if keys.len() == 1 {
            assert(rest1 =~= ":"@);
            crate::codec::lemma_colon_idx(rest1);
            assert(rest1[0] == ':');
            if crate::codec::colon_idx(rest1) > 0 {
                assert(rest1[0] != ':');
            }
            assert(crate::codec::token_of(rest1) =~= Seq::<char>::empty());
            assert(crate::codec::parse_key_seq(rest1) == Ok::<_, crate::codec::SpecParseError>(
                Seq::<Seq<char>>::empty(),
            ));
            assert(seq![k] + Seq::<Seq<char>>::empty() =~= keys);
        } else {
            assert(rest1 =~= keys_str(tail) + "::"@);
            assert(forall|i: int| 0 <= i < tail.len() ==> (#[trigger] tail[i]) == keys[i + 1]);
            lemma_keys_round_trip(tail);
            assert(seq![k] + tail =~= keys);
        }
    }
}

/// Law: a built poll request parses back to exactly the offsets it
/// encodes, for non-empty, separator-free, pairwise distinct keys.
pub proof fn lemma_poll_request_round_trip(entries: Seq<(Seq<char>, usize)>)
    requires
        forall|i: int| 0 <= i < entries.len() ==> (#[trigger] entries[i]).0.len() > 0,
        forall|i: int, j: int|
            0 <= i < entries.len() && 0 <= j < entries[i].0.len() ==> #[trigger] entries[i].0[j]
                != ':',
        forall|i: int, j: int|
            0 <= i < j < entries.len() ==> (#[trigger] entries[i]).0 != (#[trigger] entries[j]).0,
    ensures
        crate::codec::parse_request_spec("poll:"@ + pairs_str(entries) + "::"@) == Ok::<
            _,
            crate::codec::SpecParseError,
        >(crate::codec::SpecRequest::Poll { offsets: entries }),
{
    reveal_strlit("poll:");
    reveal_strlit("poll");
    reveal_strlit("send");
    let text = "poll:"@ + pairs_str(entries) + "::"@;
    crate::codec::lemma_colon_idx(text);
    assert(text[4] == ':');
    if crate::codec::colon_idx(text) < 4 {
        assert(text[crate::codec::colon_idx(text)] == ':');
        assert(false);
    }
    if crate::codec::colon_idx(text) > 4 {
        assert(text[4] != ':');
        assert(false);
    }
    assert(crate::codec::token_of(text) =~= "poll"@);
    assert("poll"@ != "send"@) by {
        assert("poll"@[0] == 'p' && "send"@[0] == 's');
    }
    assert(crate::codec::rest_of(text) =~= pairs_str(entries) + "::"@);
    lemma_pairs_round_trip(entries);
}

/// Law: a built commit request parses back to exactly the offsets it
/// encodes, for non-empty, separator-free, pairwise distinct keys.
pub proof fn lemma_commit_request_round_trip(entries: Seq<(Seq<char>, usize)>)
    requires
        forall|i: int| 0 <= i < entries.len() ==> (#[trigger] entries[i]).0.len() > 0,
        forall|i: int, j: int|
            0 <= i < entries.len() && 0 <= j < entries[i].0.len() ==> #[trigger] entries[i].0[j]
                != ':',
        forall|i: int, j: int|
            0 <= i < j < entries.len() ==> (#[trigger] entries[i]).0 != (#[trigger] entries[j]).0,
    ensures
        crate::codec::parse_request_spec("commit-offsets:"@ + pairs_str(entries) + "::"@) == Ok::<
            _,
            crate::codec::SpecParseError,
        >(crate::codec::SpecRequest::CommitOffsets { offsets: entries }),
{
    reveal_strlit("commit-offsets:");
    reveal_strlit("commit-offsets");
    reveal_strlit("send");
    reveal_strlit("poll");
    let text = "commit-offsets:"@ + pairs_str(entries) + "::"@;
    crate::codec::lemma_colon_idx(text);
    assert(text[14] == ':');
    if crate::codec::colon_idx(text) < 14 {
        assert(text[crate::codec::colon_idx(text)] == ':');
        assert(false);
    }
    if crate::codec::colon_idx(text) > 14 {
        assert(text[14] != ':');
        assert(false);
    }
    assert(crate::codec::token_of(text) =~= "commit-offsets"@);
    assert("commit-offsets"@ != "send"@ && "commit-offsets"@ != "poll"@) by {
        assert("commit-offsets"@.len() == 14 && "send"@.len() == 4 && "poll"@.len() == 4);
    }
    assert(crate::codec::rest_of(text) =~= pairs_str(entries) + "::"@);
    lemma_pairs_round_trip(entries);
}

/// Law: a built list request parses back to exactly the keys it encodes,
/// for non-empty, separator-free keys.
pub proof fn lemma_list_request_round_trip(keys: Seq<Seq<char>>)
    requires
        forall|i: int| 0 <= i < keys.len() ==> (#[trigger] keys[i]).len() > 0,
        forall|i: int, j: int|
            0 <= i < keys.len() && 0 <= j < keys[i].len() ==> #[trigger] keys[i][j] != ':',
    ensures
        crate::codec::parse_request_spec("list-committed-offsets:"@ + keys_str(keys) + "::"@)
            == Ok::<_, crate::codec::SpecParseError>(
            crate::codec::SpecRequest::ListCommittedOffsets { keys },
        ),
{
    reveal_strlit("list-committed-offsets:");
    reveal_strlit("list-committed-offsets");
    reveal_strlit("send");
    reveal_strlit("poll");
    reveal_strlit("commit-offsets");
    let text = "list-committed-offsets:"@ + keys_str(keys) + "::"@;
    crate::codec::lemma_colon_idx(text);
    assert(text[22] == ':');
    if crate::codec::colon_idx(text) < 22 {
        assert(text[crate::codec::colon_idx(text)] == ':');
        assert(false);
    }
    if crate::codec::colon_idx(text) > 22 {
        assert(text[22] != ':');
        assert(false);
    }
    assert(crate::codec::token_of(text) =~= "list-committed-offsets"@);
    assert("list-committed-offsets"@ != "send"@ && "list-committed-offsets"@ != "poll"@
        && "list-committed-offsets"@ != "commit-offsets"@) by {
        assert("list-committed-offsets"@.len() == 22 && "send"@.len() == 4 && "poll"@.len() == 4
            && "commit-offsets"@.len() == 14);
    }
    assert(crate::codec::rest_of(text) =~= keys_str(keys) + "::"@);
    lemma_keys_round_trip(keys);
}

/// Renders key/offset pairs as `k1:v1:k2:v2`, in order.
pub fn serialize_offsets(offsets: &Vec<(String, usize)>) -> (r: String)
    ensures
        r@ == pairs_str(pairs_view(offsets@)),
{
    let mut r = String::new();
    let n = offsets.len();
    for i in 0..n
        invariant
            n == offsets@.len(),
            r@ == pairs_str(pairs_view(offsets@).take(i as int)),
    {
        if i > 0 {
            r.append(":");
        }
        r.append(offsets[i].0.as_str());
        r.append(":");
        let num = format_decimal(offsets[i].1);
        r.append(num.as_str());
        proof {
            let entries = pairs_view(offsets@);
            assert(entries.take(i + 1).drop_last() =~= entries.take(i as int));
            assert(entries.take(i + 1).last() == entries[i as int]);
            assert(r@ =~= pairs_str(entries.take(i + 1)));
        }
    }
    proof {
        assert(pairs_view(offsets@).take(n as int) =~= pairs_view(offsets@));
    }
    r
}

/// Renders keys as `k1:k2:k3`, in order.
pub fn serialize_keys(keys: &Vec<String>) -> (r: String)
    ensures
        r@ == keys_str(crate::store::keys_view(keys@)),
{
    let mut r = String::new();
    let n = keys.len();
    for i in 0..n
        invariant
            n == keys@.len(),
            r@ == keys_str(crate::store::keys_view(keys@).take(i as int)),
    {
        if i > 0 {
            r.append(":");
        }
        r.append(keys[i].as_str());
        proof {
            let entries = crate::store::keys_view(keys@);
            assert(entries.take(i + 1).drop_last() =~= entries.take(i as int));
            assert(entries.take(i + 1).last() == entries[i as int]);
            assert(r@ =~= keys_str(entries.take(i + 1)));
        }
    }
    proof {
        assert(crate::store::keys_view(keys@).take(n as int) =~= crate::store::keys_view(keys@));
    }
    r
}

/// The request line that appends `msg` to `key`'s log.
pub fn send_request(key: &String, msg: usize) -> (r: String)
    ensures
        r@ == "send:"@ + key@ + ":"@ + dec_str_of(msg as nat),
{
    let mut r = "send:".to_owned();
    r.append(key.as_str());
    r.append(":");
    let num = format_decimal(msg);
    r.append(num.as_str());
    proof {
        assert(r@ =~= "send:"@ + key@ + ":"@ + dec_str_of(msg as nat));
    }
    r
}

/// The request line that polls the given keys from the given offsets.
pub fn poll_request(offsets: &Vec<(String, usize)>) -> (r: String)
    ensures
        r@ == "poll:"@ + pairs_str(pairs_view(offsets@)) + "::"@,
{
    let args = serialize_offsets(offsets);
    let mut r = "poll:".to_owned();
    r.append(args.as_str());
    r.append("::");
    proof {
        assert(r@ =~= "poll:"@ + pairs_str(pairs_view(offsets@)) + "::"@);
    }
    r
}

/// The request line that commits the given offsets.
pub fn commit_request(offsets: &Vec<(String, usize)>) -> (r: String)
    ensures
        r@ == "commit-offsets:"@ + pairs_str(pairs_view(offsets@)) + "::"@,
{
    let args = serialize_offsets(offsets);
    let mut r = "commit-offsets:".to_owned();
    r.append(args.as_str());
    r.append("::");
    proof {
        assert(r@ =~= "commit-offsets:"@ + pairs_str(pairs_view(offsets@)) + "::"@);
    }
    r
}

/// The request line that asks for the committed offsets of the given keys.
pub fn list_request(keys: &Vec<String>) -> (r: String)
    ensures
        r@ == "list-committed-offsets:"@ + keys_str(crate::store::keys_view(keys@)) + "::"@,
{
    let args = serialize_keys(keys);
    let mut r = "list-committed-offsets:".to_owned();
    r.append(args.as_str());
    r.append("::");
    proof {
        assert(r@ =~= "list-committed-offsets:"@ + keys_str(crate::store::keys_view(keys@))
            + "::"@);
    }
    r
}

} // verus!
