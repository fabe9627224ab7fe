//! The log store: sole owner of all per-key logs and committed offsets.
//!
//! Logs are append-only; the offset of a message is its position in its
//! key's log, assigned densely from 0. Committed offsets only ever grow.
//! A key that was never sent to behaves as an empty log, and a key that
//! was never committed behaves as uncommitted.

use vstd::prelude::*;

verus! {

/// First-match lookup of a key's log in an association list.
pub open spec fn lookup_log(entries: Seq<(String, Vec<usize>)>, k: Seq<char>) -> Option<
    Seq<usize>,
>
    decreases entries.len(),
{
    if entries.len() == 0 {
        None
    } else if entries[0].0@ == k {
        Some(entries[0].1@)
    } else {
        lookup_log(entries.drop_first(), k)
    }
}

/// First-match lookup of a key's committed offset in an association list.
pub open spec fn lookup_committed(entries: Seq<(String, usize)>, k: Seq<char>) -> Option<usize>
    decreases entries.len(),
{
    if entries.len() == 0 {
        None
    } else if entries[0].0@ == k {
        Some(entries[0].1)
    } else {
        lookup_committed(entries.drop_first(), k)
    }
}

/// The committed offset after merging one incoming offset: the maximum of
/// the previous value (if any) and the incoming one.
pub open spec fn commit_merge(prev: Option<usize>, off: usize) -> usize {
    match prev {
        Some(c) => if off > c {
            off
        } else {
            c
        },
        None => off,
    }
}

/// The committed offset of key `k` after a batch of (key, offset) entries
/// has been merged in, in order.
pub open spec fn committed_after(
    prev: Option<usize>,
    entries: Seq<(Seq<char>, usize)>,
    k: Seq<char>,
) -> Option<usize>
    decreases entries.len(),
{
    if entries.len() == 0 {
        prev
    } else {
        let before = committed_after(prev, entries.drop_last(), k);
        if entries.last().0 == k {
            Some(commit_merge(before, entries.last().1))
        } else {
            before
        }
    }
}

/// The view of a vector of (key, offset) pairs.
pub open spec fn pairs_view(v: Seq<(String, usize)>) -> Seq<(Seq<char>, usize)> {
    v.map(|i: int, p: (String, usize)| (p.0@, p.1))
}

/// The view of a vector of keys.
pub open spec fn keys_view(v: Seq<String>) -> Seq<Seq<char>> {
    v.map(|i: int, s: String| s@)
}

pub struct LogStore {
    logs: Vec<(String, Vec<usize>)>,
    committed: Vec<(String, usize)>,
}

impl LogStore {
    /// The log of key `k`: the empty sequence if the key was never sent to.
    pub closed spec fn log_of(self, k: Seq<char>) -> Seq<usize> {
        match lookup_log(self.logs@, k) {
            Some(l) => l,
            None => Seq::empty(),
        }
    }

    /// The committed offset of key `k`, if one was ever committed.
    pub closed spec fn committed_of(self, k: Seq<char>) -> Option<usize> {
        lookup_committed(self.committed@, k)
    }

    /// The lowest offset a poll may not start above: one past the committed
    /// offset, or 0 for an uncommitted key.
    pub open spec fn lower_bound(self, k: Seq<char>) -> int {
        match self.committed_of(k) {
            Some(c) => c + 1,
            None => 0,
        }
    }

    /// What a poll returns for one requested key and start offset: the pair
    /// at that offset if the offset is at most the lower bound and the
    /// position exists in the log, else nothing.
    pub open spec fn poll_entry(self, k: Seq<char>, off: usize) -> Seq<(usize, usize)> {
        if off <= self.lower_bound(k) && (off as int) < self.log_of(k).len() {
            seq![(off, self.log_of(k)[off as int])]
        } else {
            Seq::empty()
        }
    }

    /// The store starts with no logs and no committed offsets.
    pub fn new() -> (s: LogStore)
        ensures
            forall|k: Seq<char>| s.log_of(k) == Seq::<usize>::empty(),
            forall|k: Seq<char>| s.committed_of(k) is None,
    {
        LogStore { logs: Vec::new(), committed: Vec::new() }
    }

    fn find_log_index(&self, key: &String) -> (r: Option<usize>)
        ensures
            match r {
                Some(i) => i < self.logs@.len() && self.logs@[i as int].0@ == key@ && (forall|
                    j: int,
                |
                    0 <= j < i ==> self.logs@[j].0@ != key@) && lookup_log(self.logs@, key@)
                    == Some(self.logs@[i as int].1@),
                None => lookup_log(self.logs@, key@) is None,
            },
    {
        let n = self.logs.len();
        for i in 0..n
            invariant
                n == self.logs@.len(),
                forall|j: int| 0 <= j < i ==> self.logs@[j].0@ != key@,
        {
            if self.logs[i].0 == *key {
                proof {
                    lemma_lookup_log_first_match(self.logs@, i as int, key@);
                }
                return Some(i);
            }
        }
        proof {
            lemma_lookup_log_no_match(self.logs@, key@);
        }
        None
    }

    fn find_committed_index(&self, key: &String) -> (r: Option<usize>)
        ensures
            match r {
                Some(i) => i < self.committed@.len() && self.committed@[i as int].0@ == key@ && (
                forall|j: int|
                    0 <= j < i ==> self.committed@[j].0@ != key@) && lookup_committed(
                    self.committed@,
                    key@,
                ) == Some(self.committed@[i as int].1),
                None => lookup_committed(self.committed@, key@) is None,
            },
    {
        let n = self.committed.len();
        for i in 0..n
            invariant
                n == self.committed@.len(),
                forall|j: int| 0 <= j < i ==> self.committed@[j].0@ != key@,
        {
            if self.committed[i].0 == *key {
                proof {
                    lemma_lookup_committed_first_match(self.committed@, i as int, key@);
                }
                return Some(i);
            }
        }
        proof {
            lemma_lookup_committed_no_match(self.committed@, key@);
        }
        None
    }

    /// Appends `msg` to `key`'s log and returns the offset it was assigned:
    /// the length of the log before the append. Nothing else changes.
    pub fn send(&mut self, key: String, msg: usize) -> (offset: usize)
        ensures
            offset == old(self).log_of(key@).len(),
            final(self).log_of(key@) == old(self).log_of(key@).push(msg),
            forall|k: Seq<char>| k != key@ ==> final(self).log_of(k) == old(self).log_of(k),
            forall|k: Seq<char>| final(self).committed_of(k) == old(self).committed_of(k),
    {
        match self.find_log_index(&key) {
            Some(i) => {
                let ghost logs0 = self.logs@;
                let offset = self.logs[i].1.len();
                self.logs[i].1.push(msg);
                proof {
                    lemma_lookup_log_update(logs0, self.logs@, i as int, key@);
                }
                offset
            },
            None => {
                let ghost logs0 = self.logs@;
                let mut msgs: Vec<usize> = Vec::new();
                msgs.push(msg);
                self.logs.push((key, msgs));
                proof {
                    lemma_lookup_log_push(logs0, self.logs@[logs0.len() as int]);
                    assert(self.logs@ =~= logs0.push(self.logs@[logs0.len() as int]));
                }
                0
            },
        }
    }

    /// Serves one requested key: at most one (offset, message) pair, exactly
    /// as `poll_entry` describes.
    fn poll_one(&self, key: &String, off: usize) -> (r: Vec<(usize, usize)>)
        ensures
            r@ == self.poll_entry(key@, off),
    {
        let within_bound = match self.find_committed_index(key) {
            Some(i) => off == 0 || off - 1 <= self.committed[i].1,
            None => off == 0,
        };
        let mut r: Vec<(usize, usize)> = Vec::new();
        if within_bound {
            if let Some(i) = self.find_log_index(key) {
                if off < self.logs[i].1.len() {
                    r.push((off, self.logs[i].1[off]));
                }
            }
        }
        r
    }

    /// Answers a poll: one response entry per requested (key, start offset)
    /// pair, in request order, each as `poll_entry` describes.
    pub fn poll(&self, offsets: &Vec<(String, usize)>) -> (r: Vec<(String, Vec<(usize, usize)>)>)
        ensures
            r@.len() == offsets@.len(),
            forall|i: int|
                0 <= i < offsets@.len() ==> r@[i].0@ == offsets@[i].0@ && r@[i].1@
                    == self.poll_entry(offsets@[i].0@, offsets@[i].1),
    {
        let mut r: Vec<(String, Vec<(usize, usize)>)> = Vec::new();
        let n = offsets.len();
        for i in 0..n
            invariant
                n == offsets@.len(),
                r@.len() == i,
                forall|j: int|
                    0 <= j < i ==> r@[j].0@ == offsets@[j].0@ && r@[j].1@ == self.poll_entry(
                        offsets@[j].0@,
                        offsets@[j].1,
                    ),
        {
            let key = offsets[i].0.clone();
            let entry = self.poll_one(&offsets[i].0, offsets[i].1);
            r.push((key, entry));
        }
        r
    }

    /// Merges one incoming (key, offset) entry into the committed offsets.
    fn commit_one(&mut self, key: &String, off: usize)
        ensures
            forall|k: Seq<char>| final(self).log_of(k) == old(self).log_of(k),
            final(self).committed_of(key@) == Some(
                commit_merge(old(self).committed_of(key@), off),
            ),
            forall|k: Seq<char>|
                k != key@ ==> final(self).committed_of(k) == old(self).committed_of(k),
    {
        match self.find_committed_index(key) {
            Some(i) => {
                let ghost committed0 = self.committed@;
                if off > self.committed[i].1 {
                    self.committed[i].1 = off;
                }
                proof {
                    lemma_lookup_committed_update(committed0, self.committed@, i as int, key@);
                }
            },
            None => {
                let ghost committed0 = self.committed@;
                self.committed.push((key.clone(), off));
                proof {
                    lemma_lookup_committed_push(
                        committed0,
                        self.committed@[committed0.len() as int],
                    );
                    assert(self.committed@ =~= committed0.push(
                        self.committed@[committed0.len() as int],
                    ));
                }
            },
        }
    }

    /// Merges a batch of (key, offset) entries into the committed offsets,
    /// in order; each key's committed offset becomes the maximum of its old
    /// value and every incoming offset for it. Logs are untouched.
    pub fn commit_offsets(&mut self, offsets: &Vec<(String, usize)>)
        ensures
            forall|k: Seq<char>| final(self).log_of(k) == old(self).log_of(k),
            forall|k: Seq<char>|
                final(self).committed_of(k) == committed_after(
                    old(self).committed_of(k),
                    pairs_view(offsets@),
                    k,
                ),
    {
        let ghost s0 = *self;
        let n = offsets.len();
        for i in 0..n
            invariant
                n == offsets@.len(),
                forall|k: Seq<char>| self.log_of(k) == s0.log_of(k),
                forall|k: Seq<char>|
                    self.committed_of(k) == committed_after(
                        s0.committed_of(k),
                        pairs_view(offsets@).take(i as int),
                        k,
                    ),
        {
            let ghost before = *self;
            self.commit_one(&offsets[i].0, offsets[i].1);
            proof {
                let entries = pairs_view(offsets@);
                assert(entries.take(i + 1).drop_last() =~= entries.take(i as int));
                assert(entries.take(i + 1).last() == (offsets@[i as int].0@, offsets@[i as int].1));
                assert forall|k: Seq<char>|
                    self.committed_of(k) == committed_after(
                        s0.committed_of(k),
                        entries.take(i + 1),
                        k,
                    ) by {
                    if k == offsets@[i as int].0@ {
                        assert(self.committed_of(k) == Some(
                            commit_merge(before.committed_of(k), offsets@[i as int].1),
                        ));
                    } else {
                        assert(self.committed_of(k) == before.committed_of(k));
                    }
                }
            }
        }
        proof {
            assert(pairs_view(offsets@).take(offsets@.len() as int) =~= pairs_view(offsets@));
        }
    }

    /// What listing committed offsets returns: one (key, committed offset)
    /// pair per requested key that has a recorded commit, in request order;
    /// never-committed keys are omitted.
    pub open spec fn list_committed_spec(self, keys: Seq<Seq<char>>) -> Seq<(Seq<char>, usize)>
        decreases keys.len(),
    {
        if keys.len() == 0 {
            Seq::empty()
        } else {
            let before = self.list_committed_spec(keys.drop_last());
            match self.committed_of(keys.last()) {
                Some(c) => before.push((keys.last(), c)),
                None => before,
            }
        }
    }

    /// Lists the committed offset of every requested key that has one;
    /// requested keys without a recorded commit are omitted.
    pub fn list_committed_offsets(&self, keys: &Vec<String>) -> (r: Vec<(String, usize)>)
        ensures
            pairs_view(r@) == self.list_committed_spec(keys_view(keys@)),
    {
        let mut r: Vec<(String, usize)> = Vec::new();
        let n = keys.len();
        for i in 0..n
            invariant
                n == keys@.len(),
                pairs_view(r@) == self.list_committed_spec(keys_view(keys@).take(i as int)),
        {
            let ghost r0 = r@;
            match self.find_committed_index(&keys[i]) {
                Some(ci) => {
                    let c = self.committed[ci].1;
                    r.push((keys[i].clone(), c));
                    proof {
                        assert(pairs_view(r@) =~= pairs_view(r0).push((keys@[i as int]@, c)));
                    }
                },
                None => {},
            }
            proof {
                assert(keys_view(keys@).take(i + 1).drop_last() =~= keys_view(keys@).take(i as int));
            }
        }
        proof {
            assert(keys_view(keys@).take(keys@.len() as int) =~= keys_view(keys@));
        }
        r
    }
}

/// Law: repeated sends to one key return consecutive offsets, in call
/// order. Each send returns the key's log length at the time, so two
/// successive appends to the same key return `o1` and `o1 + 1`, and the
/// appended messages sit at exactly those offsets.
pub proof fn lemma_send_offsets_sequential(
    s0: LogStore,
    s1: LogStore,
    s2: LogStore,
    k: Seq<char>,
    m1: usize,
    m2: usize,
    o1: usize,
    o2: usize,
)
    requires
        o1 == s0.log_of(k).len(),
        s1.log_of(k) == s0.log_of(k).push(m1),
        o2 == s1.log_of(k).len(),
        s2.log_of(k) == s1.log_of(k).push(m2),
    ensures
        o2 == o1 + 1,
        s2.log_of(k)[o1 as int] == m1,
        s2.log_of(k)[o2 as int] == m2,
{
}

/// Law: sends to distinct keys are isolated. A send to one key leaves
/// every other key's log — and so the offset its next send returns —
/// unchanged, so distinct keys never share or interleave offset sequences.
pub proof fn lemma_send_isolation(
    s0: LogStore,
    s1: LogStore,
    k1: Seq<char>,
    k2: Seq<char>,
    m: usize,
)
    requires
        k1 != k2,
        s1.log_of(k1) == s0.log_of(k1).push(m),
        forall|k: Seq<char>| k != k1 ==> s1.log_of(k) == s0.log_of(k),
    ensures
        s1.log_of(k2) == s0.log_of(k2),
        s1.log_of(k2).len() == s0.log_of(k2).len(),
{
}

/// Law: a poll whose start offset is at most the key's lower bound returns
/// exactly the one pair at that offset when the position exists in the log.
pub proof fn lemma_poll_serves_stored_message(s: LogStore, k: Seq<char>, off: usize)
    requires
        off <= s.lower_bound(k),
        (off as int) < s.log_of(k).len(),
    ensures
        s.poll_entry(k, off) == seq![(off, s.log_of(k)[off as int])],
{
}

/// Law: a poll whose start offset is at most the lower bound but past the
/// end of the log returns nothing.
pub proof fn lemma_poll_past_end_empty(s: LogStore, k: Seq<char>, off: usize)
    requires
        off <= s.lower_bound(k),
        (off as int) >= s.log_of(k).len(),
    ensures
        s.poll_entry(k, off) == Seq::<(usize, usize)>::empty(),
{
}

/// Law: a poll whose start offset lies above the key's lower bound returns
/// nothing, regardless of how long the log is.
pub proof fn lemma_poll_beyond_watermark_empty(s: LogStore, k: Seq<char>, off: usize)
    requires
        off > s.lower_bound(k),
    ensures
        s.poll_entry(k, off) == Seq::<(usize, usize)>::empty(),
{
}

/// Law: committing is monotone. Merging a batch of commit entries never
/// lowers a key's committed offset, and never removes it.
pub proof fn lemma_commit_monotone(
    prev: Option<usize>,
    entries: Seq<(Seq<char>, usize)>,
    k: Seq<char>,
)
    ensures
        match (prev, committed_after(prev, entries, k)) {
            (Some(p), Some(c)) => c >= p,
            (Some(p), None) => false,
            _ => true,
        },
    decreases entries.len(),
{
    if entries.len() > 0 {
        lemma_commit_monotone(prev, entries.drop_last(), k);
    }
}

/// Law: listing committed offsets returns the exact recorded value for
/// every pair it returns, and omits no requested key that has a recorded
/// commit (never-committed keys are the only ones left out).
pub proof fn lemma_list_committed_exact(
    s: LogStore,
    keys: Seq<Seq<char>>,
    r: Seq<(Seq<char>, usize)>,
)
    requires
        r == s.list_committed_spec(keys),
    ensures
        forall|i: int| 0 <= i < r.len() ==> s.committed_of(#[trigger] r[i].0) == Some(r[i].1),
        forall|j: int|
            0 <= j < keys.len() && s.committed_of(#[trigger] keys[j]) is Some ==> exists|i: int|
                0 <= i < r.len() && r[i].0 == keys[j],
    decreases keys.len(),
{
    if keys.len() > 0 {
        let prefix = s.list_committed_spec(keys.drop_last());
        lemma_list_committed_exact(s, keys.drop_last(), prefix);
        assert forall|j: int|
            0 <= j < keys.len() && s.committed_of(#[trigger] keys[j]) is Some implies exists|
            i: int,
        |
            0 <= i < r.len() && r[i].0 == keys[j] by {
            if j < keys.len() - 1 {
                assert(keys.drop_last()[j] == keys[j]);
                let i = choose|i: int| 0 <= i < prefix.len() && prefix[i].0 == keys[j];
                assert(r[i].0 == keys[j]);
            } else {
                assert(r[r.len() - 1].0 == keys[j]);
            }
        }
    }
}

proof fn lemma_lookup_log_first_match(s: Seq<(String, Vec<usize>)>, i: int, k: Seq<char>)
    requires
        0 <= i < s.len(),
        s[i].0@ == k,
        forall|j: int| 0 <= j < i ==> s[j].0@ != k,
    ensures
        lookup_log(s, k) == Some(s[i].1@),
    decreases s.len(),
{
    if i > 0 {
        lemma_lookup_log_first_match(s.drop_first(), i - 1, k);
    }
}

proof fn lemma_lookup_log_no_match(s: Seq<(String, Vec<usize>)>, k: Seq<char>)
    requires
        forall|j: int| 0 <= j < s.len() ==> s[j].0@ != k,
    ensures
        lookup_log(s, k) is None,
    decreases s.len(),
{
    if s.len() > 0 {
        lemma_lookup_log_no_match(s.drop_first(), k);
    }
}

proof fn lemma_lookup_log_update(
    s1: Seq<(String, Vec<usize>)>,
    s2: Seq<(String, Vec<usize>)>,
    i: int,
    k: Seq<char>,
)
    requires
        0 <= i < s1.len(),
        s1[i].0@ == k,
        forall|j: int| 0 <= j < i ==> s1[j].0@ != k,
        s2.len() == s1.len(),
        s2[i].0@ == k,
        forall|j: int| 0 <= j < s1.len() && j != i ==> s2[j] == s1[j],
    ensures
        lookup_log(s2, k) == Some(s2[i].1@),
        forall|k2: Seq<char>| k2 != k ==> lookup_log(s2, k2) == lookup_log(s1, k2),
    decreases s1.len(),
{
    if i == 0 {
        assert(s2.drop_first() =~= s1.drop_first());
    } else {
        lemma_lookup_log_update(s1.drop_first(), s2.drop_first(), i - 1, k);
        assert(s2[0] == s1[0]);
        assert forall|k2: Seq<char>| k2 != k implies lookup_log(s2, k2) == lookup_log(s1, k2) by {
            if s1[0].0@ != k2 {
                assert(lookup_log(s1, k2) == lookup_log(s1.drop_first(), k2));
                assert(lookup_log(s2, k2) == lookup_log(s2.drop_first(), k2));
            }
        }
    }
}

proof fn lemma_lookup_log_push(s: Seq<(String, Vec<usize>)>, e: (String, Vec<usize>))
    requires
        lookup_log(s, e.0@) is None,
    ensures
        lookup_log(s.push(e), e.0@) == Some(e.1@),
        forall|k2: Seq<char>| k2 != e.0@ ==> lookup_log(s.push(e), k2) == lookup_log(s, k2),
    decreases s.len(),
{
    if s.len() == 0 {
        assert(s.push(e)[0] == e);
        assert(s.push(e).drop_first() =~= Seq::<(String, Vec<usize>)>::empty());
        assert forall|k2: Seq<char>| k2 != e.0@ implies lookup_log(s.push(e), k2) == lookup_log(
            s,
            k2,
        ) by {
            assert(lookup_log(s.push(e), k2) == lookup_log(s.push(e).drop_first(), k2));
        }
    } else {
        lemma_lookup_log_push(s.drop_first(), e);
        assert(s.push(e).drop_first() =~= s.drop_first().push(e));
        assert(s.push(e)[0] == s[0]);
        assert forall|k2: Seq<char>| k2 != e.0@ implies lookup_log(s.push(e), k2) == lookup_log(
            s,
            k2,
        ) by {
            if s[0].0@ != k2 {
                assert(lookup_log(s.push(e), k2) == lookup_log(s.push(e).drop_first(), k2));
                assert(lookup_log(s, k2) == lookup_log(s.drop_first(), k2));
            }
        }
    }
}

proof fn lemma_lookup_committed_first_match(s: Seq<(String, usize)>, i: int, k: Seq<char>)
    requires
        0 <= i < s.len(),
        s[i].0@ == k,
        forall|j: int| 0 <= j < i ==> s[j].0@ != k,
    ensures
        lookup_committed(s, k) == Some(s[i].1),
    decreases s.len(),
{
    if i > 0 {
        lemma_lookup_committed_first_match(s.drop_first(), i - 1, k);
    }
}

proof fn lemma_lookup_committed_no_match(s: Seq<(String, usize)>, k: Seq<char>)
    requires
        forall|j: int| 0 <= j < s.len() ==> s[j].0@ != k,
    ensures
        lookup_committed(s, k) is None,
    decreases s.len(),
{
    if s.len() > 0 {
        lemma_lookup_committed_no_match(s.drop_first(), k);
    }
}

proof fn lemma_lookup_committed_update(
    s1: Seq<(String, usize)>,
    s2: Seq<(String, usize)>,
    i: int,
    k: Seq<char>,
)
    requires
        0 <= i < s1.len(),
        s1[i].0@ == k,
        forall|j: int| 0 <= j < i ==> s1[j].0@ != k,
        s2.len() == s1.len(),
        s2[i].0@ == k,
        forall|j: int| 0 <= j < s1.len() && j != i ==> s2[j] == s1[j],
    ensures
        lookup_committed(s2, k) == Some(s2[i].1),
        forall|k2: Seq<char>| k2 != k ==> lookup_committed(s2, k2) == lookup_committed(s1, k2),
    decreases s1.len(),
{
    if i == 0 {
        assert(s2.drop_first() =~= s1.drop_first());
    } else {
        lemma_lookup_committed_update(s1.drop_first(), s2.drop_first(), i - 1, k);
        assert(s2[0] == s1[0]);
        assert forall|k2: Seq<char>| k2 != k implies lookup_committed(s2, k2) == lookup_committed(
            s1,
            k2,
        ) by {
            if s1[0].0@ != k2 {
                assert(lookup_committed(s1, k2) == lookup_committed(s1.drop_first(), k2));
                assert(lookup_committed(s2, k2) == lookup_committed(s2.drop_first(), k2));
            }
        }
    }
}

proof fn lemma_lookup_committed_push(s: Seq<(String, usize)>, e: (String, usize))
    requires
        lookup_committed(s, e.0@) is None,
    ensures
        lookup_committed(s.push(e), e.0@) == Some(e.1),
        forall|k2: Seq<char>| k2 != e.0@ ==> lookup_committed(s.push(e), k2) == lookup_committed(
            s,
            k2,
        ),
    decreases s.len(),
{
    if s.len() == 0 {
        assert(s.push(e)[0] == e);
        assert(s.push(e).drop_first() =~= Seq::<(String, usize)>::empty());
        assert forall|k2: Seq<char>| k2 != e.0@ implies lookup_committed(s.push(e), k2)
            == lookup_committed(s, k2) by {
            assert(lookup_committed(s.push(e), k2) == lookup_committed(
                s.push(e).drop_first(),
                k2,
            ));
        }
    } else {
        lemma_lookup_committed_push(s.drop_first(), e);
        assert(s.push(e).drop_first() =~= s.drop_first().push(e));
        assert(s.push(e)[0] == s[0]);
        assert forall|k2: Seq<char>| k2 != e.0@ implies lookup_committed(s.push(e), k2)
            == lookup_committed(s, k2) by {
            if s[0].0@ != k2 {
                assert(lookup_committed(s.push(e), k2) == lookup_committed(
                    s.push(e).drop_first(),
                    k2,
                ));
                assert(lookup_committed(s, k2) == lookup_committed(s.drop_first(), k2));
            }
        }
    }
}

} // verus!
