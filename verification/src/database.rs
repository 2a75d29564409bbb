//! The shared key-value store: a mapping from key to entry with
//! last-writer-wins replacement and race-free expiry cancellation.
//! A pending expiry is named by a token; an expiry may remove a key
//! only while the stored token is still the one it was scheduled
//! under, so a later write cancels it atomically.
use vstd::prelude::*;

verus! {

broadcast use vstd::std_specs::vec::group_vec_axioms, vstd::seq::group_seq_axioms;

/// Compares two byte strings.
pub fn bytes_eq(a: &Vec<u8>, b: &Vec<u8>) -> (r: bool)
    ensures
        r == (a@ == b@),
{
    if a.len() != b.len() {
        return false;
    }
    let mut i: usize = 0;
    while i < a.len()
        invariant
            a@.len() == b@.len(),
            0 <= i <= a@.len(),
            forall|j: int| 0 <= j < i ==> a@[j] == b@[j],
        decreases a@.len() - i,
    {
        if a[i] != b[i] {
            return false;
        }
        i = i + 1;
    }
    proof {
        assert(a@ =~= b@);
    }
    true
}

/// Copies a byte string.
pub fn clone_bytes(v: &Vec<u8>) -> (r: Vec<u8>)
    ensures
        r@ == v@,
{
    let mut out: Vec<u8> = Vec::new();
    let mut i: usize = 0;
    while i < v.len()
        invariant
            0 <= i <= v@.len(),
            out@ == v@.take(i as int),
        decreases v@.len() - i,
    {
        out.push(v[i]);
        proof {
            assert(v@.take(i + 1) =~= v@.take(i as int).push(v@[i as int]));
        }
        i = i + 1;
    }
    proof {
        assert(v@.take(i as int) =~= v@);
    }
    out
}

/// One stored entry: the value, and the token of its pending expiry if
/// one is scheduled.
pub struct DbEntry {
    pub value: Vec<u8>,
    pub timeout_token: Option<u64>,
}

/// The model of an entry.
pub struct EntryModel {
    pub value: Seq<u8>,
    pub timeout_token: Option<u64>,
}

impl View for DbEntry {
    type V = EntryModel;

    open spec fn view(&self) -> EntryModel {
        EntryModel { value: self.value@, timeout_token: self.timeout_token }
    }
}

impl DbEntry {
    /// An entry with no pending expiry.
    pub fn new(value: Vec<u8>) -> (r: Self)
        ensures
            r@ == (EntryModel { value: value@, timeout_token: None::<u64> }),
    {
        Self { value, timeout_token: None }
    }

    /// An entry whose expiry is pending under the given token.
    pub fn with_timeout(value: Vec<u8>, token: u64) -> (r: Self)
        ensures
            r@ == (EntryModel { value: value@, timeout_token: Some(token) }),
    {
        Self { value, timeout_token: Some(token) }
    }
}

/// The map an entry list denotes, later entries winning.
spec fn entries_map(s: Seq<(Vec<u8>, DbEntry)>) -> Map<Seq<u8>, EntryModel>
    decreases s.len(),
{
    if s.len() == 0 {
        Map::empty()
    } else {
        entries_map(s.drop_last()).insert(s.last().0@, s.last().1@)
    }
}

/// No key occurs twice.
spec fn keys_distinct(s: Seq<(Vec<u8>, DbEntry)>) -> bool {
    forall|i: int, j: int| 0 <= i < j < s.len() ==> (#[trigger] s[i]).0@ != (#[trigger] s[j]).0@
}

/// What the map says is what the list holds.
proof fn lemma_entries_map(s: Seq<(Vec<u8>, DbEntry)>)
    requires
        keys_distinct(s),
    ensures
        forall|i: int| 0 <= i < s.len() ==> entries_map(s).contains_key((#[trigger] s[i]).0@)
            && entries_map(s)[s[i].0@] == s[i].1@,
        forall|k: Seq<u8>| #[trigger] entries_map(s).contains_key(k) ==> exists|i: int|
            0 <= i < s.len() && (#[trigger] s[i]).0@ == k,
    decreases s.len(),
{
    if s.len() > 0 {
        lemma_entries_map(s.drop_last());
        assert forall|i: int| 0 <= i < s.len() implies entries_map(s).contains_key(
            (#[trigger] s[i]).0@,
        ) && entries_map(s)[s[i].0@] == s[i].1@ by {
            if i < s.len() - 1 {
                assert(s.drop_last()[i] == s[i]);
                assert(s[i].0@ != s.last().0@);
            }
        }
        assert forall|k: Seq<u8>| #[trigger] entries_map(s).contains_key(k) implies exists|i: int|
            0 <= i < s.len() && (#[trigger] s[i]).0@ == k by {
            if k != s.last().0@ {
                assert(entries_map(s.drop_last()).contains_key(k));
                let i = choose|i: int|
                    0 <= i < s.drop_last().len() && (#[trigger] s.drop_last()[i]).0@ == k;
                assert(s.drop_last()[i] == s[i]);
                assert(s[i].0@ == k);
            } else {
                assert(s[s.len() - 1].0@ == k);
            }
        }
    }
}

/// A key on no entry is not in the map.
proof fn lemma_entries_map_absent(s: Seq<(Vec<u8>, DbEntry)>, k: Seq<u8>)
    requires
        forall|i: int| 0 <= i < s.len() ==> (#[trigger] s[i]).0@ != k,
    ensures
        !entries_map(s).contains_key(k),
    decreases s.len(),
{
    if s.len() > 0 {
        assert(s[s.len() - 1].0@ != k);
        lemma_entries_map_absent(s.drop_last(), k);
    }
}

/// Removing one entry removes exactly its key from the map.
proof fn lemma_entries_map_remove(s: Seq<(Vec<u8>, DbEntry)>, i: int)
    requires
        keys_distinct(s),
        0 <= i < s.len(),
    ensures
        entries_map(s.remove(i)) == entries_map(s).remove(s[i].0@),
    decreases s.len(),
{
    let k = s[i].0@;
    if i == s.len() - 1 {
        assert(s.remove(i) =~= s.drop_last());
        assert forall|j: int| 0 <= j < s.drop_last().len() implies (#[trigger] s.drop_last()[
            j
        ]).0@ != k by {
            assert(s.drop_last()[j] == s[j]);
        }
        lemma_entries_map_absent(s.drop_last(), k);
        assert(entries_map(s.drop_last()) =~= entries_map(s).remove(k));
    } else {
        assert(s.remove(i).last() == s.last());
        assert(s.remove(i).drop_last() =~= s.drop_last().remove(i));
        assert forall|a: int, b: int| 0 <= a < b < s.drop_last().len() implies (
        #[trigger] s.drop_last()[a]).0@ != (#[trigger] s.drop_last()[b]).0@ by {
            assert(s.drop_last()[a] == s[a]);
            assert(s.drop_last()[b] == s[b]);
        }
        lemma_entries_map_remove(s.drop_last(), i);
        assert(s.drop_last()[i] == s[i]);
        assert(s.last().0@ != k);
        assert(entries_map(s.remove(i)) =~= entries_map(s).remove(k));
    }
}

/// The shared store: entries keyed by byte-string keys, plus the
/// counter that names the next expiry token. Tokens are never reused,
/// so a token identifies one scheduling forever.
pub struct Db {
    entries: Vec<(Vec<u8>, DbEntry)>,
    next_token: u64,
}

impl View for Db {
    type V = Map<Seq<u8>, EntryModel>;

    closed spec fn view(&self) -> Map<Seq<u8>, EntryModel> {
        entries_map(self.entries@)
    }
}

/// The expiry scheduled under `token` is still the live one for `key`:
/// exactly then may it remove the entry.
pub open spec fn expiry_due(m: Map<Seq<u8>, EntryModel>, key: Seq<u8>, token: u64) -> bool {
    m.contains_key(key) && m[key].timeout_token == Some(token)
}

impl Db {
    /// Every key occurs once, and every stored token was handed out
    /// before the counter's current position.
    pub closed spec fn wf(&self) -> bool {
        &&& keys_distinct(self.entries@)
        &&& forall|i: int| 0 <= i < self.entries@.len()
            ==> ((#[trigger] self.entries@[i]).1.timeout_token matches Some(t) ==> t
            < self.next_token)
    }

    /// No token has been handed out yet over an empty store.
    pub fn new() -> (r: Db)
        ensures
            r.wf(),
            r@ == Map::<Seq<u8>, EntryModel>::empty(),
    {
        let r = Db { entries: Vec::new(), next_token: 0 };
        proof {
            assert(r@ =~= Map::<Seq<u8>, EntryModel>::empty());
        }
        r
    }

    /// Every token is spent: no further expiry can be scheduled.
    pub closed spec fn tokens_exhausted(&self) -> bool {
        self.next_token == u64::MAX
    }

    /// The position of a key's entry.
    fn find_idx(&self, key: &Vec<u8>) -> (r: Option<usize>)
        ensures
            match r {
                Some(i) => i < self.entries@.len() && self.entries@[i as int].0@ == key@,
                None => forall|i: int| 0 <= i < self.entries@.len()
                    ==> (#[trigger] self.entries@[i]).0@ != key@,
            },
    {
        let mut i: usize = 0;
        while i < self.entries.len()
            invariant
                0 <= i <= self.entries@.len(),
                forall|j: int| 0 <= j < i ==> (#[trigger] self.entries@[j]).0@ != key@,
            decreases self.entries@.len() - i,
        {
            if bytes_eq(&self.entries[i].0, key) {
                return Some(i);
            }
            i = i + 1;
        }
        None
    }

    /// Looks a key up; never touches freshness — expiry is the expiry
    /// task's business alone.
    pub fn get(&self, key: &Vec<u8>) -> (r: Option<Vec<u8>>)
        requires
            self.wf(),
        ensures
            match r {
                Some(v) => self@.contains_key(key@) && self@[key@].value == v@,
                None => !self@.contains_key(key@),
            },
    {
        proof {
            lemma_entries_map(self.entries@);
        }
        match self.find_idx(key) {
            Some(i) => Some(clone_bytes(&self.entries[i].1.value)),
            None => {
                proof {
                    lemma_entries_map_absent(self.entries@, key@);
                }
                None
            },
        }
    }

    /// Replaces or installs the entry for `key`, reporting the
    /// replaced entry's token.
    fn put(&mut self, key: Vec<u8>, entry: DbEntry) -> (prev: Option<u64>)
        requires
            old(self).wf(),
            entry.timeout_token matches Some(t) ==> t < old(self).next_token,
        ensures
            final(self).wf(),
            final(self)@ == old(self)@.insert(key@, entry@),
            final(self).next_token == old(self).next_token,
            prev == (if old(self)@.contains_key(key@) {
                old(self)@[key@].timeout_token
            } else {
                None::<u64>
            }),
    {
        let ghost pre = self.entries@;
        proof {
            lemma_entries_map(pre);
        }
        let prev: Option<u64> = match self.find_idx(&key) {
            Some(i) => {
                let p = self.entries[i].1.timeout_token;
                self.entries.remove(i);
                proof {
                    lemma_entries_map_remove(pre, i as int);
                    lemma_distinct_remove(pre, i as int);
                }
                p
            },
            None => {
                proof {
                    lemma_entries_map_absent(pre, key@);
                }
                None
            },
        };
        let ghost mid = self.entries@;
        let ghost e = entry@;
        self.entries.push((key, entry));
        proof {
            assert(self.entries@.drop_last() =~= mid);
            assert(entries_map(self.entries@) == entries_map(mid).insert(
                self.entries@.last().0@,
                e,
            ));
            assert(entries_map(self.entries@) =~= entries_map(pre).insert(
                self.entries@.last().0@,
                e,
            ));
            assert forall|a: int, b: int|
                0 <= a < b < self.entries@.len() implies (#[trigger] self.entries@[a]).0@ != (
            #[trigger] self.entries@[b]).0@ by {
                if b < self.entries@.len() - 1 {
                    assert(self.entries@[a] == mid[a]);
                    assert(self.entries@[b] == mid[b]);
                } else {
                    assert(self.entries@[a] == mid[a]);
                }
            }
        }
        prev
    }

    /// Installs or replaces the entry for a key with one that has no
    /// pending expiry, and reports the replaced entry's token: any
    /// expiry still scheduled under it is thereby cancelled.
    pub fn set(&mut self, key: Vec<u8>, value: Vec<u8>) -> (prev: Option<u64>)
        requires
            old(self).wf(),
        ensures
            final(self).wf(),
            final(self)@ == old(self)@.insert(
                key@,
                EntryModel { value: value@, timeout_token: None::<u64> },
            ),
            prev == (if old(self)@.contains_key(key@) {
                old(self)@[key@].timeout_token
            } else {
                None::<u64>
            }),
            final(self).tokens_exhausted() == old(self).tokens_exhausted(),
    {
        self.put(key, DbEntry::new(value))
    }

    /// Installs or replaces the entry for a key and schedules an
    /// expiry for it under a fresh token, which no other entry holds;
    /// reports the replaced entry's token and the fresh one. `None`
    /// only when every token has been spent.
    pub fn set_px(&mut self, key: Vec<u8>, value: Vec<u8>) -> (r: Option<(Option<u64>, u64)>)
        requires
            old(self).wf(),
        ensures
            final(self).wf(),
            r is None <==> old(self).tokens_exhausted(),
            r is None ==> *final(self) == *old(self),
            r matches Some(p) ==> {
                &&& final(self)@ == old(self)@.insert(
                    key@,
                    EntryModel { value: value@, timeout_token: Some(p.1) },
                )
                &&& p.0 == (if old(self)@.contains_key(key@) {
                    old(self)@[key@].timeout_token
                } else {
                    None::<u64>
                })
                &&& forall|k2: Seq<u8>| k2 != key@ && old(self)@.contains_key(k2)
                    ==> (#[trigger] old(self)@[k2]).timeout_token != Some(p.1)
            },
    {
        if self.next_token == u64::MAX {
            return None;
        }
        let tok = self.next_token;
        self.next_token = tok + 1;
        proof {
            lemma_entries_map(self.entries@);
            assert forall|k2: Seq<u8>| k2 != key@ && self@.contains_key(k2) implies (
            #[trigger] self@[k2]).timeout_token != Some(tok) by {
                let i = choose|i: int|
                    0 <= i < self.entries@.len() && (#[trigger] self.entries@[i]).0@ == k2;
            }
        }
        let prev = self.put(key, DbEntry::with_timeout(value, tok));
        Some((prev, tok))
    }

    /// The expiry task's single atomic step: removes the entry for
    /// `key` exactly when the token it was scheduled under is still
    /// the live one — a key overwritten or rescheduled since then is
    /// left alone.
    pub fn expire(&mut self, key: &Vec<u8>, token: u64) -> (removed: bool)
        requires
            old(self).wf(),
        ensures
            final(self).wf(),
            removed == expiry_due(old(self)@, key@, token),
            removed ==> final(self)@ == old(self)@.remove(key@),
            !removed ==> *final(self) == *old(self),
    {
        let ghost pre = self.entries@;
        proof {
            lemma_entries_map(pre);
        }
        match self.find_idx(key) {
            Some(i) => {
                let hit = match self.entries[i].1.timeout_token {
                    Some(t) => t == token,
                    None => false,
                };
                if hit {
                    self.entries.remove(i);
                    proof {
                        lemma_entries_map_remove(pre, i as int);
                        lemma_distinct_remove(pre, i as int);
                    }
                    true
                } else {
                    false
                }
            },
            None => {
                proof {
                    lemma_entries_map_absent(pre, key@);
                }
                false
            },
        }
    }
}

/// Distinct keys stay distinct when an entry is removed.
proof fn lemma_distinct_remove(s: Seq<(Vec<u8>, DbEntry)>, i: int)
    requires
        keys_distinct(s),
        0 <= i < s.len(),
    ensures
        keys_distinct(s.remove(i)),
{
    let t = s.remove(i);
    assert forall|a: int, b: int| 0 <= a < b < t.len() implies (#[trigger] t[a]).0@ != (
    #[trigger] t[b]).0@ by {
        let a0 = if a < i { a } else { a + 1 };
        let b0 = if b < i { b } else { b + 1 };
        assert(t[a] == s[a0]);
        assert(t[b] == s[b0]);
    }
}

/// A fresh write is what a later read returns: installing an entry
/// and looking its key up yields exactly that value.
pub proof fn lemma_set_then_get(m: Map<Seq<u8>, EntryModel>, key: Seq<u8>, e: EntryModel)
    ensures
        m.insert(key, e).contains_key(key),
        m.insert(key, e)[key] == e,
{
}

/// Last writer wins: two writes to one key leave only the second.
pub proof fn lemma_last_writer_wins(
    m: Map<Seq<u8>, EntryModel>,
    key: Seq<u8>,
    e1: EntryModel,
    e2: EntryModel,
)
    ensures
        m.insert(key, e1).insert(key, e2) == m.insert(key, e2),
{
    assert(m.insert(key, e1).insert(key, e2) =~= m.insert(key, e2));
}

/// A scheduled expiry whose token is still live fires: it finds the
/// entry due and its removal leaves the key absent.
pub proof fn lemma_expiry_fires(
    m: Map<Seq<u8>, EntryModel>,
    key: Seq<u8>,
    value: Seq<u8>,
    token: u64,
)
    ensures
        expiry_due(
            m.insert(key, EntryModel { value, timeout_token: Some(token) }),
            key,
            token,
        ),
        !m.insert(key, EntryModel { value, timeout_token: Some(token) }).remove(key).contains_key(
            key,
        ),
{
}

/// Overwriting a key without an expiry cancels any pending one: no
/// token whatever is due on the new entry, so no expiry task may
/// remove it.
pub proof fn lemma_overwrite_cancels(
    m: Map<Seq<u8>, EntryModel>,
    key: Seq<u8>,
    value: Seq<u8>,
    token: u64,
)
    ensures
        !expiry_due(m.insert(key, EntryModel { value, timeout_token: None::<u64> }), key, token),
{
}

} // verus!
