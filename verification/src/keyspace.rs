//! The keyspace: a map from binary keys to values with optional expiry,
//! enforcing expiry-on-read.

use vstd::prelude::*;
use vstd::slice::slice_to_vec;

verus! {

/// One stored entry: the value and an optional absolute expiry instant, in
/// milliseconds of wall-clock time. No expiry means the entry never expires.
pub struct Entry {
    pub value: Vec<u8>,
    pub expiry: Option<u64>,
}

/// The mathematical value of an `Entry`.
pub struct EntryView {
    pub value: Seq<u8>,
    pub expiry: Option<u64>,
}

impl View for Entry {
    type V = EntryView;

    open spec fn view(&self) -> EntryView {
        EntryView { value: self.value@, expiry: self.expiry }
    }
}

/// Live at `now`: no expiry set, or the expiry instant not yet reached.
pub open spec fn entry_live(e: EntryView, now: u64) -> bool {
    match e.expiry {
        Option::None => true,
        Option::Some(t) => now < t,
    }
}

/// Expired at `now`: an expiry is set and has been reached.
pub open spec fn entry_expired(e: EntryView, now: u64) -> bool {
    match e.expiry {
        Option::None => false,
        Option::Some(t) => now >= t,
    }
}

/// What a read of `k` at time `now` returns: the value of a live entry,
/// nothing otherwise. No value is ever returned at or past its expiry.
pub open spec fn spec_get(m: Map<Seq<u8>, EntryView>, k: Seq<u8>, now: u64) -> Option<Seq<u8>> {
    if m.contains_key(k) && entry_live(m[k], now) {
        Some(m[k].value)
    } else {
        None
    }
}

/// The map after a read of `k` at `now`: an expired entry under `k` has been
/// lazily evicted; nothing else changes.
pub open spec fn spec_get_effect(m: Map<Seq<u8>, EntryView>, k: Seq<u8>, now: u64) -> Map<Seq<u8>, EntryView> {
    if m.contains_key(k) && entry_expired(m[k], now) {
        m.remove(k)
    } else {
        m
    }
}

/// Whether `SET` under the guards `nx` (only if absent) and `xx` (only if
/// present) installs the new value. Presence is judged after lazy expiry.
pub open spec fn spec_set_applies(m: Map<Seq<u8>, EntryView>, k: Seq<u8>, now: u64, nx: bool, xx: bool) -> bool {
    let present = spec_get(m, k, now) is Some;
    !(nx && present) && !(xx && !present)
}

/// The keys of entries that carry an expiry.
pub open spec fn expirable_keys(m: Map<Seq<u8>, EntryView>) -> Set<Seq<u8>> {
    m.dom().filter(|k: Seq<u8>| m[k].expiry is Some)
}

/// The outcome of a conditional write: either the value was installed and the
/// previously visible value (if any) reported, or a guard held it back.
pub enum SetOutcome {
    Applied { prev: Option<Vec<u8>> },
    NotApplied,
}

/// Keys of an association list are pairwise distinct.
pub open spec fn distinct_keys(s: Seq<(Vec<u8>, Entry)>) -> bool {
    forall|i: int, j: int| 0 <= i < j < s.len() ==> s[i].0@ != s[j].0@
}

/// The map an association list denotes.
pub open spec fn list_to_map(s: Seq<(Vec<u8>, Entry)>) -> Map<Seq<u8>, EntryView>
    decreases s.len(),
{
    if s.len() == 0 {
        Map::empty()
    } else {
        list_to_map(s.drop_last()).insert(s.last().0@, s.last().1@)
    }
}

/// Entries of the list that carry an expiry.
pub open spec fn count_expirable(s: Seq<(Vec<u8>, Entry)>) -> nat
    decreases s.len(),
{
    if s.len() == 0 {
        0
    } else {
        count_expirable(s.drop_last()) + (if s.last().1.expiry is Some { 1nat } else { 0nat })
    }
}

/// What an association list's map holds, given distinct keys.
pub proof fn lemma_list_to_map_props(s: Seq<(Vec<u8>, Entry)>)
    requires
        distinct_keys(s),
    ensures
        list_to_map(s).dom().finite(),
        list_to_map(s).dom().len() == s.len(),
        forall|k: Seq<u8>| list_to_map(s).contains_key(k) ==> exists|i: int| 0 <= i < s.len() && #[trigger] s[i].0@ == k,
        forall|i: int| 0 <= i < s.len() ==> list_to_map(s).contains_key(#[trigger] s[i].0@)
            && list_to_map(s)[s[i].0@] == s[i].1@,
    decreases s.len(),
{
    if s.len() > 0 {
        let t = s.drop_last();
        assert(distinct_keys(t)) by {
            assert(forall|i: int, j: int| 0 <= i < j < t.len() ==> s[i].0@ != s[j].0@);
        }
        lemma_list_to_map_props(t);
        let kl = s.last().0@;
        if list_to_map(t).contains_key(kl) {
            let i = choose|i: int| 0 <= i < t.len() && #[trigger] t[i].0@ == kl;
            assert(s[i].0@ == s[s.len() - 1].0@);
            assert(false);
        }
        assert(list_to_map(s).dom() =~= list_to_map(t).dom().insert(kl));
        assert forall|i: int| 0 <= i < s.len() implies list_to_map(s).contains_key(#[trigger] s[i].0@)
            && list_to_map(s)[s[i].0@] == s[i].1@ by {
            if i < s.len() - 1 {
                assert(t[i] == s[i]);
                assert(s[i].0@ != kl);
            }
        }
    }
}

/// Appending a fresh key inserts it into the map.
pub proof fn lemma_list_to_map_push(s: Seq<(Vec<u8>, Entry)>, kv: (Vec<u8>, Entry))
    ensures
        list_to_map(s.push(kv)) == list_to_map(s).insert(kv.0@, kv.1@),
{
    assert(s.push(kv).drop_last() =~= s);
    assert(s.push(kv).last() == kv);
}

/// Removing the entry at `i` removes its key from the map.
pub proof fn lemma_list_to_map_remove(s: Seq<(Vec<u8>, Entry)>, i: int)
    requires
        distinct_keys(s),
        0 <= i < s.len(),
    ensures
        list_to_map(s.remove(i)) == list_to_map(s).remove(s[i].0@),
        distinct_keys(s.remove(i)),
    decreases s.len(),
{
    let t = s.drop_last();
    assert(distinct_keys(t)) by {
        assert(forall|a: int, b: int| 0 <= a < b < t.len() ==> s[a].0@ != s[b].0@);
    }
    lemma_list_to_map_props(s);
    lemma_list_to_map_props(t);
    let kl = s.last().0@;
    assert(distinct_keys(s.remove(i))) by {
        assert forall|a: int, b: int| 0 <= a < b < s.remove(i).len() implies s.remove(i)[a].0@ != s.remove(i)[b].0@ by {
            let a2: int = if a < i { a } else { a + 1 };
            let b2: int = if b < i { b } else { b + 1 };
            assert(s.remove(i)[a] == s[a2]);
            assert(s.remove(i)[b] == s[b2]);
        }
    }
    if i == s.len() - 1 {
        assert(s.remove(i) =~= t);
        if list_to_map(t).contains_key(kl) {
            let j = choose|j: int| 0 <= j < t.len() && #[trigger] t[j].0@ == kl;
            assert(s[j].0@ == s[s.len() - 1].0@);
            assert(false);
        }
        assert(list_to_map(t).insert(kl, s.last().1@).remove(kl) =~= list_to_map(t));
    } else {
        lemma_list_to_map_remove(t, i);
        assert(s.remove(i).drop_last() =~= t.remove(i));
        assert(s.remove(i).last() == s.last());
        assert(s[i].0@ != kl);
        assert(list_to_map(s.remove(i)) == list_to_map(t.remove(i)).insert(kl, s.last().1@));
        assert(list_to_map(t).remove(s[i].0@).insert(kl, s.last().1@)
            =~= list_to_map(t).insert(kl, s.last().1@).remove(s[i].0@));
        assert(t[i] == s[i]);
    }
}

/// Cardinality of the expirable-key set, counted along the list.
pub proof fn lemma_expirable_count(s: Seq<(Vec<u8>, Entry)>)
    requires
        distinct_keys(s),
    ensures
        expirable_keys(list_to_map(s)).finite(),
        expirable_keys(list_to_map(s)).len() == count_expirable(s),
    decreases s.len(),
{
    if s.len() == 0 {
        assert(expirable_keys(list_to_map(s)) =~= Set::<Seq<u8>>::empty());
    } else {
        let t = s.drop_last();
        assert(distinct_keys(t)) by {
            assert(forall|a: int, b: int| 0 <= a < b < t.len() ==> s[a].0@ != s[b].0@);
        }
        lemma_expirable_count(t);
        lemma_list_to_map_props(t);
        let kl = s.last().0@;
        if list_to_map(t).contains_key(kl) {
            let j = choose|j: int| 0 <= j < t.len() && #[trigger] t[j].0@ == kl;
            assert(s[j].0@ == s[s.len() - 1].0@);
            assert(false);
        }
        if s.last().1.expiry is Some {
            assert(expirable_keys(list_to_map(s)) =~= expirable_keys(list_to_map(t)).insert(kl));
        } else {
            assert(expirable_keys(list_to_map(s)) =~= expirable_keys(list_to_map(t)));
        }
    }
}

/// Copies a byte string.
pub fn clone_bytes(v: &Vec<u8>) -> (r: Vec<u8>)
    ensures
        r@ == v@,
{
    slice_to_vec(v.as_slice())
}

/// The keyspace, an in-memory map from binary keys to entries. Its
/// mathematical value is a `Map` from key bytes to entry values.
pub struct Keyspace {
    entries: Vec<(Vec<u8>, Entry)>,
}

impl View for Keyspace {
    type V = Map<Seq<u8>, EntryView>;

    closed spec fn view(&self) -> Map<Seq<u8>, EntryView> {
        list_to_map(self.entries@)
    }
}

impl Keyspace {
    /// The structural invariant: one slot per key.
    pub closed spec fn wf(&self) -> bool {
        distinct_keys(self.entries@)
    }

    /// An empty keyspace.
    pub fn new() -> (r: Keyspace)
        ensures
            r.wf(),
            r@ == Map::<Seq<u8>, EntryView>::empty(),
    {
        Keyspace { entries: Vec::new() }
    }

    /// The slot holding `key`, if any.
    fn position(&self, key: &Vec<u8>) -> (r: Option<usize>)
        requires
            self.wf(),
        ensures
            match r {
                Some(i) => i < self.entries@.len() && self.entries@[i as int].0@ == key@
                    && self@.contains_key(key@) && self@[key@] == self.entries@[i as int].1@,
                None => !self@.contains_key(key@),
            },
    {
        proof {
            lemma_list_to_map_props(self.entries@);
        }
        let mut i: usize = 0;
        #[verifier::loop_isolation(false)]
        while i < self.entries.len()
            invariant
                i <= self.entries@.len(),
                forall|j: int| 0 <= j < i ==> self.entries@[j].0@ != key@,
            decreases self.entries@.len() - i,
        {
            if bytes_eq(&self.entries[i].0, key) {
                return Some(i);
            }
            i = i + 1;
        }
        proof {
            if self@.contains_key(key@) {
                let j = choose|j: int| 0 <= j < self.entries@.len() && #[trigger] self.entries@[j].0@ == key@;
                assert(false);
            }
        }
        None
    }

    /// Reads `key` at time `now`. A live entry's value is returned; an
    /// expired entry is evicted and nothing is returned; no value is ever
    /// returned at or past its expiry.
    pub fn get(&mut self, key: &Vec<u8>, now: u64) -> (r: Option<Vec<u8>>)
        requires
            old(self).wf(),
        ensures
            final(self).wf(),
            final(self)@ == spec_get_effect(old(self)@, key@, now),
            match r {
                Some(v) => spec_get(old(self)@, key@, now) == Some(v@),
                None => spec_get(old(self)@, key@, now) is None,
            },
    {
        match self.position(key) {
            None => None,
            Some(i) => {
                let live = match self.entries[i].1.expiry {
                    None => true,
                    Some(t) => now < t,
                };
                if live {
                    Some(clone_bytes(&self.entries[i].1.value))
                } else {
                    proof {
                        lemma_list_to_map_remove(self.entries@, i as int);
                    }
                    self.entries.remove(i);
                    None
                }
            },
        }
    }

    /// Writes `key` at time `now`, honouring the `nx`/`xx` guards. When the
    /// write applies, the previously visible value (after lazy expiry) is
    /// reported; when a guard holds it back, nothing is written and only the
    /// lazy eviction of an expired entry under `key` takes place.
    pub fn set(&mut self, key: &Vec<u8>, value: Vec<u8>, expiry: Option<u64>, nx: bool, xx: bool, now: u64) -> (r: SetOutcome)
        requires
            old(self).wf(),
        ensures
            final(self).wf(),
            spec_set_applies(old(self)@, key@, now, nx, xx) ==> {
                &&& final(self)@ == old(self)@.insert(key@, EntryView { value: value@, expiry })
                &&& match r {
                    SetOutcome::Applied { prev } => match prev {
                        Some(p) => spec_get(old(self)@, key@, now) == Some(p@),
                        None => spec_get(old(self)@, key@, now) is None,
                    },
                    SetOutcome::NotApplied => false,
                }
            },
            !spec_set_applies(old(self)@, key@, now, nx, xx) ==> {
                &&& final(self)@ == spec_get_effect(old(self)@, key@, now)
                &&& r is NotApplied
            },
    {
        let prev = self.get(key, now);
        let applies = !(nx && prev.is_some()) && !(xx && prev.is_none());
        if !applies {
            return SetOutcome::NotApplied;
        }
        match self.position(key) {
            Some(i) => {
                proof {
                    lemma_list_to_map_remove(self.entries@, i as int);
                }
                self.entries.remove(i);
            },
            None => {},
        }
        proof {
            lemma_list_to_map_props(self.entries@);
            if self@.contains_key(key@) {
                let j = choose|j: int| 0 <= j < self.entries@.len() && #[trigger] self.entries@[j].0@ == key@;
                assert(false);
            }
        }
        let ghost before_push = self.entries@;
        let kv = (clone_bytes(key), Entry { value, expiry });
        proof {
            lemma_list_to_map_push(before_push, kv);
        }
        self.entries.push(kv);
        proof {
            assert forall|a: int, b: int| 0 <= a < b < self.entries@.len() implies self.entries@[a].0@ != self.entries@[b].0@ by {
                if b == self.entries@.len() - 1 {
                    assert(!list_to_map(before_push).contains_key(key@));
                    lemma_list_to_map_props(before_push);
                }
            }
            assert(final(self)@ =~= old(self)@.insert(key@, EntryView { value: value@, expiry }));
        }
        SetOutcome::Applied { prev }
    }

    /// Removes the listed keys unconditionally.
    pub fn evict(&mut self, keys: &Vec<Vec<u8>>)
        requires
            old(self).wf(),
        ensures
            final(self).wf(),
            final(self)@ == old(self)@.remove_keys(keys.deep_view().to_set()),
    {
        let ghost target = keys.deep_view().to_set();
        let mut i: usize = 0;
        #[verifier::loop_isolation(false)]
        while i < keys.len()
            invariant
                i <= keys@.len(),
                self.wf(),
                self@ == old(self)@.remove_keys(keys.deep_view().take(i as int).to_set()),
            decreases keys@.len() - i,
        {
            proof {
                let dv = keys.deep_view();
                assert(dv[i as int] == keys@[i as int]@);
                assert forall|x: Seq<u8>| #[trigger] dv.take(i + 1).to_set().contains(x)
                    implies dv.take(i as int).to_set().insert(dv[i as int]).contains(x) by {
                    let idx = choose|idx: int| 0 <= idx < dv.take(i + 1).len() && #[trigger] dv.take(i + 1)[idx] == x;
                    if idx < i {
                        assert(dv.take(i as int)[idx] == x);
                        assert(dv.take(i as int).contains(x));
                    } else {
                        assert(dv.take(i + 1)[idx] == dv[i as int]);
                    }
                }
                assert forall|x: Seq<u8>| #[trigger] dv.take(i as int).to_set().insert(dv[i as int]).contains(x)
                    implies dv.take(i + 1).to_set().contains(x) by {
                    if dv.take(i as int).to_set().contains(x) {
                        let idx = choose|idx: int| 0 <= idx < dv.take(i as int).len() && #[trigger] dv.take(i as int)[idx] == x;
                        assert(dv.take(i + 1)[idx] == x);
                        assert(dv.take(i + 1).contains(x));
                    } else {
                        assert(dv.take(i + 1)[i as int] == x);
                        assert(dv.take(i + 1).contains(x));
                    }
                }
                assert(dv.take(i + 1).to_set() =~= dv.take(i as int).to_set().insert(dv[i as int]));
                assert(old(self)@.remove_keys(dv.take(i + 1).to_set())
                    =~= old(self)@.remove_keys(dv.take(i as int).to_set()).remove(keys@[i as int]@));
            }
            match self.position(&keys[i]) {
                Some(j) => {
                    proof {
                        lemma_list_to_map_remove(self.entries@, j as int);
                    }
                    self.entries.remove(j);
                },
                None => {
                    proof {
                        assert(self@.remove(keys@[i as int]@) =~= self@);
                    }
                },
            }
            i = i + 1;
        }
        proof {
            assert(keys.deep_view().take(keys@.len() as int) =~= keys.deep_view());
        }
    }

    /// How many entries the keyspace holds.
    pub fn num_entries(&self) -> (r: usize)
        requires
            self.wf(),
        ensures
            r == self@.dom().len(),
    {
        proof {
            lemma_list_to_map_props(self.entries@);
        }
        self.entries.len()
    }

    /// The keys of all entries that carry an expiry: exactly the expirable
    /// keys of the map, one slot each.
    pub fn keys_with_expiry(&self) -> (r: Vec<Vec<u8>>)
        requires
            self.wf(),
        ensures
            r@.len() == expirable_keys(self@).len(),
            forall|i: int| 0 <= i < r@.len() ==> self@.contains_key((#[trigger] r@[i])@)
                && self@[r@[i]@].expiry is Some,
            forall|k: Seq<u8>| self@.contains_key(k) && self@[k].expiry is Some
                ==> exists|i: int| 0 <= i < r@.len() && (#[trigger] r@[i])@ == k,
    {
        proof {
            lemma_list_to_map_props(self.entries@);
            lemma_expirable_count(self.entries@);
        }
        let mut out: Vec<Vec<u8>> = Vec::new();
        let mut i: usize = 0;
        #[verifier::loop_isolation(false)]
        while i < self.entries.len()
            invariant
                i <= self.entries@.len(),
                out@.len() == count_expirable(self.entries@.take(i as int)),
                forall|j: int| 0 <= j < out@.len() ==> self@.contains_key((#[trigger] out@[j])@)
                    && self@[out@[j]@].expiry is Some,
                forall|j: int| 0 <= j < i && self.entries@[j].1.expiry is Some
                    ==> exists|p: int| 0 <= p < out@.len() && (#[trigger] out@[p])@ == self.entries@[j].0@,
            decreases self.entries@.len() - i,
        {
            proof {
                assert(self.entries@.take(i + 1).drop_last() =~= self.entries@.take(i as int));
                assert(self.entries@.take(i + 1).last() == self.entries@[i as int]);
            }
            let has_expiry = match self.entries[i].1.expiry {
                Some(_) => true,
                None => false,
            };
            if has_expiry {
                let k = clone_bytes(&self.entries[i].0);
                proof {
                    assert(self@.contains_key(self.entries@[i as int].0@));
                    assert(self@[self.entries@[i as int].0@] == self.entries@[i as int].1@);
                }
                let ghost out_before = out@;
                out.push(k);
                proof {
                    assert forall|j: int| 0 <= j < i + 1 && self.entries@[j].1.expiry is Some
                        implies exists|p: int| 0 <= p < out@.len() && (#[trigger] out@[p])@ == self.entries@[j].0@ by {
                        if j == i {
                            assert((out@[out@.len() - 1])@ == self.entries@[i as int].0@);
                        } else {
                            let p = choose|p: int| 0 <= p < out_before.len() && (#[trigger] out_before[p])@ == self.entries@[j].0@;
                            assert((out@[p])@ == self.entries@[j].0@);
                        }
                    }
                }
            }
            i = i + 1;
        }
        proof {
            assert(self.entries@.take(self.entries@.len() as int) =~= self.entries@);
            assert forall|k: Seq<u8>| self@.contains_key(k) && self@[k].expiry is Some
                implies exists|p: int| 0 <= p < out@.len() && (#[trigger] out@[p])@ == k by {
                let j = choose|j: int| 0 <= j < self.entries@.len() && #[trigger] self.entries@[j].0@ == k;
                assert(self.entries@[j].1.expiry is Some);
            }
        }
        out
    }

    /// A well-formed keyspace has finitely many keys.
    pub proof fn lemma_wf_finite(&self)
        requires
            self.wf(),
        ensures
            self@.dom().finite(),
    {
        lemma_list_to_map_props(self.entries@);
    }

    /// Whether the entry under `key` has reached its expiry at `now`.
    pub fn expired_at(&self, key: &Vec<u8>, now: u64) -> (r: bool)
        requires
            self.wf(),
        ensures
            r == (self@.contains_key(key@) && entry_expired(self@[key@], now)),
    {
        match self.position(key) {
            None => false,
            Some(i) => match self.entries[i].1.expiry {
                None => false,
                Some(t) => now >= t,
            },
        }
    }
}

/// No value outlives its expiry: after a write of `k` with expiry instant
/// `e`, a read of `k` at any instant at or past `e` returns nothing.
pub proof fn lemma_no_value_past_expiry(m: Map<Seq<u8>, EntryView>, k: Seq<u8>, v: Seq<u8>, e: u64, now: u64)
    requires
        now >= e,
    ensures
        spec_get(m.insert(k, EntryView { value: v, expiry: Some(e) }), k, now) is None,
{
}

/// Byte-string equality.
pub fn bytes_eq(a: &Vec<u8>, b: &Vec<u8>) -> (r: bool)
    ensures
        r == (a@ == b@),
{
    if a.len() != b.len() {
        return false;
    }
    let mut i: usize = 0;
    #[verifier::loop_isolation(false)]
    while i < a.len()
        invariant
            i <= a@.len(),
            a@.len() == b@.len(),
            forall|j: int| 0 <= j < i ==> a@[j] == b@[j],
        decreases a@.len() - i,
    {
        if a[i] != b[i] {
            return false;
        }
        i = i + 1;
    }
    proof {
        assert(a@ =~= b@);
    }
    true
}

} // verus!
