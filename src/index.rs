//! The ordered multiset of entries of one namespace.
//!
//! Entries are kept in a `Vec` sorted by the composite position
//! `(key, seq)`, where `seq` is a per-namespace insertion counter. Entries that
//! share a key are therefore ordered by insertion, earliest first.
use crate::keys::{compare_keys, keys_equal, key_le, key_lt, lemma_key_le_lt_transitive, lemma_key_trichotomy};
use std::cmp::Ordering;
use vstd::prelude::*;

verus! {

/// The logical content of an entry.
pub struct Record<V> {
    pub key: Seq<u8>,
    pub seq: nat,
    pub value: V,
}

/// One stored entry.
pub struct Entry<V> {
    pub key: Vec<u8>,
    pub seq: u64,
    pub value: V,
}

impl<V> View for Entry<V> {
    type V = Record<V>;

    open spec fn view(&self) -> Record<V> {
        Record { key: self.key@, seq: self.seq as nat, value: self.value }
    }
}

/// The entries in order, as records.
pub open spec fn records_of<V>(entries: Seq<Entry<V>>) -> Seq<Record<V>> {
    entries.map_values(|e: Entry<V>| e@)
}

/// Position `(k1, s1)` comes strictly before position `(k2, s2)`.
pub open spec fn pos_lt(k1: Seq<u8>, s1: nat, k2: Seq<u8>, s2: nat) -> bool {
    key_lt(k1, k2) || (k1 == k2 && s1 < s2)
}

/// Record `r` lies at or after the position `(k, floor)`.
pub open spec fn above<V>(r: Record<V>, k: Seq<u8>, floor: nat) -> bool {
    key_lt(k, r.key) || (k == r.key && floor <= r.seq)
}

/// The records are strictly ordered by position.
pub open spec fn sorted<V>(s: Seq<Record<V>>) -> bool {
    forall|i: int, j: int|
        0 <= i < j < s.len() ==> #[trigger] pos_lt(s[i].key, s[i].seq, s[j].key, s[j].seq)
}

/// `i` is the index of the earliest record whose key is `k`.
pub open spec fn is_first_with_key<V>(s: Seq<Record<V>>, k: Seq<u8>, i: int) -> bool {
    &&& 0 <= i < s.len()
    &&& s[i].key == k
    &&& forall|j: int| 0 <= j < i ==> s[j].key != k
}

/// Some record has key `k`.
pub open spec fn has_key<V>(s: Seq<Record<V>>, k: Seq<u8>) -> bool {
    exists|i: int| 0 <= i < s.len() && s[i].key == k
}

/// What a lookup of `k` gives: the value of the earliest record with key `k`.
pub open spec fn lookup<V>(s: Seq<Record<V>>, k: Seq<u8>) -> Option<V> {
    if has_key(s, k) {
        Some(s[choose|i: int| is_first_with_key(s, k, i)].value)
    } else {
        None
    }
}

/// The value that an optional reference points to.
pub open spec fn opt_value<V>(r: Option<&V>) -> Option<V> {
    match r {
        Some(v) => Some(*v),
        None => None,
    }
}

/// `after` is `before` with the record `(k, seq, v)` added behind every record
/// whose key is at most `k` and ahead of every record whose key is larger.
pub open spec fn insert_post<V>(before: Seq<Record<V>>, after: Seq<Record<V>>, k: Seq<u8>, seq: nat, v: V) -> bool {
    exists|p: int|
        0 <= p <= before.len() && after == before.insert(p, Record { key: k, seq, value: v }) && (
        forall|j: int| 0 <= j < p ==> key_le(#[trigger] before[j].key, k)) && (forall|j: int|
            p <= j < before.len() ==> key_lt(k, #[trigger] before[j].key))
}

/// `after` is `before` without its earliest record of key `k`, whose value is
/// `removed`; or, where no record has key `k`, `before` unchanged and `removed`
/// is `None`.
pub open spec fn delete_post<V>(before: Seq<Record<V>>, after: Seq<Record<V>>, k: Seq<u8>, removed: Option<V>) -> bool {
    match removed {
        None => !has_key(before, k) && after == before,
        Some(v) => exists|i: int|
            is_first_with_key(before, k, i) && before[i].value == v && after == before.remove(i),
    }
}

/// How a seek chooses its starting entry.
#[derive(Clone, Copy, Debug, PartialEq, Eq, Structural)]
pub enum SeekBias {
    /// The first entry; the key is ignored.
    First,
    /// The last entry; the key is ignored.
    Last,
    /// The earliest entry whose key equals the key.
    Exact,
    /// The first entry whose key is at least the key.
    GreaterOrEqual,
    /// The last entry whose key is at most the key.
    LessOrEqual,
}

/// `r` is the index at which a seek for `k` with `bias` starts in `s`, or
/// `None` where no entry qualifies.
pub open spec fn seek_matches<V>(s: Seq<Record<V>>, k: Seq<u8>, bias: SeekBias, r: Option<int>) -> bool {
    match bias {
        SeekBias::First => match r {
            None => s.len() == 0,
            Some(i) => s.len() > 0 && i == 0,
        },
        SeekBias::Last => match r {
            None => s.len() == 0,
            Some(i) => s.len() > 0 && i == s.len() - 1,
        },
        SeekBias::Exact => match r {
            None => !has_key(s, k),
            Some(i) => is_first_with_key(s, k, i),
        },
        SeekBias::GreaterOrEqual => match r {
            None => forall|j: int| 0 <= j < s.len() ==> key_lt(#[trigger] s[j].key, k),
            Some(i) => 0 <= i < s.len() && key_le(k, s[i].key) && forall|j: int|
                0 <= j < i ==> key_lt(#[trigger] s[j].key, k),
        },
        SeekBias::LessOrEqual => match r {
            None => forall|j: int| 0 <= j < s.len() ==> key_lt(k, #[trigger] s[j].key),
            Some(i) => 0 <= i < s.len() && key_le(s[i].key, k) && forall|j: int|
                i < j < s.len() ==> key_lt(k, #[trigger] s[j].key),
        },
    }
}

/// `r` is the index of the entry that follows position `(k, seq)` in `s` in
/// the given direction, or `None` where there is none.
pub open spec fn step_matches<V>(s: Seq<Record<V>>, k: Seq<u8>, seq: nat, ascending: bool, r: Option<int>) -> bool {
    if ascending {
        match r {
            None => forall|j: int| 0 <= j < s.len() ==> !pos_lt(k, seq, #[trigger] s[j].key, s[j].seq),
            Some(i) => 0 <= i < s.len() && pos_lt(k, seq, s[i].key, s[i].seq) && forall|j: int|
                0 <= j < i ==> !pos_lt(k, seq, #[trigger] s[j].key, s[j].seq),
        }
    } else {
        match r {
            None => forall|j: int| 0 <= j < s.len() ==> !pos_lt(#[trigger] s[j].key, s[j].seq, k, seq),
            Some(i) => 0 <= i < s.len() && pos_lt(s[i].key, s[i].seq, k, seq) && forall|j: int|
                i < j < s.len() ==> !pos_lt(#[trigger] s[j].key, s[j].seq, k, seq),
        }
    }
}

/// `i` holds the entry at position `(k, seq)`.
pub open spec fn at_position<V>(s: Seq<Record<V>>, k: Seq<u8>, seq: nat, i: int) -> bool {
    0 <= i < s.len() && s[i].key == k && s[i].seq == seq
}

/// A fresh copy of a key.
pub fn copy_key(k: &[u8]) -> (r: Vec<u8>)
    ensures
        r@ == k@,
{
    let mut r: Vec<u8> = Vec::new();
    let mut i: usize = 0;
    while i < k.len()
        invariant
            i <= k@.len(),
            r@ == k@.subrange(0, i as int),
        decreases k@.len() - i,
    {
        r.push(k[i]);
        i = i + 1;
        assert(r@ =~= k@.subrange(0, i as int));
    }
    assert(k@.subrange(0, k@.len() as int) =~= k@);
    r
}

/// The ordered entries of one namespace.
pub struct EntryIndex<V> {
    entries: Vec<Entry<V>>,
    next_seq: u64,
}

impl<V> EntryIndex<V> {
    /// The entries in ascending order.
    pub closed spec fn records(&self) -> Seq<Record<V>> {
        records_of(self.entries@)
    }

    /// The sequence number that the next insertion takes.
    pub closed spec fn next_seq(&self) -> nat {
        self.next_seq as nat
    }

    /// Entries are sorted, non-empty keyed, and numbered below the counter.
    pub closed spec fn wf(&self) -> bool {
        &&& sorted(self.records())
        &&& forall|i: int| 0 <= i < self.entries@.len() ==> (#[trigger] self.entries@[i]).seq < self.next_seq
        &&& forall|i: int| 0 <= i < self.entries@.len() ==> (#[trigger] self.entries@[i]).key@.len() > 0
    }

    /// A well-formed index is sorted, and every key in it is non-empty.
    pub proof fn lemma_wf_sorted(&self)
        requires
            self.wf(),
        ensures
            sorted(self.records()),
            forall|i: int| 0 <= i < self.records().len() ==> (#[trigger] self.records()[i]).key.len() > 0,
            forall|i: int| 0 <= i < self.records().len() ==> (#[trigger] self.records()[i]).seq < self.next_seq(),
            self.next_seq() <= u64::MAX,
    {
    }

    /// The sequence number that the next insertion takes.
    pub fn sequence(&self) -> (r: u64)
        ensures
            r == self.next_seq(),
    {
        self.next_seq
    }

    /// An empty index.
    pub fn new() -> (r: Self)
        ensures
            r.wf(),
            r.records() == Seq::<Record<V>>::empty(),
            r.next_seq() == 0,
    {
        let r = EntryIndex { entries: Vec::new(), next_seq: 0 };
        assert(r.records() =~= Seq::<Record<V>>::empty());
        r
    }

    /// Number of entries, duplicates included.
    pub fn len(&self) -> (r: usize)
        ensures
            r == self.records().len(),
    {
        self.entries.len()
    }

    proof fn lemma_above_monotone(&self, k: Seq<u8>, floor: nat, i: int, j: int)
        requires
            self.wf(),
            0 <= i < j < self.records().len(),
            above(self.records()[i], k, floor),
        ensures
            above(self.records()[j], k, floor),
    {
        let s = self.records();
        assert(pos_lt(s[i].key, s[i].seq, s[j].key, s[j].seq));
        lemma_key_le_lt_transitive(k, s[i].key, s[j].key);
    }

    /// Index of the first entry at or after position `(key, floor)`.
    pub fn first_above(&self, key: &[u8], floor: u64) -> (r: usize)
        requires
            self.wf(),
        ensures
            r <= self.records().len(),
            forall|j: int| 0 <= j < r ==> !above(#[trigger] self.records()[j], key@, floor as nat),
            forall|j: int| r <= j < self.records().len() ==> above(#[trigger] self.records()[j], key@, floor as nat),
    {
        let ghost s = self.records();
        let mut lo: usize = 0;
        let mut hi: usize = self.entries.len();
        while lo < hi
            invariant
                self.wf(),
                s == self.records(),
                lo <= hi <= s.len(),
                forall|j: int| 0 <= j < lo ==> !above(#[trigger] s[j], key@, floor as nat),
                forall|j: int| hi <= j < s.len() ==> above(#[trigger] s[j], key@, floor as nat),
            decreases hi - lo,
        {
            let mid = lo + (hi - lo) / 2;
            let e = &self.entries[mid];
            let c = compare_keys(key, e.key.as_slice());
            let is_above = match c {
                Ordering::Less => true,
                Ordering::Equal => floor <= e.seq,
                Ordering::Greater => false,
            };
            assert(s[mid as int] == e@);
            proof {
                lemma_key_trichotomy(key@, e.key@);
            }
            if is_above {
                assert(above(s[mid as int], key@, floor as nat));
                assert forall|j: int| mid <= j < s.len() implies above(#[trigger] s[j], key@, floor as nat) by {
                    if mid < j {
                        self.lemma_above_monotone(key@, floor as nat, mid as int, j);
                    }
                }
                hi = mid;
            } else {
                assert(!above(s[mid as int], key@, floor as nat));
                assert forall|j: int| 0 <= j <= mid implies !above(#[trigger] s[j], key@, floor as nat) by {
                    if j < mid && above(s[j], key@, floor as nat) {
                        self.lemma_above_monotone(key@, floor as nat, j, mid as int);
                    }
                }
                lo = mid + 1;
            }
        }
        lo
    }

    /// The entry at index `i`.
    pub fn entry(&self, i: usize) -> (r: &Entry<V>)
        requires
            i < self.records().len(),
        ensures
            r@ == self.records()[i as int],
    {
        &self.entries[i]
    }

    /// Adds an entry after every entry whose key is at most `key`.
    pub fn insert(&mut self, key: Vec<u8>, value: V)
        requires
            old(self).wf(),
            key@.len() > 0,
            old(self).next_seq() < u64::MAX,
        ensures
            final(self).wf(),
            final(self).next_seq() == old(self).next_seq() + 1,
            insert_post(old(self).records(), final(self).records(), key@, old(self).next_seq(), value),
    {
        let ghost s = self.records();
        let p = self.first_above(key.as_slice(), u64::MAX);
        let ghost k = key@;
        let seq = self.next_seq;
        let ghost rec = Record { key: k, seq: seq as nat, value };
        let e = Entry { key, seq, value };
        assert(e@ == rec);
        self.entries.insert(p, e);
        self.next_seq = seq + 1;
        let ghost t = self.records();
        assert(t =~= s.insert(p as int, rec));
        assert forall|j: int| 0 <= j < p implies key_le(#[trigger] s[j].key, k) by {
            lemma_key_trichotomy(k, s[j].key);
        }
        assert forall|i: int, j: int| 0 <= i < j < t.len() implies #[trigger] pos_lt(t[i].key, t[i].seq, t[j].key, t[j].seq) by {
            if i < p && j > p {
                assert(pos_lt(s[i].key, s[i].seq, s[j - 1].key, s[j - 1].seq));
            } else if i > p {
                assert(pos_lt(s[i - 1].key, s[i - 1].seq, s[j - 1].key, s[j - 1].seq));
            } else if i < p && j == p {
                assert(key_le(s[i].key, k));
                assert(self.entries@[i].seq < seq);
            } else if i == p {
                assert(key_lt(k, s[j - 1].key));
            }
        }
        assert forall|i: int| 0 <= i < self.entries@.len() implies (#[trigger] self.entries@[i]).seq < self.next_seq by {
            assert(t[i] == self.entries@[i]@);
        }
        assert forall|i: int| 0 <= i < self.entries@.len() implies (#[trigger] self.entries@[i]).key@.len() > 0 by {
            assert(t[i] == self.entries@[i]@);
        }
    }

    /// Index of the earliest entry whose key is `key`, if any.
    pub fn find_first(&self, key: &[u8]) -> (r: Option<usize>)
        requires
            self.wf(),
        ensures
            match r {
                None => !has_key(self.records(), key@),
                Some(i) => is_first_with_key(self.records(), key@, i as int),
            },
    {
        let ghost s = self.records();
        let p = self.first_above(key, 0);
        if p < self.entries.len() && keys_equal(key, self.entries[p].key.as_slice()) {
            assert(s[p as int] == self.entries@[p as int]@);
            assert forall|j: int| 0 <= j < p implies s[j].key != key@ by {
                lemma_key_trichotomy(key@, s[j].key);
            }
            Some(p)
        } else {
            assert forall|j: int| 0 <= j < s.len() implies s[j].key != key@ by {
                if s[j].key == key@ {
                    lemma_key_trichotomy(key@, s[j].key);
                    if j > p {
                        assert(above(s[p as int], key@, 0));
                        assert(pos_lt(s[p as int].key, s[p as int].seq, s[j].key, s[j].seq));
                        lemma_key_trichotomy(key@, s[p as int].key);
                        lemma_key_le_lt_transitive(key@, s[p as int].key, key@);
                    }
                }
            }
            None
        }
    }

    /// The value of the earliest entry whose key is `key`.
    pub fn get(&self, key: &[u8]) -> (r: Option<&V>)
        requires
            self.wf(),
        ensures
            opt_value(r) == lookup(self.records(), key@),
    {
        match self.find_first(key) {
            None => None,
            Some(i) => {
                proof {
                    lemma_first_with_key_unique(self.records(), key@, i as int);
                }
                assert(self.records()[i as int] == self.entries@[i as int]@);
                Some(&self.entries[i].value)
            },
        }
    }

    /// Removes the entry at index `i`.
    fn remove_at(&mut self, i: usize) -> (r: V)
        requires
            old(self).wf(),
            i < old(self).records().len(),
        ensures
            final(self).wf(),
            final(self).next_seq() == old(self).next_seq(),
            final(self).records() == old(self).records().remove(i as int),
            r == old(self).records()[i as int].value,
    {
        let ghost s = self.records();
        let e = self.entries.remove(i);
        assert(s[i as int] == e@);
        let ghost t = self.records();
        assert(t =~= s.remove(i as int));
        assert forall|a: int, b: int| 0 <= a < b < t.len() implies #[trigger] pos_lt(t[a].key, t[a].seq, t[b].key, t[b].seq) by {
            if a < i && b >= i {
                assert(pos_lt(s[a].key, s[a].seq, s[b + 1].key, s[b + 1].seq));
            } else if a >= i {
                assert(pos_lt(s[a + 1].key, s[a + 1].seq, s[b + 1].key, s[b + 1].seq));
            } else {
                assert(pos_lt(s[a].key, s[a].seq, s[b].key, s[b].seq));
            }
        }
        assert forall|j: int| 0 <= j < self.entries@.len() implies (#[trigger] self.entries@[j]).seq < self.next_seq by {
            assert(t[j] == self.entries@[j]@);
        }
        assert forall|j: int| 0 <= j < self.entries@.len() implies (#[trigger] self.entries@[j]).key@.len() > 0 by {
            assert(t[j] == self.entries@[j]@);
        }
        e.value
    }

    /// Removes the earliest entry whose key is `key` and returns its value.
    pub fn delete(&mut self, key: &[u8]) -> (r: Option<V>)
        requires
            old(self).wf(),
        ensures
            final(self).wf(),
            final(self).next_seq() == old(self).next_seq(),
            delete_post(old(self).records(), final(self).records(), key@, r),
    {
        match self.find_first(key) {
            None => None,
            Some(i) => Some(self.remove_at(i)),
        }
    }

    /// Removes the entry at position `(key, seq)`, if there is one.
    pub fn remove_position(&mut self, key: &[u8], seq: u64) -> (r: bool)
        requires
            old(self).wf(),
        ensures
            final(self).wf(),
            final(self).next_seq() == old(self).next_seq(),
            r == exists|i: int| at_position(old(self).records(), key@, seq as nat, i),
            r ==> exists|i: int|
                at_position(old(self).records(), key@, seq as nat, i) && final(self).records()
                    == old(self).records().remove(i),
            !r ==> final(self).records() == old(self).records(),
    {
        let ghost s = self.records();
        let p = self.first_above(key, seq);
        if p < self.entries.len() && self.entries[p].seq == seq && keys_equal(key, self.entries[p].key.as_slice()) {
            assert(s[p as int] == self.entries@[p as int]@);
            assert(at_position(s, key@, seq as nat, p as int));
            self.remove_at(p);
            true
        } else {
            assert forall|j: int| 0 <= j < s.len() implies !at_position(s, key@, seq as nat, j) by {
                if at_position(s, key@, seq as nat, j) {
                    lemma_key_trichotomy(key@, key@);
                    assert(above(s[j], key@, seq as nat));
                    if p < j {
                        assert(pos_lt(s[p as int].key, s[p as int].seq, s[j].key, s[j].seq));
                        assert(above(s[p as int], key@, seq as nat));
                        lemma_key_trichotomy(key@, s[p as int].key);
                        lemma_key_le_lt_transitive(key@, s[p as int].key, key@);
                    }
                    if p == j {
                        assert(s[p as int] == self.entries@[p as int]@);
                    }
                }
            }
            false
        }
    }

    /// Index of the entry at which a seek for `key` with `bias` starts.
    pub fn seek_position(&self, key: &[u8], bias: SeekBias) -> (r: Option<usize>)
        requires
            self.wf(),
        ensures
            seek_matches(self.records(), key@, bias, match r {
                None => None,
                Some(i) => Some(i as int),
            }),
    {
        let ghost s = self.records();
        let n = self.entries.len();
        match bias {
            SeekBias::First => if n == 0 { None } else { Some(0) },
            SeekBias::Last => if n == 0 { None } else { Some(n - 1) },
            SeekBias::Exact => self.find_first(key),
            SeekBias::GreaterOrEqual => {
                let p = self.first_above(key, 0);
                assert forall|j: int| 0 <= j < p implies key_lt(#[trigger] s[j].key, key@) by {
                    lemma_key_trichotomy(key@, s[j].key);
                }
                if p < n {
                    assert(above(s[p as int], key@, 0));
                    Some(p)
                } else {
                    None
                }
            },
            SeekBias::LessOrEqual => {
                let p = self.first_above(key, u64::MAX);
                assert forall|j: int| p <= j < n implies key_lt(key@, #[trigger] s[j].key) by {
                    assert(above(s[j], key@, u64::MAX as nat));
                    assert(s[j] == self.entries@[j]@);
                }
                if p > 0 {
                    assert(!above(s[p - 1], key@, u64::MAX as nat));
                    proof {
                        lemma_key_trichotomy(key@, s[p - 1].key);
                    }
                    Some(p - 1)
                } else {
                    None
                }
            },
        }
    }

    /// Index of the entry that follows position `(key, seq)` in the given direction.
    pub fn step(&self, key: &[u8], seq: u64, ascending: bool) -> (r: Option<usize>)
        requires
            self.wf(),
        ensures
            step_matches(self.records(), key@, seq as nat, ascending, match r {
                None => None,
                Some(i) => Some(i as int),
            }),
    {
        let ghost s = self.records();
        let n = self.entries.len();
        if ascending {
            let floor = if seq < u64::MAX { seq + 1 } else { seq };
            let p = self.first_above(key, floor);
            assert forall|j: int| 0 <= j < n implies #[trigger] above(s[j], key@, floor as nat)
                == pos_lt(key@, seq as nat, s[j].key, s[j].seq) by {
                assert(s[j] == self.entries@[j]@);
            }
            if p < n {
                assert(above(s[p as int], key@, floor as nat));
                Some(p)
            } else {
                None
            }
        } else {
            let p = self.first_above(key, seq);
            assert forall|j: int| 0 <= j < n implies #[trigger] above(s[j], key@, seq as nat)
                == !pos_lt(s[j].key, s[j].seq, key@, seq as nat) by {
                lemma_key_trichotomy(key@, s[j].key);
            }
            if p > 0 {
                assert(!above(s[p - 1], key@, seq as nat));
                Some(p - 1)
            } else {
                None
            }
        }
    }
}

/// The earliest entry with a given key is unique.
pub proof fn lemma_first_with_key_unique<V>(s: Seq<Record<V>>, k: Seq<u8>, i: int)
    requires
        is_first_with_key(s, k, i),
    ensures
        has_key(s, k),
        lookup(s, k) == Some(s[i].value),
{
    let c = choose|c: int| is_first_with_key(s, k, c);
    assert(is_first_with_key(s, k, c));
    assert(c == i);
}

} // verus!
