//! Namespaces, store handles and cursors.
use crate::index::{
    at_position, copy_key, insert_post, delete_post, lookup, opt_value, seek_matches, step_matches,
    EntryIndex, Record, SeekBias,
};
use crate::keys::keys_equal;
use vstd::prelude::*;

verus! {

/// Why an insertion was refused.
#[derive(Clone, Copy, Debug, PartialEq, Eq, Structural)]
pub enum StoreError {
    /// Keys must hold at least one byte.
    EmptyKey,
    /// The namespace has used up its insertion counter.
    SequenceExhausted,
}

/// One namespace and its entries.
struct Space<V> {
    name: Vec<u8>,
    index: EntryIndex<V>,
}

/// All namespaces of one execution context. A namespace that was never
/// written to behaves as an empty one.
pub struct Registry<V> {
    spaces: Vec<Space<V>>,
}

impl<V> Registry<V> {
    spec fn holds(&self, ns: Seq<u8>, i: int) -> bool {
        0 <= i < self.spaces@.len() && self.spaces@[i].name@ == ns
    }

    /// The entries of namespace `ns`, in ascending order.
    pub closed spec fn records(&self, ns: Seq<u8>) -> Seq<Record<V>> {
        if exists|i: int| self.holds(ns, i) {
            self.spaces@[choose|i: int| self.holds(ns, i)].index.records()
        } else {
            Seq::empty()
        }
    }

    /// The insertion counter of namespace `ns`.
    pub closed spec fn next_seq(&self, ns: Seq<u8>) -> nat {
        if exists|i: int| self.holds(ns, i) {
            self.spaces@[choose|i: int| self.holds(ns, i)].index.next_seq()
        } else {
            0
        }
    }

    /// Namespace names are distinct and every index is well formed.
    pub closed spec fn wf(&self) -> bool {
        &&& forall|i: int, j: int|
            0 <= i < j < self.spaces@.len() ==> self.spaces@[i].name@ != self.spaces@[j].name@
        &&& forall|i: int| 0 <= i < self.spaces@.len() ==> (#[trigger] self.spaces@[i]).index.wf()
    }

    /// A well-formed registry holds sorted namespaces.
    pub proof fn lemma_wf_sorted(&self, ns: Seq<u8>)
        requires
            self.wf(),
        ensures
            crate::index::sorted(self.records(ns)),
    {
        if exists|i: int| self.holds(ns, i) {
            let i = choose|i: int| self.holds(ns, i);
            self.spaces@[i].index.lemma_wf_sorted();
        }
    }

    proof fn lemma_at(&self, ns: Seq<u8>, i: int)
        requires
            self.wf(),
            self.holds(ns, i),
        ensures
            self.records(ns) == self.spaces@[i].index.records(),
            self.next_seq(ns) == self.spaces@[i].index.next_seq(),
    {
        let c = choose|c: int| self.holds(ns, c);
        assert(self.holds(ns, c));
        if c != i {
            if c < i {
                assert(self.spaces@[c].name@ != self.spaces@[i].name@);
            } else {
                assert(self.spaces@[i].name@ != self.spaces@[c].name@);
            }
        }
    }

    /// `self` and `other` hold the same entries and counters in every
    /// namespace but `ns`.
    pub open spec fn agrees_outside(&self, other: &Self, ns: Seq<u8>) -> bool {
        forall|n: Seq<u8>|
            #![trigger self.records(n)]
            #![trigger self.next_seq(n)]
            n != ns ==> self.records(n) == other.records(n) && self.next_seq(n) == other.next_seq(n)
    }

    proof fn lemma_update(before: Self, after: Self, ns: Seq<u8>, i: int)
        requires
            before.wf(),
            before.holds(ns, i),
            after.spaces@.len() == before.spaces@.len(),
            forall|j: int| 0 <= j < after.spaces@.len() && j != i ==> after.spaces@[j] == before.spaces@[j],
            after.spaces@[i].name@ == ns,
            after.spaces@[i].index.wf(),
        ensures
            after.wf(),
            after.records(ns) == after.spaces@[i].index.records(),
            after.next_seq(ns) == after.spaces@[i].index.next_seq(),
            after.agrees_outside(&before, ns),
    {
        assert forall|a: int, b: int|
            0 <= a < b < after.spaces@.len() implies after.spaces@[a].name@ != after.spaces@[b].name@ by {
            assert(before.spaces@[a].name@ != before.spaces@[b].name@);
        }
        assert forall|a: int| 0 <= a < after.spaces@.len() implies (#[trigger] after.spaces@[a]).index.wf() by {
            if a != i {
                assert(before.spaces@[a] == after.spaces@[a]);
            }
        }
        after.lemma_at(ns, i);
        assert forall|n: Seq<u8>|
            #![trigger after.records(n)]
            #![trigger after.next_seq(n)]
            n != ns implies after.records(n) == before.records(n) && after.next_seq(n) == before.next_seq(n) by {
            if exists|j: int| before.holds(n, j) {
                let j = choose|j: int| before.holds(n, j);
                before.lemma_at(n, j);
                assert(after.holds(n, j));
                after.lemma_at(n, j);
            } else {
                assert forall|j: int| !after.holds(n, j) by {
                    if 0 <= j < after.spaces@.len() && j != i {
                        assert(!before.holds(n, j));
                    }
                }
            }
        }
    }

    /// The index of namespace `ns`, where it was ever written to.
    fn space(&self, ns: &[u8]) -> (r: Option<&EntryIndex<V>>)
        requires
            self.wf(),
        ensures
            match r {
                None => self.records(ns@) == Seq::<Record<V>>::empty() && self.next_seq(ns@) == 0,
                Some(ix) => ix.wf() && ix.records() == self.records(ns@) && ix.next_seq() == self.next_seq(ns@),
            },
    {
        match self.find(ns) {
            None => None,
            Some(i) => {
                proof {
                    self.lemma_at(ns@, i as int);
                }
                Some(&self.spaces[i].index)
            },
        }
    }

    /// A registry with no entries in any namespace.
    pub fn new() -> (r: Self)
        ensures
            r.wf(),
            forall|ns: Seq<u8>| #[trigger] r.records(ns) == Seq::<Record<V>>::empty() && r.next_seq(ns) == 0,
    {
        Registry { spaces: Vec::new() }
    }

    fn find(&self, ns: &[u8]) -> (r: Option<usize>)
        requires
            self.wf(),
        ensures
            match r {
                None => !exists|i: int| self.holds(ns@, i),
                Some(i) => self.holds(ns@, i as int),
            },
    {
        let mut i: usize = 0;
        while i < self.spaces.len()
            invariant
                i <= self.spaces@.len(),
                forall|j: int| 0 <= j < i ==> !self.holds(ns@, j),
            decreases self.spaces@.len() - i,
        {
            if keys_equal(ns, self.spaces[i].name.as_slice()) {
                return Some(i);
            }
            i = i + 1;
        }
        None
    }

    /// Index of the space for `ns`, created empty where absent.
    fn find_or_create(&mut self, ns: &[u8]) -> (r: usize)
        requires
            old(self).wf(),
        ensures
            final(self).wf(),
            final(self).holds(ns@, r as int),
            forall|n: Seq<u8>| final(self).records(n) == old(self).records(n),
            forall|n: Seq<u8>| final(self).next_seq(n) == old(self).next_seq(n),
    {
        let ghost before = *self;
        match self.find(ns) {
            Some(i) => i,
            None => {
                self.spaces.push(Space { name: copy_key(ns), index: EntryIndex::new() });
                let r = self.spaces.len() - 1;
                assert forall|i: int, j: int|
                    0 <= i < j < self.spaces@.len() implies self.spaces@[i].name@ != self.spaces@[j].name@ by {
                    if j == r {
                        assert(!before.holds(ns@, i));
                    } else {
                        assert(before.spaces@[i] == self.spaces@[i]);
                        assert(before.spaces@[j] == self.spaces@[j]);
                    }
                }
                assert forall|i: int| 0 <= i < self.spaces@.len() implies (#[trigger] self.spaces@[i]).index.wf() by {
                    if i < r {
                        assert(before.spaces@[i] == self.spaces@[i]);
                    }
                }
                assert forall|n: Seq<u8>|
                    #![trigger self.records(n)]
                    #![trigger self.next_seq(n)]
                    self.records(n) == before.records(n) && self.next_seq(n) == before.next_seq(n) by {
                    if n == ns@ {
                        self.lemma_at(n, r as int);
                        assert(self.spaces@[r as int].index.records() == Seq::<Record<V>>::empty());
                        assert(!exists|i: int| before.holds(n, i));
                        assert(before.records(n) == Seq::<Record<V>>::empty());
                        assert(before.next_seq(n) == 0);
                    } else if exists|i: int| before.holds(n, i) {
                        let i = choose|i: int| before.holds(n, i);
                        before.lemma_at(n, i);
                        assert(self.holds(n, i));
                        self.lemma_at(n, i);
                    } else {
                        assert forall|i: int| !self.holds(n, i) by {
                            if 0 <= i < before.spaces@.len() {
                                assert(!before.holds(n, i));
                            }
                        }
                    }
                }
                r
            },
        }
    }
}

/// An entry handed out by a seek or a cursor step.
pub struct Item<'a, V> {
    pub key: Vec<u8>,
    pub value: &'a V,
}

/// `item` shows the record `r`.
pub open spec fn item_is<V>(item: Item<'_, V>, r: Record<V>) -> bool {
    item.key@ == r.key && *item.value == r.value
}

/// A handle on one namespace of a registry.
pub struct BTreeStore {
    namespace: Vec<u8>,
}

impl View for BTreeStore {
    type V = Seq<u8>;

    closed spec fn view(&self) -> Seq<u8> {
        self.namespace@
    }
}

impl BTreeStore {
    /// A handle on namespace `namespace`.
    pub fn new(namespace: &[u8]) -> (r: Self)
        ensures
            r@ == namespace@,
    {
        BTreeStore { namespace: copy_key(namespace) }
    }

    /// Adds the entry `(key, value)`, keeping any entry that has the same key.
    pub fn insert<V>(&self, reg: &mut Registry<V>, key: Vec<u8>, value: V) -> (r: Result<(), StoreError>)
        requires
            old(reg).wf(),
        ensures
            final(reg).wf(),
            final(reg).agrees_outside(old(reg), self@),
            key@.len() == 0 ==> r == Err::<(), StoreError>(StoreError::EmptyKey),
            key@.len() > 0 && old(reg).next_seq(self@) == u64::MAX ==> r == Err::<(), StoreError>(
                StoreError::SequenceExhausted,
            ),
            key@.len() > 0 && old(reg).next_seq(self@) < u64::MAX ==> r is Ok,
            r is Ok ==> insert_post(old(reg).records(self@), final(reg).records(self@), key@, old(reg).next_seq(self@), value)
                && final(reg).next_seq(self@) == old(reg).next_seq(self@) + 1,
            r is Err ==> final(reg).records(self@) == old(reg).records(self@)
                && final(reg).next_seq(self@) == old(reg).next_seq(self@),
    {
        if key.len() == 0 {
            return Err(StoreError::EmptyKey);
        }
        let i = reg.find_or_create(self.namespace.as_slice());
        proof {
            reg.lemma_at(self@, i as int);
            reg.spaces@[i as int].index.lemma_wf_sorted();
        }
        if reg.spaces[i].index.sequence() == u64::MAX {
            return Err(StoreError::SequenceExhausted);
        }
        let ghost before = *reg;
        reg.spaces[i].index.insert(key, value);
        proof {
            Registry::lemma_update(before, *reg, self@, i as int);
        }
        Ok(())
    }

    /// The value of the earliest entry whose key is `key`.
    pub fn get<'a, V>(&self, reg: &'a Registry<V>, key: &[u8]) -> (r: Option<&'a V>)
        requires
            reg.wf(),
        ensures
            opt_value(r) == lookup(reg.records(self@), key@),
    {
        match reg.space(self.namespace.as_slice()) {
            None => None,
            Some(ix) => ix.get(key),
        }
    }

    /// Removes the earliest entry whose key is `key` and returns its value.
    pub fn delete<V>(&self, reg: &mut Registry<V>, key: &[u8]) -> (r: Option<V>)
        requires
            old(reg).wf(),
        ensures
            final(reg).wf(),
            final(reg).agrees_outside(old(reg), self@),
            final(reg).next_seq(self@) == old(reg).next_seq(self@),
            delete_post(old(reg).records(self@), final(reg).records(self@), key@, r),
    {
        match reg.find(self.namespace.as_slice()) {
            None => None,
            Some(i) => {
                proof {
                    reg.lemma_at(self@, i as int);
                }
                let ghost before = *reg;
                let r = reg.spaces[i].index.delete(key);
                proof {
                    Registry::lemma_update(before, *reg, self@, i as int);
                }
                r
            },
        }
    }

    /// Number of entries in the namespace, duplicates included.
    pub fn len<V>(&self, reg: &Registry<V>) -> (r: usize)
        requires
            reg.wf(),
        ensures
            r == reg.records(self@).len(),
    {
        match reg.space(self.namespace.as_slice()) {
            None => 0,
            Some(ix) => ix.len(),
        }
    }

    /// Finds the entry at which a traversal for `key` with `bias` starts, and
    /// a cursor there that moves up if `ascending`, down otherwise.
    pub fn seek<'a, V>(&self, reg: &'a Registry<V>, key: &[u8], bias: SeekBias, ascending: bool) -> (r: Option<(Cursor, Item<'a, V>)>)
        requires
            reg.wf(),
        ensures
            match r {
                None => seek_matches(reg.records(self@), key@, bias, None),
                Some((c, item)) => exists|i: int|
                    seek_matches(reg.records(self@), key@, bias, Some(i)) && item_is(item, reg.records(self@)[i])
                        && c.rests_at(self@, reg.records(self@)[i], ascending),
            },
    {
        let ghost s = reg.records(self@);
        match reg.space(self.namespace.as_slice()) {
            None => {
                assert(!crate::index::has_key(s, key@));
                None
            },
            Some(ix) => match ix.seek_position(key, bias) {
                None => None,
                Some(i) => {
                    let e = ix.entry(i);
                    let c = Cursor {
                        namespace: copy_key(self.namespace.as_slice()),
                        key: copy_key(e.key.as_slice()),
                        seq: e.seq,
                        ascending,
                        exhausted: false,
                    };
                    let item = Item { key: copy_key(e.key.as_slice()), value: &e.value };
                    assert(item_is(item, s[i as int]));
                    Some((c, item))
                },
            },
        }
    }
}

/// A position in one namespace, moving in a fixed direction.
pub struct Cursor {
    namespace: Vec<u8>,
    key: Vec<u8>,
    seq: u64,
    ascending: bool,
    exhausted: bool,
}

impl Cursor {
    /// The namespace the cursor walks.
    pub closed spec fn namespace(&self) -> Seq<u8> {
        self.namespace@
    }

    /// The key of the position the cursor denotes.
    pub closed spec fn key(&self) -> Seq<u8> {
        self.key@
    }

    /// The insertion number of the position the cursor denotes.
    pub closed spec fn seq(&self) -> nat {
        self.seq as nat
    }

    /// The direction the cursor moves in.
    pub closed spec fn ascending(&self) -> bool {
        self.ascending
    }

    /// The cursor has run past an end.
    pub closed spec fn exhausted(&self) -> bool {
        self.exhausted
    }

    /// The cursor is live in namespace `ns` at record `r`, moving in direction `ascending`.
    pub open spec fn rests_at<V>(&self, ns: Seq<u8>, r: Record<V>, ascending: bool) -> bool {
        &&& self.namespace() == ns
        &&& self.key() == r.key
        &&& self.seq() == r.seq
        &&& self.ascending() == ascending
        &&& !self.exhausted()
    }

    /// Whether the cursor moves towards larger keys.
    pub fn is_ascending(&self) -> (r: bool)
        ensures
            r == self.ascending(),
    {
        self.ascending
    }

    /// Whether the cursor has run past an end.
    pub fn is_exhausted(&self) -> (r: bool)
        ensures
            r == self.exhausted(),
    {
        self.exhausted
    }

    /// Moves one entry on in the cursor's direction and returns that entry;
    /// `None` once past an end, and from then on.
    pub fn next<'a, V>(&mut self, reg: &'a Registry<V>) -> (r: Option<Item<'a, V>>)
        requires
            reg.wf(),
        ensures
            final(self).namespace() == old(self).namespace(),
            final(self).ascending() == old(self).ascending(),
            old(self).exhausted() ==> r is None && final(self).exhausted(),
            !old(self).exhausted() ==> match r {
                None => step_matches(reg.records(old(self).namespace()), old(self).key(), old(self).seq(), old(self).ascending(), None)
                    && final(self).exhausted(),
                Some(item) => exists|i: int|
                    step_matches(reg.records(old(self).namespace()), old(self).key(), old(self).seq(), old(self).ascending(), Some(i))
                        && item_is(item, reg.records(old(self).namespace())[i])
                        && final(self).rests_at(old(self).namespace(), reg.records(old(self).namespace())[i], old(self).ascending()),
            },
    {
        if self.exhausted {
            return None;
        }
        let ghost s = reg.records(self.namespace@);
        match reg.space(self.namespace.as_slice()) {
            None => {
                self.exhausted = true;
                None
            },
            Some(ix) => match ix.step(self.key.as_slice(), self.seq, self.ascending) {
                None => {
                    self.exhausted = true;
                    None
                },
                Some(i) => {
                    let e = ix.entry(i);
                    self.key = copy_key(e.key.as_slice());
                    self.seq = e.seq;
                    let item = Item { key: copy_key(e.key.as_slice()), value: &e.value };
                    assert(item_is(item, s[i as int]));
                    Some(item)
                },
            },
        }
    }

    /// Removes the entry the cursor denotes. The cursor keeps its position,
    /// so that `next` goes on from the entry that followed the removed one.
    pub fn delete<V>(&self, reg: &mut Registry<V>) -> (r: bool)
        requires
            old(reg).wf(),
        ensures
            final(reg).wf(),
            final(reg).agrees_outside(old(reg), self.namespace()),
            final(reg).next_seq(self.namespace()) == old(reg).next_seq(self.namespace()),
            r == (!self.exhausted() && exists|i: int| at_position(old(reg).records(self.namespace()), self.key(), self.seq(), i)),
            r ==> exists|i: int|
                at_position(old(reg).records(self.namespace()), self.key(), self.seq(), i)
                    && final(reg).records(self.namespace()) == old(reg).records(self.namespace()).remove(i),
            !r ==> final(reg).records(self.namespace()) == old(reg).records(self.namespace()),
    {
        if self.exhausted {
            return false;
        }
        match reg.find(self.namespace.as_slice()) {
            None => {
                assert(reg.records(self.namespace@) == Seq::<Record<V>>::empty());
                false
            },
            Some(i) => {
                proof {
                    reg.lemma_at(self.namespace@, i as int);
                }
                let ghost before = *reg;
                let ghost s = before.records(self.namespace@);
                let r = reg.spaces[i].index.remove_position(self.key.as_slice(), self.seq);
                proof {
                    Registry::lemma_update(before, *reg, self.namespace@, i as int);
                    if r {
                        let j = choose|j: int| at_position(before.spaces@[i as int].index.records(), self.key@, self.seq as nat, j);
                        assert(at_position(s, self.key(), self.seq(), j));
                    }
                }
                r
            },
        }
    }
}

} // verus!
