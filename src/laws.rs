//! Properties that hold across operations on a namespace.
use crate::index::{
    delete_post, has_key, insert_post, is_first_with_key, lemma_first_with_key_unique, lookup, pos_lt,
    seek_matches, sorted, step_matches, Record, SeekBias,
};
use crate::keys::{key_le, key_lt, lemma_key_trichotomy};
use crate::store::Registry;
use vstd::prelude::*;

verus! {

/// A change to one namespace, with what it gave back.
pub enum Change<V> {
    /// `insert(key, value)`, numbered `seq`.
    Insert { key: Seq<u8>, seq: nat, value: V },
    /// `delete(key)`, which returned `removed`.
    Delete { key: Seq<u8>, removed: Option<V> },
}

/// `after` is what `change` makes of `before`.
pub open spec fn applied<V>(before: Seq<Record<V>>, after: Seq<Record<V>>, change: Change<V>) -> bool {
    match change {
        Change::Insert { key, seq, value } => insert_post(before, after, key, seq, value),
        Change::Delete { key, removed } => delete_post(before, after, key, removed),
    }
}

/// Insertions minus the deletions that found an entry.
pub open spec fn net_count<V>(changes: Seq<Change<V>>) -> int
    decreases changes.len(),
{
    if changes.len() == 0 {
        0
    } else {
        net_count(changes.drop_last()) + match changes.last() {
            Change::Insert { .. } => 1int,
            Change::Delete { removed, .. } => if removed is Some {
                -1int
            } else {
                0int
            },
        }
    }
}

/// After any run of insertions and deletions, a namespace holds as many
/// entries as before, plus the insertions, minus the deletions that found an
/// entry.
pub proof fn lemma_count_invariant<V>(states: Seq<Seq<Record<V>>>, changes: Seq<Change<V>>)
    requires
        states.len() == changes.len() + 1,
        forall|i: int| 0 <= i < changes.len() ==> applied(states[i], states[i + 1], #[trigger] changes[i]),
    ensures
        states.last().len() == states[0].len() + net_count(changes),
    decreases changes.len(),
{
    if changes.len() > 0 {
        let n = changes.len() - 1;
        lemma_count_invariant(states.drop_last(), changes.drop_last());
        assert(applied(states[n], states[n + 1], changes[n]));
        match changes[n] {
            Change::Insert { key, seq, value } => {
                let p = choose|p: int|
                    0 <= p <= states[n].len() && states[n + 1] == states[n].insert(p, Record { key, seq, value })
                        && (forall|j: int| 0 <= j < p ==> key_le(#[trigger] states[n][j].key, key)) && (forall|j: int|
                        p <= j < states[n].len() ==> key_lt(key, #[trigger] states[n][j].key));
            },
            Change::Delete { key, removed } => {
                if removed is Some {
                    let i = choose|i: int|
                        is_first_with_key(states[n], key, i) && states[n][i].value == removed->Some_0
                            && states[n + 1] == states[n].remove(i);
                }
            },
        }
    }
}

/// Inserting one key twice into an empty namespace gives two entries that
/// hold both values in the order of insertion; a lookup gives the first.
pub proof fn lemma_duplicate_insert<V>(
    first: Seq<Record<V>>,
    second: Seq<Record<V>>,
    k: Seq<u8>,
    seq1: nat,
    v1: V,
    seq2: nat,
    v2: V,
)
    requires
        insert_post(Seq::empty(), first, k, seq1, v1),
        insert_post(first, second, k, seq2, v2),
    ensures
        second.len() == 2,
        second[0].key == k && second[0].value == v1,
        second[1].key == k && second[1].value == v2,
        lookup(second, k) == Some(v1),
{
    lemma_key_trichotomy(k, k);
    assert(first.len() == 1 && first[0].key == k);
    let p = choose|p: int|
        0 <= p <= first.len() && second == first.insert(p, Record { key: k, seq: seq2, value: v2 }) && (forall|j: int|
            0 <= j < p ==> key_le(#[trigger] first[j].key, k)) && (forall|j: int|
            p <= j < first.len() ==> key_lt(k, #[trigger] first[j].key));
    if p == 0 {
        assert(key_lt(k, first[0].key));
    }
    assert(is_first_with_key(second, k, 0));
    lemma_first_with_key_unique(second, k, 0);
}

proof fn lemma_pos_order(k1: Seq<u8>, s1: nat, k2: Seq<u8>, s2: nat)
    ensures
        !(pos_lt(k1, s1, k2, s2) && pos_lt(k2, s2, k1, s1)),
        !pos_lt(k1, s1, k1, s1),
{
    lemma_key_trichotomy(k1, k2);
    lemma_key_trichotomy(k1, k1);
}

proof fn lemma_step_up<V>(t: Seq<Record<V>>, k: Seq<u8>, sq: nat, m: int)
    requires
        0 <= m <= t.len(),
        forall|j: int| 0 <= j < m ==> !pos_lt(k, sq, #[trigger] t[j].key, t[j].seq),
        forall|j: int| m <= j < t.len() ==> pos_lt(k, sq, #[trigger] t[j].key, t[j].seq),
    ensures
        forall|r: Option<int>|
            step_matches(t, k, sq, true, r) <==> r == (if m < t.len() {
                Some(m)
            } else {
                None::<int>
            }),
{
    assert forall|r: Option<int>|
        step_matches(t, k, sq, true, r) <==> r == (if m < t.len() {
            Some(m)
        } else {
            None::<int>
        }) by {
        if let Some(i) = r {
            if step_matches(t, k, sq, true, r) && i != m {
                if i > m {
                    assert(!pos_lt(k, sq, t[m].key, t[m].seq));
                }
            }
        } else {
            if m < t.len() {
                assert(pos_lt(k, sq, t[m].key, t[m].seq));
            }
        }
    }
}

proof fn lemma_step_down<V>(t: Seq<Record<V>>, k: Seq<u8>, sq: nat, m: int)
    requires
        0 <= m <= t.len(),
        forall|j: int| 0 <= j < m ==> pos_lt(#[trigger] t[j].key, t[j].seq, k, sq),
        forall|j: int| m <= j < t.len() ==> !pos_lt(#[trigger] t[j].key, t[j].seq, k, sq),
    ensures
        forall|r: Option<int>|
            step_matches(t, k, sq, false, r) <==> r == (if m > 0 {
                Some(m - 1)
            } else {
                None::<int>
            }),
{
    assert forall|r: Option<int>|
        step_matches(t, k, sq, false, r) <==> r == (if m > 0 {
            Some(m - 1)
        } else {
            None::<int>
        }) by {
        if let Some(i) = r {
            if step_matches(t, k, sq, false, r) && i != m - 1 {
                if i < m - 1 {
                    assert(!pos_lt(t[m - 1].key, t[m - 1].seq, k, sq));
                }
            }
        } else {
            if m > 0 {
                assert(pos_lt(t[m - 1].key, t[m - 1].seq, k, sq));
            }
        }
    }
}

/// A traversal that starts at the first entry and moves up visits every
/// entry, in order of non-decreasing key; one that starts at the last entry
/// and moves down visits the same entries in reverse.
pub proof fn lemma_traversal_order<V>(s: Seq<Record<V>>, k: Seq<u8>)
    requires
        sorted(s),
    ensures
        s.len() > 0 ==> seek_matches(s, k, SeekBias::First, Some(0)),
        s.len() > 0 ==> seek_matches(s, k, SeekBias::Last, Some(s.len() - 1)),
        forall|i: int| 0 <= i < s.len() - 1 ==> key_le(#[trigger] s[i].key, s[i + 1].key),
        forall|i: int, r: Option<int>|
            0 <= i < s.len() ==> (#[trigger] step_matches(s, s[i].key, s[i].seq, true, r) <==> r == (if i + 1 < s.len() {
                Some(i + 1)
            } else {
                None::<int>
            })),
        forall|i: int, r: Option<int>|
            0 <= i < s.len() ==> (#[trigger] step_matches(s, s[i].key, s[i].seq, false, r) <==> r == (if i > 0 {
                Some(i - 1)
            } else {
                None::<int>
            })),
{
    assert forall|i: int| 0 <= i < s.len() - 1 implies key_le(#[trigger] s[i].key, s[i + 1].key) by {
        assert(pos_lt(s[i].key, s[i].seq, s[i + 1].key, s[i + 1].seq));
    }
    assert forall|i: int, r: Option<int>| 0 <= i < s.len() implies (#[trigger] step_matches(s, s[i].key, s[i].seq, true, r) <==> r == (if i + 1 < s.len() {
        Some(i + 1)
    } else {
        None::<int>
    })) by {
        lemma_neighbours(s, i);
        lemma_step_up(s, s[i].key, s[i].seq, i + 1);
    }
    assert forall|i: int, r: Option<int>| 0 <= i < s.len() implies (#[trigger] step_matches(s, s[i].key, s[i].seq, false, r) <==> r == (if i > 0 {
        Some(i - 1)
    } else {
        None::<int>
    })) by {
        lemma_neighbours(s, i);
        lemma_step_down(s, s[i].key, s[i].seq, i);
    }
}

proof fn lemma_neighbours<V>(s: Seq<Record<V>>, i: int)
    requires
        sorted(s),
        0 <= i < s.len(),
    ensures
        forall|j: int| 0 <= j <= i ==> !pos_lt(s[i].key, s[i].seq, #[trigger] s[j].key, s[j].seq),
        forall|j: int| i < j < s.len() ==> pos_lt(s[i].key, s[i].seq, #[trigger] s[j].key, s[j].seq),
        forall|j: int| 0 <= j < i ==> pos_lt(#[trigger] s[j].key, s[j].seq, s[i].key, s[i].seq),
        forall|j: int| i <= j < s.len() ==> !pos_lt(#[trigger] s[j].key, s[j].seq, s[i].key, s[i].seq),
{
    assert forall|j: int| 0 <= j < s.len() implies
        (j <= i ==> !pos_lt(s[i].key, s[i].seq, #[trigger] s[j].key, s[j].seq))
        && (j >= i ==> !pos_lt(s[j].key, s[j].seq, s[i].key, s[i].seq)) by {
        lemma_pos_order(s[i].key, s[i].seq, s[j].key, s[j].seq);
        if j < i {
            assert(pos_lt(s[j].key, s[j].seq, s[i].key, s[i].seq));
        }
        if j > i {
            assert(pos_lt(s[i].key, s[i].seq, s[j].key, s[j].seq));
        }
    }
}

/// Removing the entry at a cursor's position leaves the cursor's next step on
/// the entry that followed the removed one: nothing is skipped or revisited.
pub proof fn lemma_step_after_removal<V>(s: Seq<Record<V>>, i: int)
    requires
        sorted(s),
        0 <= i < s.len(),
    ensures
        forall|r: Option<int>|
            step_matches(s.remove(i), s[i].key, s[i].seq, true, r) <==> r == (if i + 1 < s.len() {
                Some(i)
            } else {
                None::<int>
            }),
        forall|r: Option<int>|
            step_matches(s.remove(i), s[i].key, s[i].seq, false, r) <==> r == (if i > 0 {
                Some(i - 1)
            } else {
                None::<int>
            }),
        i + 1 < s.len() ==> s.remove(i)[i] == s[i + 1],
{
    let t = s.remove(i);
    assert forall|j: int| 0 <= j < t.len() implies
        (j < i ==> pos_lt(#[trigger] t[j].key, t[j].seq, s[i].key, s[i].seq) && !pos_lt(s[i].key, s[i].seq, t[j].key, t[j].seq))
        && (j >= i ==> pos_lt(s[i].key, s[i].seq, t[j].key, t[j].seq) && !pos_lt(t[j].key, t[j].seq, s[i].key, s[i].seq)) by {
        if j < i {
            assert(t[j] == s[j]);
            assert(pos_lt(s[j].key, s[j].seq, s[i].key, s[i].seq));
        } else {
            assert(t[j] == s[j + 1]);
            assert(pos_lt(s[i].key, s[i].seq, s[j + 1].key, s[j + 1].seq));
        }
        lemma_pos_order(s[i].key, s[i].seq, t[j].key, t[j].seq);
    }
    lemma_step_up(t, s[i].key, s[i].seq, i);
    lemma_step_down(t, s[i].key, s[i].seq, i);
}

/// A seek in an empty namespace finds nothing, whatever the key and bias.
pub proof fn lemma_empty_seek<V>(k: Seq<u8>, bias: SeekBias)
    ensures
        forall|r: Option<int>| seek_matches(Seq::<Record<V>>::empty(), k, bias, r) <==> r is None,
{
    assert(!has_key(Seq::<Record<V>>::empty(), k));
}

/// A value inserted under a key that the namespace does not hold yet is what a
/// lookup of that key gives afterwards.
pub proof fn lemma_round_trip<V>(before: Seq<Record<V>>, after: Seq<Record<V>>, k: Seq<u8>, seq: nat, v: V)
    requires
        !has_key(before, k),
        insert_post(before, after, k, seq, v),
    ensures
        lookup(after, k) == Some(v),
{
    let p = choose|p: int|
        0 <= p <= before.len() && after == before.insert(p, Record { key: k, seq, value: v }) && (forall|j: int|
            0 <= j < p ==> key_le(#[trigger] before[j].key, k)) && (forall|j: int|
            p <= j < before.len() ==> key_lt(k, #[trigger] before[j].key));
    assert forall|j: int| 0 <= j < p implies after[j].key != k by {
        assert(after[j] == before[j]);
    }
    assert(is_first_with_key(after, k, p));
    lemma_first_with_key_unique(after, k, p);
}

/// A run of changes made through namespace `a` leaves every other namespace
/// `b` as it was, whatever keys the two share.
pub proof fn lemma_namespace_isolation<V>(states: Seq<Registry<V>>, a: Seq<u8>, b: Seq<u8>)
    requires
        states.len() > 0,
        a != b,
        forall|i: int| 0 < i < states.len() ==> (#[trigger] states[i]).agrees_outside(&states[i - 1], a),
    ensures
        states.last().records(b) == states[0].records(b),
        states.last().next_seq(b) == states[0].next_seq(b),
    decreases states.len(),
{
    if states.len() > 1 {
        let n = states.len() - 1;
        lemma_namespace_isolation(states.drop_last(), a, b);
        assert(states[n].agrees_outside(&states[n - 1], a));
        assert(states.drop_last().last() == states[n - 1]);
    }
}

} // verus!
