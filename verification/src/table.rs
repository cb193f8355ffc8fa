//! The table of stations: one slot for each station name, by which the
//! station's statistic is kept and found again.

use crate::lexical::{bytes_lt, lemma_lt_total, lemma_lt_transitive, order_of, Order};
use vstd::prelude::*;
use vstd::slice::slice_to_vec;

verus! {

/// A station's name and its slot: the number of stations that were seen
/// before it.
#[derive(Debug)]
pub struct StationMeasurements {
    pub name: Vec<u8>,
    pub slot: usize,
}

/// The table after one more record of the station `name`: a station that is
/// new gets the next free slot, a known one keeps its own.
pub open spec fn assign(m: Map<Seq<u8>, nat>, name: Seq<u8>) -> Map<Seq<u8>, nat> {
    if m.contains_key(name) {
        m
    } else {
        m.insert(name, m.dom().len())
    }
}

/// The names of a run of entries, in their order.
pub open spec fn names_of(s: Seq<StationMeasurements>) -> Seq<Seq<u8>> {
    Seq::new(s.len(), |i: int| s[i].name@)
}

/// Each name comes strictly before every later one.
pub open spec fn strictly_sorted(names: Seq<Seq<u8>>) -> bool {
    forall|i: int, j: int| 0 <= i < j < names.len() ==> bytes_lt(names[i], names[j])
}

/// The mapping that a run of entries stands for.
pub open spec fn map_of(s: Seq<StationMeasurements>) -> Map<Seq<u8>, nat> {
    Map::new(
        |k: Seq<u8>| names_of(s).contains(k),
        |k: Seq<u8>| s[names_of(s).index_of(k)].slot as nat,
    )
}

/// Names and slots of a run of entries, as plain pairs.
pub open spec fn pairs_of(s: Seq<&StationMeasurements>) -> Seq<(Seq<u8>, nat)> {
    Seq::new(s.len(), |i: int| (s[i].name@, s[i].slot as nat))
}

/// `list` holds the entries of `m`, each once, ordered by name.
pub open spec fn is_ordering(list: Seq<(Seq<u8>, nat)>, m: Map<Seq<u8>, nat>) -> bool {
    &&& forall|i: int, j: int| 0 <= i < j < list.len() ==> bytes_lt(list[i].0, list[j].0)
    &&& forall|i: int|
        0 <= i < list.len() ==> m.contains_key(#[trigger] list[i].0) && m[list[i].0] == list[i].1
    &&& forall|k: Seq<u8>|
        m.contains_key(k) ==> exists|i: int| 0 <= i < list.len() && #[trigger] list[i].0 == k
}

/// The entries of `m` ordered by name.
pub open spec fn listing(m: Map<Seq<u8>, nat>) -> Seq<(Seq<u8>, nat)> {
    choose|list: Seq<(Seq<u8>, nat)>| is_ordering(list, m)
}

/// Without its last entry an ordering is the ordering of the mapping
/// without that entry's name.
proof fn lemma_ordering_shorter(list: Seq<(Seq<u8>, nat)>, m: Map<Seq<u8>, nat>)
    requires
        is_ordering(list, m),
        list.len() > 0,
    ensures
        is_ordering(list.drop_last(), m.remove(list.last().0)),
{
    let shorter = list.drop_last();
    let rest = m.remove(list.last().0);
    assert forall|i: int| 0 <= i < shorter.len() implies rest.contains_key(
        #[trigger] shorter[i].0,
    ) && rest[shorter[i].0] == shorter[i].1 by {
        assert(shorter[i] == list[i]);
        assert(bytes_lt(list[i].0, list[list.len() - 1].0));
        lemma_lt_total(list[i].0, list.last().0);
    }
    assert forall|k: Seq<u8>| rest.contains_key(k) implies exists|i: int|
        0 <= i < shorter.len() && #[trigger] shorter[i].0 == k by {
        let i = choose|i: int| 0 <= i < list.len() && #[trigger] list[i].0 == k;
        assert(shorter[i].0 == k);
    }
}

/// The last name of an ordering is not before any name of another ordering
/// of the same mapping.
proof fn lemma_last_is_greatest(
    a: Seq<(Seq<u8>, nat)>,
    b: Seq<(Seq<u8>, nat)>,
    m: Map<Seq<u8>, nat>,
)
    requires
        is_ordering(a, m),
        is_ordering(b, m),
        a.len() > 0,
    ensures
        b.len() > 0,
        !bytes_lt(a.last().0, b.last().0),
{
    assert(m.contains_key(a[0].0));
    let k = b.last().0;
    assert(m.contains_key(b[b.len() - 1].0));
    let i = choose|i: int| 0 <= i < a.len() && #[trigger] a[i].0 == k;
    lemma_lt_total(a.last().0, k);
    if i < a.len() - 1 {
        assert(bytes_lt(a[i].0, a[a.len() - 1].0));
    }
}

/// A mapping has one ordering only.
pub proof fn lemma_ordering_unique(
    a: Seq<(Seq<u8>, nat)>,
    b: Seq<(Seq<u8>, nat)>,
    m: Map<Seq<u8>, nat>,
)
    requires
        is_ordering(a, m),
        is_ordering(b, m),
    ensures
        a == b,
    decreases a.len(),
{
    if a.len() == 0 {
        if b.len() > 0 {
            assert(m.contains_key(b[0].0));
        }
        assert(a =~= b);
    } else {
        lemma_last_is_greatest(a, b, m);
        lemma_last_is_greatest(b, a, m);
        lemma_lt_total(a.last().0, b.last().0);
        assert(m.contains_key(a[a.len() - 1].0));
        assert(m.contains_key(b[b.len() - 1].0));
        assert(a.last() == b.last());
        lemma_ordering_shorter(a, m);
        lemma_ordering_shorter(b, m);
        lemma_ordering_unique(a.drop_last(), b.drop_last(), m.remove(a.last().0));
        assert(a =~= a.drop_last().push(a.last()));
        assert(b =~= b.drop_last().push(b.last()));
    }
}

/// In a sorted run a name is found at its own place only.
proof fn lemma_index(s: Seq<StationMeasurements>, i: int)
    requires
        strictly_sorted(names_of(s)),
        0 <= i < s.len(),
    ensures
        names_of(s).contains(s[i].name@),
        names_of(s).index_of(s[i].name@) == i,
{
    let names = names_of(s);
    assert(names[i] == s[i].name@);
    let j = names.index_of(s[i].name@);
    lemma_lt_total(names[i], names[j]);
    if j < i {
        assert(bytes_lt(names[j], names[i]));
    } else if i < j {
        assert(bytes_lt(names[i], names[j]));
    }
}

/// A sorted run of entries stands for `m` where each entry is in `m` and
/// each key of `m` is the name of an entry.
proof fn lemma_map_of(s: Seq<StationMeasurements>, m: Map<Seq<u8>, nat>)
    requires
        strictly_sorted(names_of(s)),
        forall|i: int|
            0 <= i < s.len() ==> m.contains_key(#[trigger] s[i].name@) && m[s[i].name@]
                == s[i].slot as nat,
        forall|k: Seq<u8>| m.contains_key(k) ==> names_of(s).contains(k),
    ensures
        map_of(s) == m,
{
    let names = names_of(s);
    assert forall|k: Seq<u8>| map_of(s).contains_key(k) == m.contains_key(k) by {
        if names.contains(k) {
            let i = names.index_of(k);
            assert(s[i].name@ == k);
        }
    }
    assert forall|k: Seq<u8>| map_of(s).contains_key(k) implies map_of(s)[k] == m[k] by {
        let i = names.index_of(k);
        assert(s[i].name@ == k);
    }
    assert(map_of(s) =~= m);
}

/// The entries of a sorted run are what its mapping holds.
proof fn lemma_entries(s: Seq<StationMeasurements>)
    requires
        strictly_sorted(names_of(s)),
    ensures
        forall|i: int|
            0 <= i < s.len() ==> map_of(s).contains_key(#[trigger] s[i].name@) && map_of(
                s,
            )[s[i].name@] == s[i].slot as nat,
{
    assert forall|i: int| 0 <= i < s.len() implies map_of(s).contains_key(#[trigger] s[i].name@)
        && map_of(s)[s[i].name@] == s[i].slot as nat by {
        lemma_index(s, i);
    }
}

/// A sorted run has as many entries as its mapping has keys.
proof fn lemma_size(s: Seq<StationMeasurements>)
    requires
        strictly_sorted(names_of(s)),
    ensures
        map_of(s).dom().finite(),
        map_of(s).dom().len() == s.len(),
{
    let names = names_of(s);
    assert forall|i: int, j: int| 0 <= i < names.len() && 0 <= j < names.len() && i != j implies names[i]
        != names[j] by {
        lemma_lt_total(names[i], names[j]);
        if i < j {
            assert(bytes_lt(names[i], names[j]));
        } else {
            assert(bytes_lt(names[j], names[i]));
        }
    }
    assert(names.no_duplicates());
    names.unique_seq_to_set();
    vstd::seq_lib::seq_to_set_is_finite(names);
    assert(map_of(s).dom() =~= names.to_set());
}

/// Each slot is below the number of entries, and no two entries share one.
pub open spec fn slots_in_order(s: Seq<StationMeasurements>) -> bool {
    &&& forall|i: int| 0 <= i < s.len() ==> (#[trigger] s[i]).slot < s.len()
    &&& forall|i: int, j: int|
        0 <= i < s.len() && 0 <= j < s.len() && i != j ==> (#[trigger] s[i]).slot != (
        #[trigger] s[j]).slot
}

/// The stations seen so far, each with its slot. Entries are kept in
/// the order of their names, so no name occurs twice.
#[derive(Debug)]
pub struct StationTable {
    entries: Vec<StationMeasurements>,
}

impl View for StationTable {
    type V = Map<Seq<u8>, nat>;

    closed spec fn view(&self) -> Map<Seq<u8>, nat> {
        map_of(self.entries@)
    }
}

impl StationTable {
    /// The entries are sorted by name, and the slots are those below the
    /// number of entries, each once.
    pub closed spec fn wf(&self) -> bool {
        &&& strictly_sorted(names_of(self.entries@))
        &&& slots_in_order(self.entries@)
    }

    /// A well-formed table is finite, each slot is below the number of
    /// stations, and no two stations share a slot.
    pub proof fn lemma_slots(&self)
        requires
            self.wf(),
        ensures
            self@.dom().finite(),
            forall|k: Seq<u8>| self@.contains_key(k) ==> #[trigger] self@[k] < self@.dom().len(),
            forall|k: Seq<u8>, l: Seq<u8>|
                self@.contains_key(k) && self@.contains_key(l) && k != l ==> #[trigger] self@[k]
                    != #[trigger] self@[l],
    {
        let s = self.entries@;
        lemma_size(s);
        lemma_entries(s);
        assert forall|k: Seq<u8>| self@.contains_key(k) implies #[trigger] self@[k]
            < self@.dom().len() by {
            let i = names_of(s).index_of(k);
            assert(s[i].slot < s.len());
        }
        assert forall|k: Seq<u8>, l: Seq<u8>|
            self@.contains_key(k) && self@.contains_key(l) && k != l implies #[trigger] self@[k]
            != #[trigger] self@[l] by {
            let i = names_of(s).index_of(k);
            let j = names_of(s).index_of(l);
            assert(names_of(s)[i] == k && names_of(s)[j] == l);
            assert(s[i].slot != s[j].slot);
        }
    }

    /// A table without stations.
    pub fn new() -> (r: StationTable)
        ensures
            r.wf(),
            r@ == Map::<Seq<u8>, nat>::empty(),
    {
        let r = StationTable { entries: Vec::new() };
        assert(r@ =~= Map::<Seq<u8>, nat>::empty());
        r
    }

    /// The number of stations.
    pub fn len(&self) -> (r: usize)
        requires
            self.wf(),
        ensures
            self@.dom().finite(),
            r == self@.dom().len(),
    {
        proof {
            lemma_size(self.entries@);
        }
        self.entries.len()
    }

    /// Finds the slot of the station `name`, and whether the station is new.
    /// A new station is entered with the next free slot; its name is copied.
    pub fn slot_of(&mut self, name: &[u8]) -> (r: (usize, bool))
        requires
            old(self).wf(),
        ensures
            final(self).wf(),
            final(self)@ == assign(old(self)@, name@),
            final(self)@.contains_key(name@),
            r.0 == final(self)@[name@],
            r.1 == !old(self)@.contains_key(name@),
    {
        let ghost before = self.entries@;
        let mut lo: usize = 0;
        let mut hi: usize = self.entries.len();
        while lo < hi
            invariant
                self.entries@ == before,
                old(self).entries@ == before,
                lo <= hi <= before.len(),
                strictly_sorted(names_of(before)),
                slots_in_order(before),
                forall|j: int| 0 <= j < lo ==> bytes_lt(#[trigger] names_of(before)[j], name@),
                forall|j: int|
                    hi <= j < before.len() ==> bytes_lt(name@, #[trigger] names_of(before)[j]),
            decreases hi - lo,
        {
            let mid: usize = lo + (hi - lo) / 2;
            let ghost at_mid = names_of(before)[mid as int];
            match order_of(self.entries[mid].name.as_slice(), name) {
                Order::Before => {
                    assert forall|j: int| 0 <= j < mid + 1 implies bytes_lt(
                        #[trigger] names_of(before)[j],
                        name@,
                    ) by {
                        if j < mid {
                            lemma_lt_transitive(names_of(before)[j], at_mid, name@);
                        }
                    }
                    lo = mid + 1;
                },
                Order::After => {
                    assert forall|j: int| mid <= j < before.len() implies bytes_lt(
                        name@,
                        #[trigger] names_of(before)[j],
                    ) by {
                        if mid < j {
                            lemma_lt_transitive(name@, at_mid, names_of(before)[j]);
                        }
                    }
                    hi = mid;
                },
                Order::Same => {
                    proof {
                        lemma_entries(before);
                        assert(before[mid as int].name@ == name@);
                    }
                    let slot: usize = self.entries[mid].slot;
                    proof {
                        lemma_index(before, mid as int);
                        assert(names_of(before)[mid as int] == name@);
                    }
                    return (slot, false);
                },
            }
        }
        let slot: usize = self.entries.len();
        let entry = StationMeasurements {
            name: slice_to_vec(name),
            slot,
        };
        self.entries.insert(lo, entry);
        proof {
            let after = self.entries@;
            lemma_size(before);
            let target = assign(map_of(before), name@);
            lemma_entries(before);
            assert forall|j: int| 0 <= j < before.len() implies names_of(before)[j] != name@ by {
                lemma_lt_total(names_of(before)[j], name@);
            }
            assert(!names_of(before).contains(name@));
            assert forall|i: int, j: int| 0 <= i < j < after.len() implies bytes_lt(
                names_of(after)[i],
                names_of(after)[j],
            ) by {
                if i == lo {
                    assert(names_of(after)[j] == names_of(before)[j - 1]);
                } else if j == lo {
                    assert(names_of(after)[i] == names_of(before)[i]);
                } else {
                    let a = if i < lo { i } else { i - 1 };
                    let b = if j < lo { j } else { j - 1 };
                    assert(names_of(after)[i] == names_of(before)[a]);
                    assert(names_of(after)[j] == names_of(before)[b]);
                }
            }
            assert forall|i: int| 0 <= i < after.len() implies target.contains_key(
                #[trigger] after[i].name@,
            ) && target[after[i].name@] == after[i].slot as nat by {
                if i != lo {
                    let a = if i < lo { i } else { i - 1 };
                    assert(after[i] == before[a]);
                    assert(names_of(before)[a] == before[a].name@);
                }
            }
            assert forall|k: Seq<u8>| target.contains_key(k) implies names_of(after).contains(
                k,
            ) by {
                if k == name@ {
                    assert(names_of(after)[lo as int] == k);
                } else {
                    let a = names_of(before).index_of(k);
                    let i = if a < lo { a } else { a + 1 };
                    assert(names_of(after)[i] == k);
                }
            }
            lemma_map_of(after, target);
            assert forall|i: int| 0 <= i < after.len() implies (#[trigger] after[i]).slot
                < after.len() by {
                if i != lo {
                    let a = if i < lo { i } else { i - 1 };
                    assert(after[i] == before[a]);
                }
            }
            assert forall|i: int, j: int|
                0 <= i < after.len() && 0 <= j < after.len() && i != j implies (
            #[trigger] after[i]).slot != (#[trigger] after[j]).slot by {
                let a = if i < lo { i } else { i - 1 };
                let b = if j < lo { j } else { j - 1 };
                if i != lo {
                    assert(after[i] == before[a]);
                }
                if j != lo {
                    assert(after[j] == before[b]);
                }
            }
        }
        (slot, true)
    }

    /// The entries in the order of their names.
    pub fn sort_results(&self) -> (r: Vec<&StationMeasurements>)
        requires
            self.wf(),
        ensures
            is_ordering(pairs_of(r@), self@),
            pairs_of(r@) == listing(self@),
            r@.len() == self@.dom().len(),
            forall|i: int| 0 <= i < r@.len() ==> (#[trigger] r@[i]).slot < r@.len(),
    {
        let mut out: Vec<&StationMeasurements> = Vec::new();
        let mut i: usize = 0;
        while i < self.entries.len()
            invariant
                i <= self.entries@.len(),
                out@.len() == i,
                forall|j: int| 0 <= j < i ==> *(#[trigger] out@[j]) == self.entries@[j],
            decreases self.entries@.len() - i,
        {
            out.push(&self.entries[i]);
            i = i + 1;
        }
        proof {
            let s = self.entries@;
            let list = pairs_of(out@);
            lemma_size(s);
            lemma_entries(s);
            assert forall|a: int, b: int| 0 <= a < b < list.len() implies bytes_lt(
                list[a].0,
                list[b].0,
            ) by {
                assert(list[a].0 == names_of(s)[a]);
                assert(list[b].0 == names_of(s)[b]);
            }
            assert forall|a: int| 0 <= a < list.len() implies self@.contains_key(
                #[trigger] list[a].0,
            ) && self@[list[a].0] == list[a].1 by {
                assert(list[a].0 == s[a].name@);
            }
            assert forall|k: Seq<u8>| self@.contains_key(k) implies exists|a: int|
                0 <= a < list.len() && #[trigger] list[a].0 == k by {
                let a = names_of(s).index_of(k);
                assert(list[a].0 == k);
            }
            assert(is_ordering(list, self@));
            lemma_ordering_unique(list, listing(self@), self@);
        }
        out
    }
}

} // verus!
