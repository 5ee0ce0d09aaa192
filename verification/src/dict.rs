//! The dictionary of a bencoded document: a map from byte strings to values.

use core::fmt::{Debug, DebugMap, Error, Formatter};
use vstd::prelude::*;
use vstd::slice::slice_to_vec;

use crate::bencode_parser::{value_of, Bencode, Value};
use crate::debug_text::{begin_map, end_map, show_entry, shown_entries};

verus! {

/// Lexicographic order of byte strings: a proper prefix comes before its extensions.
pub open spec fn key_less(a: Seq<u8>, b: Seq<u8>) -> bool
    decreases a.len(),
{
    if b.len() == 0 {
        false
    } else if a.len() == 0 {
        true
    } else if a[0] != b[0] {
        a[0] < b[0]
    } else {
        key_less(a.drop_first(), b.drop_first())
    }
}

proof fn lemma_key_less_irreflexive(a: Seq<u8>)
    ensures
        !key_less(a, a),
    decreases a.len(),
{
    if a.len() > 0 {
        lemma_key_less_irreflexive(a.drop_first());
    }
}

proof fn lemma_key_less_transitive(a: Seq<u8>, b: Seq<u8>, c: Seq<u8>)
    requires
        key_less(a, b),
        key_less(b, c),
    ensures
        key_less(a, c),
    decreases a.len(),
{
    if a.len() > 0 && a[0] == b[0] && b[0] == c[0] {
        lemma_key_less_transitive(a.drop_first(), b.drop_first(), c.drop_first());
    }
}

/// How two keys compare.
enum KeyOrder {
    Less,
    Equal,
    Greater,
}

fn compare_keys(a: &[u8], b: &[u8]) -> (order: KeyOrder)
    ensures
        match order {
            KeyOrder::Less => key_less(a@, b@),
            KeyOrder::Equal => a@ == b@,
            KeyOrder::Greater => key_less(b@, a@),
        },
{
    let mut i: usize = 0;
    proof {
        assert(a@.skip(0) =~= a@);
        assert(b@.skip(0) =~= b@);
    }
    while i < a.len() && i < b.len()
        invariant
            i <= a@.len(),
            i <= b@.len(),
            a@.take(i as int) == b@.take(i as int),
            key_less(a@, b@) == key_less(a@.skip(i as int), b@.skip(i as int)),
            key_less(b@, a@) == key_less(b@.skip(i as int), a@.skip(i as int)),
        decreases a@.len() - i,
    {
        if a[i] < b[i] {
            return KeyOrder::Less;
        }
        if b[i] < a[i] {
            return KeyOrder::Greater;
        }
        proof {
            assert(a@.skip(i as int).drop_first() =~= a@.skip(i + 1));
            assert(b@.skip(i as int).drop_first() =~= b@.skip(i + 1));
            assert(a@.take(i + 1) =~= a@.take(i as int).push(a@[i as int]));
            assert(b@.take(i + 1) =~= b@.take(i as int).push(b@[i as int]));
        }
        i = i + 1;
    }
    if a.len() < b.len() {
        KeyOrder::Less
    } else if b.len() < a.len() {
        KeyOrder::Greater
    } else {
        proof {
            assert(a@.take(i as int) =~= a@);
            assert(b@.take(i as int) =~= b@);
        }
        KeyOrder::Equal
    }
}

/// A dictionary whose keys are byte strings. No key occurs twice, and the entries stand in
/// ascending order of their keys, so equal dictionaries have equal entries.
#[derive(PartialEq, Eq)]
pub struct Dict {
    entries: Vec<(Vec<u8>, Bencode)>,
}

spec fn sorted_by_key(entries: Seq<(Vec<u8>, Bencode)>) -> bool {
    forall|i: int, j: int|
        #![trigger entries[i], entries[j]]
        0 <= i < j < entries.len() ==> key_less(entries[i].0@, entries[j].0@)
}

spec fn entries_map(entries: Seq<(Vec<u8>, Bencode)>) -> Map<Seq<u8>, Value>
    decreases entries,
{
    if entries.len() == 0 {
        Map::empty()
    } else {
        entries_map(entries.drop_last()).insert(entries.last().0@, value_of(entries.last().1))
    }
}

/// A map entry exists for exactly the keys that occur, with the value stored beside the key.
proof fn lemma_entries_map(entries: Seq<(Vec<u8>, Bencode)>)
    requires
        sorted_by_key(entries),
    ensures
        forall|i: int|
            #![trigger entries[i]]
            0 <= i < entries.len() ==> entries_map(entries).contains_key(entries[i].0@)
                && entries_map(entries)[entries[i].0@] == value_of(entries[i].1),
        forall|k: Seq<u8>| #[trigger]
            entries_map(entries).contains_key(k) ==> exists|i: int|
                0 <= i < entries.len() && #[trigger] entries[i].0@ == k,
    decreases entries.len(),
{
    if entries.len() > 0 {
        let init = entries.drop_last();
        assert forall|i: int, j: int|
            #![trigger init[i], init[j]]
            0 <= i < j < init.len() implies key_less(init[i].0@, init[j].0@) by {
            assert(init[i] == entries[i] && init[j] == entries[j]);
        }
        lemma_entries_map(init);
        let last = entries.len() - 1;
        assert forall|i: int|
            #![trigger entries[i]]
            0 <= i < entries.len() implies entries_map(entries).contains_key(entries[i].0@)
            && entries_map(entries)[entries[i].0@] == value_of(entries[i].1) by {
            if i < last {
                assert(init[i] == entries[i]);
                assert(key_less(entries[i].0@, entries[last].0@));
                lemma_key_less_irreflexive(entries[i].0@);
            }
        }
        assert forall|k: Seq<u8>| #[trigger]
            entries_map(entries).contains_key(k) implies exists|i: int|
            0 <= i < entries.len() && #[trigger] entries[i].0@ == k by {
            if k == entries[last].0@ {
                assert(entries[last].0@ == k);
            } else {
                let i = choose|i: int| 0 <= i < init.len() && #[trigger] init[i].0@ == k;
                assert(entries[i].0@ == k);
            }
        }
    }
}

impl Dict {
    #[verifier::type_invariant]
    spec fn sorted(self) -> bool {
        sorted_by_key(self.entries@)
    }

    /// The mapping that the dictionary stands for.
    pub closed spec fn map(self) -> Map<Seq<u8>, Value>
        decreases self,
    {
        entries_map(self.entries@)
    }

    /// An empty dictionary.
    pub fn new() -> (dict: Self)
        ensures
            dict.map() == Map::<Seq<u8>, Value>::empty(),
    {
        Dict { entries: Vec::new() }
    }

    /// Where `key` stands in `entries`, or else where it belongs.
    fn position(entries: &Vec<(Vec<u8>, Bencode)>, key: &[u8]) -> (r: (usize, bool))
        requires
            sorted_by_key(entries@),
        ensures
            r.0 <= entries@.len(),
            forall|i: int| #![trigger entries@[i]] 0 <= i < r.0 ==> key_less(entries@[i].0@, key@),
            r.1 ==> r.0 < entries@.len() && entries@[r.0 as int].0@ == key@,
            !r.1 ==> forall|i: int|
                #![trigger entries@[i]]
                r.0 <= i < entries@.len() ==> key_less(key@, entries@[i].0@),
    {
        let mut low: usize = 0;
        let mut high: usize = entries.len();
        while low < high
            invariant
                low <= high <= entries@.len(),
                sorted_by_key(entries@),
                forall|i: int|
                    #![trigger entries@[i]]
                    0 <= i < low ==> key_less(entries@[i].0@, key@),
                forall|i: int|
                    #![trigger entries@[i]]
                    high <= i < entries@.len() ==> key_less(key@, entries@[i].0@),
            decreases high - low,
        {
            let mid: usize = low + (high - low) / 2;
            match compare_keys(entries[mid].0.as_slice(), key) {
                KeyOrder::Less => {
                    proof {
                        assert forall|i: int|
                            #![trigger entries@[i]]
                            0 <= i < mid + 1 implies key_less(entries@[i].0@, key@) by {
                            if i < mid {
                                lemma_key_less_transitive(
                                    entries@[i].0@,
                                    entries@[mid as int].0@,
                                    key@,
                                );
                            }
                        }
                    }
                    low = mid + 1;
                },
                KeyOrder::Greater => {
                    proof {
                        assert forall|i: int|
                            #![trigger entries@[i]]
                            mid <= i < entries@.len() implies key_less(key@, entries@[i].0@) by {
                            if mid < i {
                                lemma_key_less_transitive(
                                    key@,
                                    entries@[mid as int].0@,
                                    entries@[i].0@,
                                );
                            }
                        }
                    }
                    high = mid;
                },
                KeyOrder::Equal => {
                    proof {
                        assert forall|i: int|
                            #![trigger entries@[i]]
                            0 <= i < mid implies key_less(entries@[i].0@, key@) by {
                            assert(key_less(entries@[i].0@, entries@[mid as int].0@));
                        }
                    }
                    return (mid, true);
                },
            }
        }
        (low, false)
    }

    /// Maps `key` to `value`, in place of the value that `key` had.
    pub fn insert(&mut self, key: Vec<u8>, value: Bencode)
        ensures
            final(self).map() == old(self).map().insert(key@, value_of(value)),
    {
        proof {
            use_type_invariant(&*self);
        }
        let mut entries: Vec<(Vec<u8>, Bencode)> = Vec::new();
        std::mem::swap(&mut self.entries, &mut entries);
        let ghost before = entries@;
        proof {
            lemma_entries_map(before);
        }
        let (i, found) = Self::position(&entries, key.as_slice());
        if found {
            entries.remove(i);
        }
        let ghost rest = entries@;
        let ghost pair = (key, value);
        entries.insert(i, (key, value));
        proof {
            lemma_key_less_irreflexive(pair.0@);
            let after = entries@;
            assert forall|a: int, b: int|
                #![trigger after[a], after[b]]
                0 <= a < b < after.len() implies key_less(after[a].0@, after[b].0@) by {
                let shift: int = if found { 0 } else { 1 };
                let a0: int = if a <= i { a } else { a - shift };
                let b0: int = if b <= i { b } else { b - shift };
                if a != i {
                    assert(after[a] == before[a0]);
                }
                if b != i {
                    assert(after[b] == before[b0]);
                }
                if a != i && b != i {
                    assert(key_less(before[a0].0@, before[b0].0@));
                } else if a == i && found {
                    assert(key_less(before[i as int].0@, before[b0].0@));
                }
            }
            lemma_entries_map(after);
            let want = entries_map(before).insert(pair.0@, value_of(pair.1));
            assert(after[i as int] == pair);
            assert forall|k: Seq<u8>|
                entries_map(after).contains_key(k) == want.contains_key(k) by {
                if entries_map(after).contains_key(k) {
                    let a = choose|a: int| 0 <= a < after.len() && #[trigger] after[a].0@ == k;
                    if a != i {
                        let a0: int = if a <= i || found { a } else { a - 1 };
                        assert(after[a] == before[a0]);
                    }
                }
                if want.contains_key(k) && k != pair.0@ {
                    let a = choose|a: int| 0 <= a < before.len() && #[trigger] before[a].0@ == k;
                    let a1: int = if a < i || found { a } else { a + 1 };
                    assert(after[a1] == before[a]);
                }
            }
            assert forall|k: Seq<u8>| want.contains_key(k) implies entries_map(after)[k]
                == want[k] by {
                if k != pair.0@ {
                    let a = choose|a: int| 0 <= a < before.len() && #[trigger] before[a].0@ == k;
                    let a1: int = if a < i || found { a } else { a + 1 };
                    assert(after[a1] == before[a]);
                }
            }
            assert(entries_map(after) =~= want);
        }
        self.entries = entries;
    }

    /// Takes the entry of `key` out and returns its value.
    pub fn remove(&mut self, key: &[u8]) -> (value: Option<Bencode>)
        ensures
            match value {
                None => !old(self).map().contains_key(key@) && final(self).map() == old(
                    self,
                ).map(),
                Some(v) => old(self).map().contains_key(key@) && value_of(v) == old(
                    self,
                ).map()[key@] && final(self).map() == old(self).map().remove(key@),
            },
    {
        proof {
            use_type_invariant(&*self);
            lemma_entries_map(self.entries@);
        }
        let (i, found) = Self::position(&self.entries, key);
        if !found {
            proof {
                if self.map().contains_key(key@) {
                    let a = choose|a: int|
                        0 <= a < self.entries@.len() && #[trigger] self.entries@[a].0@ == key@;
                    lemma_key_less_irreflexive(key@);
                }
            }
            return None;
        }
        let mut entries: Vec<(Vec<u8>, Bencode)> = Vec::new();
        std::mem::swap(&mut self.entries, &mut entries);
        let ghost before = entries@;
        let (_key, value) = entries.remove(i);
        proof {
            let after = entries@;
            assert forall|a: int, b: int|
                #![trigger after[a], after[b]]
                0 <= a < b < after.len() implies key_less(after[a].0@, after[b].0@) by {
                let a0: int = if a < i { a } else { a + 1 };
                let b0: int = if b < i { b } else { b + 1 };
                assert(after[a] == before[a0] && after[b] == before[b0]);
            }
            lemma_entries_map(after);
            let want = entries_map(before).remove(key@);
            assert forall|a: int|
                #![trigger after[a]]
                0 <= a < after.len() implies after[a].0@ != key@ by {
                let a0: int = if a < i { a } else { a + 1 };
                assert(after[a] == before[a0]);
                assert(before[i as int].0@ == key@);
                lemma_key_less_irreflexive(key@);
            }
            assert forall|k: Seq<u8>|
                entries_map(after).contains_key(k) == want.contains_key(k) by {
                if entries_map(after).contains_key(k) {
                    let a = choose|a: int| 0 <= a < after.len() && #[trigger] after[a].0@ == k;
                    let a0: int = if a < i { a } else { a + 1 };
                    assert(after[a] == before[a0]);
                }
                if want.contains_key(k) {
                    let a = choose|a: int| 0 <= a < before.len() && #[trigger] before[a].0@ == k;
                    let a1: int = if a < i { a } else { a - 1 };
                    assert(after[a1] == before[a]);
                }
            }
            assert forall|k: Seq<u8>| want.contains_key(k) implies entries_map(after)[k]
                == want[k] by {
                let a = choose|a: int| 0 <= a < before.len() && #[trigger] before[a].0@ == k;
                let a1: int = if a < i { a } else { a - 1 };
                assert(after[a1] == before[a]);
            }
            assert(entries_map(after) =~= want);
        }
        self.entries = entries;
        Some(value)
    }
}

proof fn lemma_same_entries_same_map(a: Seq<(Vec<u8>, Bencode)>, b: Seq<(Vec<u8>, Bencode)>)
    requires
        a.len() == b.len(),
        forall|i: int|
            #![trigger a[i]]
            0 <= i < a.len() ==> a[i].0@ == b[i].0@ && value_of(a[i].1) == value_of(b[i].1),
    ensures
        entries_map(a) == entries_map(b),
    decreases a.len(),
{
    if a.len() > 0 {
        assert(a.last() == a[a.len() - 1]);
        let front = a.drop_last();
        assert forall|i: int|
            #![trigger front[i]]
            0 <= i < front.len() implies front[i].0@ == b.drop_last()[i].0@ && value_of(front[i].1)
            == value_of(b.drop_last()[i].1) by {
            assert(front[i] == a[i]);
        }
        lemma_same_entries_same_map(front, b.drop_last());
    }
}

impl Clone for Dict {
    fn clone(&self) -> (copy: Self)
        ensures
            copy.map() == self.map(),
        decreases self,
    {
        proof {
            use_type_invariant(self);
        }
        let mut entries: Vec<(Vec<u8>, Bencode)> = Vec::new();
        for i in 0..self.entries.len()
            invariant
                entries@.len() == i,
                forall|j: int|
                    #![trigger entries@[j]]
                    0 <= j < i ==> entries@[j].0@ == self.entries@[j].0@ && value_of(
                        entries@[j].1,
                    ) == value_of(self.entries@[j].1),
        {
            proof {
                assert(decreases_to!(*self => self.entries));
                assert(decreases_to!(self.entries => self.entries@[i as int]));
                assert(decreases_to!(self.entries@[i as int] => self.entries@[i as int].1));
            }
            let key = slice_to_vec(self.entries[i].0.as_slice());
            let value = self.entries[i].1.clone();
            entries.push((key, value));
        }
        proof {
            let copied = entries@;
            assert forall|a: int, b: int|
                #![trigger copied[a], copied[b]]
                0 <= a < b < copied.len() implies key_less(copied[a].0@, copied[b].0@) by {
                assert(key_less(self.entries@[a].0@, self.entries@[b].0@));
            }
            lemma_same_entries_same_map(copied, self.entries@);
        }
        Dict { entries }
    }
}

/// Entries by what they hold.
spec fn entries_view(entries: Seq<(Vec<u8>, Bencode)>) -> Seq<(Seq<u8>, Value)> {
    entries.map_values(|entry: (Vec<u8>, Bencode)| (entry.0@, value_of(entry.1)))
}

impl Dict {
    /// The dictionary as a map to show, its entries in ascending order of their keys.
    fn debug_map<'a, 'b>(&self, f: &'a mut Formatter<'b>) -> (map: DebugMap<'a, 'b>)
        ensures
            shown_entries(map) == entries_view(self.entries@),
    {
        let mut map = begin_map(f);
        let ghost all = self.entries@;
        proof {
            assert(entries_view(all.take(0)) =~= Seq::<(Seq<u8>, Value)>::empty());
        }
        for i in 0..self.entries.len()
            invariant
                all == self.entries@,
                shown_entries(map) == entries_view(all.take(i as int)),
        {
            show_entry(&mut map, &self.entries[i].0, &self.entries[i].1);
            proof {
                assert(entries_view(all.take(i + 1)) =~= entries_view(all.take(i as int)).push(
                    (all[i as int].0@, value_of(all[i as int].1)),
                ));
            }
        }
        proof {
            assert(all.take(all.len() as int) =~= all);
        }
        map
    }
}

impl Debug for Dict {
    fn fmt(&self, f: &mut Formatter<'_>) -> (r: Result<(), Error>) {
        end_map(self.debug_map(f))
    }
}

} // verus!
