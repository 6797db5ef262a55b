//! From the names of segments to their ids.
//!
//! Segments are most often named 1, 2, 3, ... in the order in which they
//! appear, so that the id of a segment is its name minus one. The map keeps
//! count of how far that holds and stores only the other names in a table.

use std::collections::HashMap;
use vstd::prelude::*;

verus! {

broadcast use vstd::std_specs::hash::group_hash_axioms;

/// What a name map holds: the names up to `sequential_max` stand for the id
/// one below them, and the table holds the rest.
pub struct NameMapView {
    pub sequential_max: nat,
    pub others: Map<usize, usize>,
}

impl NameMapView {
    /// The map that knows no name.
    pub open spec fn empty() -> NameMapView {
        NameMapView { sequential_max: 0, others: Map::empty() }
    }

    /// The name is one of those that stand for the id one below them.
    pub open spec fn in_sequence(self, name: usize) -> bool {
        1 <= name <= self.sequential_max
    }

    /// The id that a name is resolved to, if it is known.
    pub open spec fn get(self, name: usize) -> Option<usize> {
        if self.in_sequence(name) {
            Some((name - 1) as usize)
        } else if self.others.contains_key(name) {
            Some(self.others[name])
        } else {
            None
        }
    }

    /// The map once `name` has been inserted with `id`. The name that comes
    /// next in sequence, with the id that comes next, only moves the count;
    /// anything else goes into the table.
    pub open spec fn insert(self, name: usize, id: usize) -> NameMapView {
        if name - 1 == self.sequential_max && name - 1 == id {
            NameMapView { sequential_max: self.sequential_max + 1, ..self }
        } else {
            NameMapView { others: self.others.insert(name, id), ..self }
        }
    }

    /// The names that are known, each with the id it is resolved to.
    pub open spec fn as_map(self) -> Map<usize, usize> {
        Map::new(|name: usize| self.get(name) is Some, |name: usize| self.get(name).unwrap())
    }
}

/// The map after the names 1 to `n` have been inserted in order, each with
/// the id one below it.
pub open spec fn sequence_inserted(n: nat) -> NameMapView
    decreases n,
{
    if n == 0 {
        NameMapView::empty()
    } else {
        sequence_inserted((n - 1) as nat).insert(n as usize, (n - 1) as usize)
    }
}

/// A name that has just been inserted is resolved to the id it was inserted
/// with, whether it went into the table or moved the count. The one name
/// left out is a name already counted in sequence: it keeps the id one
/// below it.
pub proof fn lemma_get_after_insert(m: NameMapView, name: usize, id: usize)
    requires
        !m.in_sequence(name),
    ensures
        m.insert(name, id).get(name) == Some(id),
{
}

/// A name already counted in sequence keeps the id one below it, whatever is
/// inserted under it later.
pub proof fn lemma_insert_in_sequence(m: NameMapView, name: usize, id: usize)
    requires
        m.in_sequence(name),
    ensures
        m.insert(name, id).get(name) == Some((name - 1) as usize),
{
}

/// Inserting one name does not change what any other name is resolved to.
pub proof fn lemma_insert_keeps_others(m: NameMapView, name: usize, id: usize, other: usize)
    requires
        other != name,
    ensures
        m.insert(name, id).get(other) == m.get(other),
{
}

/// The map behaves as a plain map from names to ids does: an insertion
/// updates it at the name inserted and nowhere else.
pub proof fn lemma_insert_as_map(m: NameMapView, name: usize, id: usize)
    requires
        !m.in_sequence(name),
    ensures
        m.insert(name, id).as_map() == m.as_map().insert(name, id),
{
    assert(m.insert(name, id).as_map() =~= m.as_map().insert(name, id));
}

/// Names 1 to `n` inserted in order, each with the id one below it, never
/// reach the table.
pub proof fn lemma_sequence_skips_table(n: nat)
    requires
        n <= usize::MAX,
    ensures
        sequence_inserted(n).others == Map::<usize, usize>::empty(),
        sequence_inserted(n).sequential_max == n,
        forall|name: usize| 1 <= name <= n ==> sequence_inserted(n).get(name) == Some(
            (name - 1) as usize,
        ),
    decreases n,
{
    if n > 0 {
        lemma_sequence_skips_table((n - 1) as nat);
    }
}

/// The map after a list of names has been inserted in order, each with its
/// id.
pub open spec fn inserted(pairs: Seq<(usize, usize)>) -> NameMapView
    decreases pairs.len(),
{
    if pairs.len() == 0 {
        NameMapView::empty()
    } else {
        inserted(pairs.drop_last()).insert(pairs.last().0, pairs.last().1)
    }
}

/// The name occurs in the list.
pub open spec fn has_name(pairs: Seq<(usize, usize)>, name: usize) -> bool {
    exists|k: int| 0 <= k < pairs.len() && (#[trigger] pairs[k]).0 == name
}

/// No name occurs twice in the list.
pub open spec fn names_differ(pairs: Seq<(usize, usize)>) -> bool {
    forall|i: int, j: int|
        0 <= i < j < pairs.len() ==> (#[trigger] pairs[i]).0 != (#[trigger] pairs[j]).0
}

/// Whatever the order in which names are inserted, each with its id, every
/// name is resolved to the id it was inserted with, and no other name is
/// known. This is said of names that are inserted once; a name inserted
/// again after it has been counted in sequence keeps the id one below it.
pub proof fn lemma_any_order(pairs: Seq<(usize, usize)>)
    requires
        names_differ(pairs),
    ensures
        forall|k: int|
            0 <= k < pairs.len() ==> inserted(pairs).get((#[trigger] pairs[k]).0) == Some(
                pairs[k].1,
            ),
        forall|name: usize|
            (#[trigger] inserted(pairs).get(name)) is Some ==> has_name(pairs, name),
    decreases pairs.len(),
{
    if pairs.len() > 0 {
        let before = pairs.drop_last();
        let last = pairs.last();
        let m = inserted(before);
        assert(names_differ(before)) by {
            assert forall|i: int, j: int| 0 <= i < j < before.len() implies (#[trigger] before[i]).0
                != (#[trigger] before[j]).0 by {
                assert(before[i] == pairs[i]);
                assert(before[j] == pairs[j]);
            }
        }
        lemma_any_order(before);
        // The name that comes last is not known yet, so it is not counted.
        if m.get(last.0) is Some {
            let k = choose|k: int| 0 <= k < before.len() && (#[trigger] before[k]).0 == last.0;
            assert(pairs[k] == before[k]);
            assert(pairs[pairs.len() - 1] == last);
        }
        assert(!m.in_sequence(last.0));
        assert forall|k: int| 0 <= k < pairs.len() implies inserted(pairs).get(
            (#[trigger] pairs[k]).0,
        ) == Some(pairs[k].1) by {
            if k < before.len() {
                assert(before[k] == pairs[k]);
                assert(pairs[pairs.len() - 1] == last);
            }
        }
        assert forall|name: usize| (#[trigger] inserted(pairs).get(name)) is Some implies has_name(
            pairs,
            name,
        ) by {
            if name == last.0 {
                assert(pairs[pairs.len() - 1].0 == name);
            } else {
                assert(m.get(name) is Some);
                let k = choose|k: int| 0 <= k < before.len() && (#[trigger] before[k]).0 == name;
                assert(pairs[k] == before[k]);
            }
        }
    }
}

/// Resolves the names of segments to their ids.
pub struct NameMap {
    /// Names from 1 up to this one have the id one below them.
    sequential_max: usize,
    /// The other names.
    others: HashMap<usize, usize>,
}

impl View for NameMap {
    type V = NameMapView;

    closed spec fn view(&self) -> NameMapView {
        NameMapView { sequential_max: self.sequential_max as nat, others: self.others@ }
    }
}

impl NameMap {
    /// A map that knows no name.
    pub fn new() -> (m: NameMap)
        ensures
            m@ == NameMapView::empty(),
    {
        NameMap { sequential_max: 0, others: HashMap::new() }
    }

    /// Record that the segment called `name` has the id `id`.
    pub fn insert(&mut self, name: usize, id: usize)
        ensures
            final(self)@ == old(self)@.insert(name, id),
    {
        // Is this the next name in sequence? Then there is nothing to store:
        // it is enough to count it.
        if name >= 1 && (name - 1) == self.sequential_max && (name - 1) == id {
            self.sequential_max += 1;
        } else {
            self.others.insert(name, id);
        }
    }

    /// The id of the segment called `name`, if the name is known.
    pub fn get(&self, name: usize) -> (id: Option<usize>)
        ensures
            id == self@.get(name),
    {
        if name >= 1 && name <= self.sequential_max {
            Some(name - 1)
        } else {
            match self.others.get(&name) {
                Some(id) => Some(*id),
                None => None,
            }
        }
    }
}

impl Default for NameMap {
    fn default() -> (m: NameMap)
        ensures
            m@ == NameMapView::empty(),
    {
        NameMap::new()
    }
}

} // verus!
