//! A frequency counter over bytes whose table is ordered by count: each
//! byte value gets a node holding its number of occurrences (new symbols
//! are appended), and the table is then sorted ascending by count.

use vstd::prelude::*;
use core::cmp::Ordering;
use vstd::std_specs::cmp::{PartialEqSpecImpl, PartialOrdSpecImpl};
use crate::queue::{has_sym, first_index, lemma_first_index_at};
use crate::sorter::{cmp_usable, le_spec, sort, sorted_between};

verus! {

/// One counted byte value.
#[derive(Clone, Copy, Debug)]
pub struct FrequencyNode {
    pub datum: u8,
    pub count: u32,
}

impl FrequencyNode {
    fn increment(&mut self)
        requires
            old(self).count < u32::MAX,
        ensures
            final(self).datum == old(self).datum,
            final(self).count == old(self).count + 1,
    {
        self.count = self.count + 1;
    }
}

impl PartialEq for FrequencyNode {
    fn eq(&self, other: &Self) -> (r: bool) {
        self.count == other.count
    }
}

impl PartialEqSpecImpl for FrequencyNode {
    open spec fn obeys_eq_spec() -> bool {
        true
    }

    open spec fn eq_spec(&self, other: &Self) -> bool {
        self.count == other.count
    }
}

impl PartialOrd for FrequencyNode {
    fn lt(&self, other: &Self) -> (r: bool) {
        self.count < other.count
    }

    fn le(&self, other: &Self) -> (r: bool) {
        self.count <= other.count
    }

    fn gt(&self, other: &Self) -> (r: bool) {
        self.count > other.count
    }

    fn ge(&self, other: &Self) -> (r: bool) {
        self.count >= other.count
    }

    fn partial_cmp(&self, other: &Self) -> (r: Option<Ordering>) {
        if self.count < other.count {
            Some(Ordering::Less)
        } else if self.count == other.count {
            Some(Ordering::Equal)
        } else {
            Some(Ordering::Greater)
        }
    }
}

impl PartialOrdSpecImpl for FrequencyNode {
    open spec fn obeys_partial_cmp_spec() -> bool {
        true
    }

    open spec fn partial_cmp_spec(&self, other: &Self) -> Option<Ordering> {
        if self.count < other.count {
            Some(Ordering::Less)
        } else if self.count == other.count {
            Some(Ordering::Equal)
        } else {
            Some(Ordering::Greater)
        }
    }
}

/// The ordering by count is total and transitive, so the sorter accepts
/// these nodes.
pub proof fn lemma_node_cmp_usable()
    ensures
        cmp_usable::<FrequencyNode>(),
{
    assert forall|a: FrequencyNode, b: FrequencyNode| #[trigger] le_spec(a, b) || #[trigger] le_spec(
        b,
        a,
    ) by {
        if a.count <= b.count {
            assert(le_spec(a, b));
        } else {
            assert(le_spec(b, a));
        }
    }
    assert forall|a: FrequencyNode, b: FrequencyNode, c: FrequencyNode|
        #[trigger] le_spec(a, b) && #[trigger] le_spec(b, c) implies le_spec(a, c) by {
        assert(a.count <= b.count && b.count <= c.count);
    }
}

/// The mathematical view of a node table.
pub open spec fn node_view(v: Seq<FrequencyNode>) -> Seq<(u8, int)> {
    Seq::new(v.len(), |k: int| (v[k].datum, v[k].count as int))
}

/// A table as nodes.
pub open spec fn table_nodes(t: Seq<(u8, int)>) -> Seq<FrequencyNode> {
    Seq::new(t.len(), |k: int| FrequencyNode { datum: t[k].0, count: t[k].1 as u32 })
}

/// One counting step: bump a known symbol's node in place, or append a
/// fresh node with count one.
pub open spec fn count_step(t: Seq<(u8, int)>, b: u8) -> Seq<(u8, int)> {
    if has_sym(t, b) {
        let k = first_index(t, b);
        t.update(k, (b, t[k].1 + 1))
    } else {
        t.push((b, 1int))
    }
}

/// The unsorted count table of a byte sequence, in first-occurrence
/// order.
pub open spec fn spec_data_frequencies(data: Seq<u8>) -> Seq<(u8, int)>
    decreases data.len(),
{
    if data.len() == 0 {
        Seq::empty()
    } else {
        count_step(spec_data_frequencies(data.drop_last()), data.last())
    }
}

pub struct Frequencies {
    pub nodes: Vec<FrequencyNode>,
}

impl Frequencies {
    fn new() -> (r: Frequencies)
        ensures
            r.nodes@.len() == 0,
    {
        Frequencies { nodes: Vec::new() }
    }

    /// Retrieves a node's index.
    ///
    /// This checks if a node exists and if it does, returns the node's
    /// index. Returns `None` if it doesn't exist.
    fn get_node_index(&self, b: &u8) -> (r: Option<usize>)
        ensures
            r matches Some(ix) ==> ix < self.nodes@.len() && node_view(self.nodes@)[ix as int].0
                == *b && (forall|k: int|
                0 <= k < ix ==> (#[trigger] node_view(self.nodes@)[k]).0 != *b),
            r is None ==> !has_sym(node_view(self.nodes@), *b),
    {
        let ghost t = node_view(self.nodes@);
        let mut i: usize = 0;
        while i < self.nodes.len()
            invariant
                i <= self.nodes@.len(),
                t == node_view(self.nodes@),
                forall|k: int| 0 <= k < i ==> (#[trigger] t[k]).0 != *b,
            decreases self.nodes@.len() - i,
        {
            if self.nodes[i].datum == *b {
                proof {
                    assert(t[i as int].0 == *b);
                }
                return Some(i);
            }
            i = i + 1;
        }
        proof {
            if has_sym(t, *b) {
                let k = choose|k: int| 0 <= k < t.len() && (#[trigger] t[k]).0 == *b;
                assert(t[k].0 != *b);
            }
        }
        None
    }

    /// Increments a node's count.
    fn increment_node(&mut self, index: usize)
        requires
            index < old(self).nodes@.len(),
            old(self).nodes@[index as int].count < u32::MAX,
        ensures
            final(self).nodes@ =~= old(self).nodes@.update(
                index as int,
                FrequencyNode {
                    datum: old(self).nodes@[index as int].datum,
                    count: (old(self).nodes@[index as int].count + 1) as u32,
                },
            ),
    {
        let mut n = self.nodes[index];
        n.increment();
        self.nodes[index] = n;
    }

    /// Creates a new node.
    fn insert_node(&mut self, b: u8)
        ensures
            final(self).nodes@ =~= old(self).nodes@.push(FrequencyNode { datum: b, count: 1 }),
    {
        let n = FrequencyNode { datum: b, count: 1 };
        self.nodes.push(n);
    }

    /// Sorts the nodes ascending by count.
    fn sort(&mut self)
        ensures
            final(self).nodes@.to_multiset() == old(self).nodes@.to_multiset(),
            sorted_between(final(self).nodes@, 0, final(self).nodes@.len() as int),
    {
        proof {
            lemma_node_cmp_usable();
        }
        sort::<FrequencyNode>(&mut self.nodes);
    }
}

/// Counts how often each byte value occurs in the input and hands the
/// table back sorted ascending by count.
pub fn data_frequencies(data: &Vec<u8>) -> (r: Frequencies)
    requires
        data@.len() <= u32::MAX,
    ensures
        sorted_between(r.nodes@, 0, r.nodes@.len() as int),
        r.nodes@.to_multiset() == table_nodes(spec_data_frequencies(data@)).to_multiset(),
{
    let mut freq = Frequencies::new();
    let mut i: usize = 0;
    proof {
        assert(node_view(freq.nodes@) =~= spec_data_frequencies(data@.take(0)));
    }
    while i < data.len()
        invariant
            i <= data@.len(),
            data@.len() <= u32::MAX,
            node_view(freq.nodes@) =~= spec_data_frequencies(data@.take(i as int)),
            forall|k: int| 0 <= k < freq.nodes@.len() ==> (#[trigger] freq.nodes@[k]).count <= i,
        decreases data@.len() - i,
    {
        let b = data[i];
        let ghost t = spec_data_frequencies(data@.take(i as int));
        let ghost old_nodes = freq.nodes@;
        proof {
            assert(data@.take(i as int + 1).drop_last() =~= data@.take(i as int));
            assert(data@.take(i as int + 1).last() == data@[i as int]);
        }
        match freq.get_node_index(&b) {
            Some(ix) => {
                proof {
                    lemma_first_index_at(t, b, ix as int);
                }
                freq.increment_node(ix);
                proof {
                    let t2 = node_view(freq.nodes@);
                    let fi = ix as int;
                    let target = t.update(fi, (b, t[fi].1 + 1));
                    assert forall|k: int| 0 <= k < t2.len() implies t2[k] == target[k] by {
                        if k == fi {
                            assert(freq.nodes@[k].datum == b);
                            assert(freq.nodes@[k].count as int == t[fi].1 + 1);
                            assert(target[k] == (b, t[fi].1 + 1));
                        } else {
                            assert(freq.nodes@[k] == old_nodes[k]);
                            assert(t2[k] == t[k]);
                            assert(target[k] == t[k]);
                        }
                    }
                    assert(t2 =~= target);
                    assert(count_step(t, b) == target);
                }
            },
            None => {
                freq.insert_node(b);
                proof {
                    let t2 = node_view(freq.nodes@);
                    let target = t.push((b, 1int));
                    assert forall|k: int| 0 <= k < t2.len() implies t2[k] == target[k] by {
                        if k == t.len() as int {
                            assert(freq.nodes@[k] == FrequencyNode { datum: b, count: 1 });
                        } else {
                            assert(freq.nodes@[k] == old_nodes[k]);
                            assert(t2[k] == t[k]);
                        }
                    }
                    assert(t2 =~= target);
                    assert(count_step(t, b) == target);
                }
            },
        }
        i = i + 1;
    }
    proof {
        assert(data@.take(data@.len() as int) =~= data@);
        let t = spec_data_frequencies(data@);
        let nv = node_view(freq.nodes@);
        assert(nv =~= t);
        assert(freq.nodes@ =~= table_nodes(t)) by {
            assert forall|k: int| 0 <= k < freq.nodes@.len() implies freq.nodes@[k] == table_nodes(
                t,
            )[k] by {
                assert(nv[k] == t[k]);
                assert(freq.nodes@[k].datum == t[k].0);
                assert(freq.nodes@[k].count as int == t[k].1);
            }
        }
    }
    freq.sort();
    freq
}

} // verus!
