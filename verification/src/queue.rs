//! Frequency analysis over raw bytes: a histogram of the byte values that
//! occur in the input, in the order the analyzer discovers them (each new
//! symbol is put at the front). This ordering is part of the contract: the
//! tree builder breaks weight ties by table index, so the table layout
//! decides the tree.

use vstd::prelude::*;
use crate::tree::{table_sym_set, table_weight};

verus! {

/// One frequency entry: a symbol and how often it occurs.
#[derive(Clone, Copy)]
pub struct Frequency(pub u8, pub usize);

pub type Frequencies = Vec<Frequency>;

pub struct FrequencyStruct {
    pub data: Frequencies,
}

/// The mathematical view of a frequency table.
pub open spec fn table_view(v: Seq<Frequency>) -> Seq<(u8, int)> {
    Seq::new(v.len(), |k: int| (v[k].0, v[k].1 as int))
}

/// Whether the table has an entry for `b`.
pub open spec fn has_sym(t: Seq<(u8, int)>, b: u8) -> bool {
    exists|k: int| 0 <= k < t.len() && (#[trigger] t[k]).0 == b
}

/// The first index carrying `b`, or the length when `b` is absent.
pub open spec fn first_index(t: Seq<(u8, int)>, b: u8) -> int
    decreases t.len(),
{
    if t.len() == 0 {
        0
    } else if t[0].0 == b {
        0
    } else {
        1 + first_index(t.drop_first(), b)
    }
}

/// One analysis step: bump the count of a known symbol in place, or put a
/// fresh symbol at the front with count one.
pub open spec fn freq_step(t: Seq<(u8, int)>, b: u8) -> Seq<(u8, int)> {
    if has_sym(t, b) {
        let k = first_index(t, b);
        t.update(k, (b, t[k].1 + 1))
    } else {
        seq![(b, 1int)] + t
    }
}

/// The frequency table of a byte sequence, processed left to right.
pub open spec fn spec_frequencies(data: Seq<u8>) -> Seq<(u8, int)>
    decreases data.len(),
{
    if data.len() == 0 {
        Seq::empty()
    } else {
        freq_step(spec_frequencies(data.drop_last()), data.last())
    }
}

/// A well-formed frequency table: unique symbols, every count at least one.
pub open spec fn table_ok(t: Seq<(u8, int)>) -> bool {
    &&& forall|k1: int, k2: int|
        0 <= k1 < t.len() && 0 <= k2 < t.len() && k1 != k2 ==> (#[trigger] t[k1]).0 != (
        #[trigger] t[k2]).0
    &&& forall|k: int| 0 <= k < t.len() ==> (#[trigger] t[k]).1 >= 1
}

pub proof fn lemma_first_index(t: Seq<(u8, int)>, b: u8)
    requires
        has_sym(t, b),
    ensures
        0 <= first_index(t, b) < t.len(),
        t[first_index(t, b)].0 == b,
        forall|k: int| 0 <= k < first_index(t, b) ==> (#[trigger] t[k]).0 != b,
    decreases t.len(),
{
    if t.len() > 0 && t[0].0 != b {
        let rest = t.drop_first();
        assert(forall|k: int| 0 <= k < rest.len() ==> (#[trigger] rest[k]) == t[k + 1]);
        let k0 = choose|k: int| 0 <= k < t.len() && (#[trigger] t[k]).0 == b;
        assert(rest[k0 - 1].0 == b);
        lemma_first_index(rest, b);
        assert forall|k: int| 0 <= k < first_index(t, b) implies (#[trigger] t[k]).0 != b by {
            if k > 0 {
                assert(rest[k - 1] == t[k]);
                assert(rest[k - 1].0 != b);
            }
        }
    }
}

pub proof fn lemma_table_weight_update(t: Seq<(u8, int)>, k: int, p: (u8, int))
    requires
        0 <= k < t.len(),
    ensures
        table_weight(t.update(k, p)) == table_weight(t) - t[k].1 + p.1,
    decreases t.len(),
{
    if k == t.len() - 1 {
        assert(t.update(k, p).drop_last() =~= t.drop_last());
        assert(t.update(k, p).last() == p);
    } else {
        assert(t.update(k, p).drop_last() =~= t.drop_last().update(k, p));
        assert(t.update(k, p).last() == t.last());
        lemma_table_weight_update(t.drop_last(), k, p);
        assert(t.drop_last()[k] == t[k]);
    }
}

pub proof fn lemma_table_weight_cons(x: (u8, int), t: Seq<(u8, int)>)
    ensures
        table_weight(seq![x] + t) == x.1 + table_weight(t),
    decreases t.len(),
{
    if t.len() == 0 {
        let s = seq![x] + t;
        assert(s =~= seq![x]);
        assert(s.len() == 1);
        assert(s.drop_last() =~= Seq::<(u8, int)>::empty());
        assert(table_weight(s.drop_last()) == 0);
        assert(table_weight(s) == table_weight(s.drop_last()) + s.last().1);
        assert(s.last() == x);
        assert(table_weight(t) == 0);
    } else {
        let s = seq![x] + t;
        assert(s.drop_last() =~= seq![x] + t.drop_last());
        assert(s.last() == t.last());
        lemma_table_weight_cons(x, t.drop_last());
        assert(table_weight(s) == table_weight(s.drop_last()) + s.last().1);
        assert(table_weight(t) == table_weight(t.drop_last()) + t.last().1);
    }
}

/// What frequency analysis guarantees of its table: well-formedness, total
/// count equal to the input length, symbols exactly those of the input,
/// and counts bounded by the input length.
pub proof fn lemma_spec_frequencies_props(data: Seq<u8>)
    ensures
        table_ok(spec_frequencies(data)),
        table_weight(spec_frequencies(data)) == data.len(),
        table_sym_set(spec_frequencies(data)) =~= data.to_set(),
        data.len() >= 1 ==> spec_frequencies(data).len() >= 1,
        forall|k: int|
            0 <= k < spec_frequencies(data).len() ==> (#[trigger] spec_frequencies(data)[k]).1
                <= data.len(),
    decreases data.len(),
{
    if data.len() == 0 {
        assert(data.to_set() =~= Set::<u8>::empty());
        assert(table_sym_set(spec_frequencies(data)) =~= Set::<u8>::empty());
    } else {
        let shorter = data.drop_last();
        let b = data.last();
        lemma_spec_frequencies_props(shorter);
        let t = spec_frequencies(shorter);
        let t2 = spec_frequencies(data);
        assert(t2 == freq_step(t, b));
        if has_sym(t, b) {
            lemma_first_index(t, b);
            let k = first_index(t, b);
            lemma_table_weight_update(t, k, (b, t[k].1 + 1));
            assert(forall|j: int| 0 <= j < t2.len() ==> (#[trigger] t2[j]).0 == t[j].0);
            assert(table_sym_set(t2) =~= table_sym_set(t)) by {
                assert forall|x: u8| table_sym_set(t2).contains(x) implies table_sym_set(
                    t,
                ).contains(x) by {
                    let j = choose|j: int| 0 <= j < t2.len() && (#[trigger] t2[j]).0 == x;
                    assert(t[j].0 == x);
                }
                assert forall|x: u8| table_sym_set(t).contains(x) implies table_sym_set(
                    t2,
                ).contains(x) by {
                    let j = choose|j: int| 0 <= j < t.len() && (#[trigger] t[j]).0 == x;
                    assert(t2[j].0 == x);
                }
            }
            assert(data.to_set() =~= shorter.to_set().insert(b)) by {
                assert forall|x: u8| data.to_set().contains(x) implies shorter.to_set().insert(
                    b,
                ).contains(x) by {
                    let j = choose|j: int| 0 <= j < data.len() && data[j] == x;
                    if j < data.len() - 1 {
                        assert(shorter[j] == x);
                        assert(shorter.contains(x));
                    }
                }
                assert forall|x: u8|
                    shorter.to_set().insert(b).contains(x) implies data.to_set().contains(x) by {
                    if x == b {
                        assert(data[data.len() - 1] == x);
                    } else {
                        let j = choose|j: int| 0 <= j < shorter.len() && shorter[j] == x;
                        assert(data[j] == x);
                    }
                }
            }
            assert(table_sym_set(t).contains(b));
            assert(shorter.to_set().contains(b));
            assert(shorter.to_set().insert(b) =~= shorter.to_set());
        } else {
            assert(t2 == seq![(b, 1int)] + t);
            lemma_table_weight_cons((b, 1int), t);
            assert(forall|j: int| 1 <= j < t2.len() ==> (#[trigger] t2[j]) == t[j - 1]);
            assert(t2[0] == (b, 1int));
            assert forall|k1: int, k2: int|
                0 <= k1 < t2.len() && 0 <= k2 < t2.len() && k1 != k2 implies (
            #[trigger] t2[k1]).0 != (#[trigger] t2[k2]).0 by {
                if k1 == 0 {
                    assert(!has_sym(t, b));
                    assert(t[k2 - 1].0 != b);
                } else if k2 == 0 {
                    assert(t[k1 - 1].0 != b);
                } else {
                    assert(t[k1 - 1].0 != t[k2 - 1].0);
                }
            }
            assert(table_sym_set(t2) =~= table_sym_set(t).insert(b)) by {
                assert forall|x: u8| table_sym_set(t2).contains(x) implies table_sym_set(t).insert(
                    b,
                ).contains(x) by {
                    let j = choose|j: int| 0 <= j < t2.len() && (#[trigger] t2[j]).0 == x;
                    if j > 0 {
                        assert(t[j - 1].0 == x);
                    }
                }
                assert forall|x: u8|
                    table_sym_set(t).insert(b).contains(x) implies table_sym_set(t2).contains(
                    x,
                ) by {
                    if x == b {
                        assert(t2[0].0 == x);
                    } else {
                        let j = choose|j: int| 0 <= j < t.len() && (#[trigger] t[j]).0 == x;
                        assert(t2[j + 1].0 == x);
                    }
                }
            }
            assert(data.to_set() =~= shorter.to_set().insert(b)) by {
                assert forall|x: u8| data.to_set().contains(x) implies shorter.to_set().insert(
                    b,
                ).contains(x) by {
                    let j = choose|j: int| 0 <= j < data.len() && data[j] == x;
                    if j < data.len() - 1 {
                        assert(shorter[j] == x);
                        assert(shorter.contains(x));
                    }
                }
                assert forall|x: u8|
                    shorter.to_set().insert(b).contains(x) implies data.to_set().contains(x) by {
                    if x == b {
                        assert(data[data.len() - 1] == x);
                    } else {
                        let j = choose|j: int| 0 <= j < shorter.len() && shorter[j] == x;
                        assert(data[j] == x);
                    }
                }
            }
        }
    }
}

impl FrequencyStruct {
    fn new(len: usize) -> (r: FrequencyStruct)
        ensures
            r.data@.len() == 0,
    {
        FrequencyStruct { data: Vec::with_capacity(len) }
    }

    /// Retrieves a node's index.
    ///
    /// This checks if an entry is already added for a data point and if so,
    /// returns the entry's index. Returns `None` if the entry doesn't exist.
    fn get_data_index(&self, b: &u8) -> (r: Option<usize>)
        ensures
            r matches Some(ix) ==> ix < self.data@.len() && table_view(self.data@)[ix as int].0
                == *b && (forall|k: int|
                0 <= k < ix ==> (#[trigger] table_view(self.data@)[k]).0 != *b),
            r is None ==> !has_sym(table_view(self.data@), *b),
    {
        let ghost t = table_view(self.data@);
        let mut i: usize = 0;
        while i < self.data.len()
            invariant
                i <= self.data@.len(),
                t == table_view(self.data@),
                forall|k: int| 0 <= k < i ==> (#[trigger] t[k]).0 != *b,
            decreases self.data@.len() - i,
        {
            if self.data[i].0 == *b {
                proof {
                    assert(t[i as int].0 == *b);
                }
                return Some(i);
            }
            i = i + 1;
        }
        proof {
            if has_sym(t, *b) {
                let k = choose|k: int| 0 <= k < t.len() && (#[trigger] t[k]).0 == *b;
                assert(t[k].0 != *b);
            }
        }
        None
    }

    /// Increments the weight of the entry at `i`.
    fn increase_data_weight(&mut self, i: usize)
        requires
            i < old(self).data@.len(),
            old(self).data@[i as int].1 < usize::MAX,
        ensures
            final(self).data@ =~= old(self).data@.update(
                i as int,
                Frequency(old(self).data@[i as int].0, (old(self).data@[i as int].1 + 1) as usize),
            ),
    {
        let sym = self.data[i].0;
        let cnt = self.data[i].1;
        self.data[i] = Frequency(sym, cnt + 1);
    }

    /// Creates a new entry at the front.
    fn insert_new_tree(&mut self, data: u8)
        ensures
            final(self).data@ =~= seq![Frequency(data, 1)] + old(self).data@,
    {
        self.data.insert(0, Frequency(data, 1));
    }
}

/// When index `i` holds `b` and nothing before it does, `i` is the first
/// index of `b`.
pub proof fn lemma_first_index_at(t: Seq<(u8, int)>, b: u8, i: int)
    requires
        0 <= i < t.len(),
        t[i].0 == b,
        forall|k: int| 0 <= k < i ==> (#[trigger] t[k]).0 != b,
    ensures
        has_sym(t, b),
        first_index(t, b) == i,
    decreases t.len(),
{
    assert(t[i].0 == b);
    if i > 0 {
        let rest = t.drop_first();
        assert(forall|k: int| 0 <= k < rest.len() ==> (#[trigger] rest[k]) == t[k + 1]);
        lemma_first_index_at(rest, b, i - 1);
    }
}

/// Builds the frequency table of the input, or `None` for an empty input,
/// on which encoding must not proceed.
pub fn frequency_counter(data: &Vec<u8>) -> (r: Option<FrequencyStruct>)
    ensures
        data@.len() == 0 <==> r is None,
        r matches Some(q) ==> table_view(q.data@) =~= spec_frequencies(data@),
{
    if data.is_empty() {
        return None;
    }
    let mut queue = FrequencyStruct::new(data.len());
    let mut i: usize = 0;
    proof {
        assert(table_view(queue.data@) =~= spec_frequencies(data@.take(0)));
    }
    while i < data.len()
        invariant
            i <= data@.len(),
            table_view(queue.data@) =~= spec_frequencies(data@.take(i as int)),
            forall|k: int|
                0 <= k < queue.data@.len() ==> (#[trigger] queue.data@[k]).1 <= i,
        decreases data@.len() - i,
    {
        let b = data[i];
        let ghost t = table_view(queue.data@);
        let ghost old_data = queue.data@;
        proof {
            lemma_spec_frequencies_props(data@.take(i as int));
            assert(data@.take(i as int + 1).drop_last() =~= data@.take(i as int));
            assert(data@.take(i as int + 1).last() == data@[i as int]);
        }
        match queue.get_data_index(&b) {
            Some(ix) => {
                proof {
                    lemma_first_index_at(t, b, ix as int);
                    assert(ix as int == first_index(t, b));
                    assert(t[ix as int].0 == b);
                    assert(old_data[ix as int].0 == b);
                }
                queue.increase_data_weight(ix);
                proof {
                    let t2 = table_view(queue.data@);
                    let fi = ix as int;
                    let target = t.update(fi, (b, t[fi].1 + 1));
                    assert forall|k: int| 0 <= k < t2.len() implies t2[k] == target[k] by {
                        if k == fi {
                            assert(queue.data@[k].0 == b);
                            assert(queue.data@[k].1 as int == t[fi].1 + 1);
                            assert(target[k] == (b, t[fi].1 + 1));
                        } else {
                            assert(queue.data@[k] == old_data[k]);
                            assert(t2[k] == t[k]);
                            assert(target[k] == t[k]);
                        }
                    }
                    assert(t2 =~= target);
                    assert(freq_step(t, b) == target);
                }
            },
            None => {
                queue.insert_new_tree(b);
                proof {
                    let t2 = table_view(queue.data@);
                    let target = seq![(b, 1int)] + t;
                    assert forall|k: int| 0 <= k < t2.len() implies t2[k] == target[k] by {
                        if k == 0 {
                            assert(queue.data@[0] == Frequency(b, 1));
                        } else {
                            assert(queue.data@[k] == old_data[k - 1]);
                            assert(target[k] == t[k - 1]);
                        }
                    }
                    assert(t2 =~= target);
                    assert(freq_step(t, b) == target);
                }
            },
        }
        i = i + 1;
    }
    proof {
        assert(data@.take(data@.len() as int) =~= data@);
    }
    Some(queue)
}

} // verus!
