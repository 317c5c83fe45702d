//! Frequency analysis for the encoder: the same histogram as the byte
//! analyzer, with each symbol carried as the character of its byte value.
//! New symbols go to the front of the table; the tree builder's tie-break
//! makes this ordering part of the wire contract.

use vstd::prelude::*;
use crate::queue::{spec_frequencies, has_sym, first_index, freq_step};

verus! {

/// One frequency entry: a symbol (as the character of a byte value) and
/// how often it occurs.
#[derive(Clone, Copy)]
pub struct Frequency(pub char, pub usize);

pub type Frequencies = Vec<Frequency>;

pub struct FrequencyStruct {
    pub data: Frequencies,
}

/// The mathematical view of a character frequency table.
pub open spec fn char_view(v: Seq<Frequency>) -> Seq<(char, int)> {
    Seq::new(v.len(), |k: int| (v[k].0, v[k].1 as int))
}

/// A byte table lifted to characters.
pub open spec fn chars_of(t: Seq<(u8, int)>) -> Seq<(char, int)> {
    Seq::new(t.len(), |k: int| (t[k].0 as char, t[k].1))
}

impl FrequencyStruct {
    fn new(len: &usize) -> (r: FrequencyStruct)
        ensures
            r.data@.len() == 0,
    {
        FrequencyStruct { data: Vec::with_capacity(*len) }
    }

    /// Retrieves a node's index.
    ///
    /// This checks if an entry is already added for a data point and if so,
    /// returns the entry's index. Returns `None` if the entry doesn't exist.
    fn get_data_index(&self, b: &char) -> (r: Option<usize>)
        ensures
            r matches Some(ix) ==> ix < self.data@.len() && char_view(self.data@)[ix as int].0
                == *b && (forall|k: int|
                0 <= k < ix ==> (#[trigger] char_view(self.data@)[k]).0 != *b),
            r is None ==> forall|k: int|
                0 <= k < self.data@.len() ==> (#[trigger] char_view(self.data@)[k]).0 != *b,
    {
        let ghost t = char_view(self.data@);
        let mut i: usize = 0;
        while i < self.data.len()
            invariant
                i <= self.data@.len(),
                t == char_view(self.data@),
                forall|k: int| 0 <= k < i ==> (#[trigger] t[k]).0 != *b,
            decreases self.data@.len() - i,
        {
            if self.data[i].0 == *b {
                proof {
                    assert(t[i as int].0 == *b);
                }
                return Some(i);
            }
            i = i + 1;
        }
        None
    }

    /// Increments the weight of the entry at `i`.
    fn increase_data_weight(&mut self, i: usize)
        requires
            i < old(self).data@.len(),
            old(self).data@[i as int].1 < usize::MAX,
        ensures
            final(self).data@ =~= old(self).data@.update(
                i as int,
                Frequency(old(self).data@[i as int].0, (old(self).data@[i as int].1 + 1) as usize),
            ),
    {
        let sym = self.data[i].0;
        let cnt = self.data[i].1;
        self.data[i] = Frequency(sym, cnt + 1);
    }

    /// Creates a new entry at the front.
    fn insert_new_tree(&mut self, data: char)
        ensures
            final(self).data@ =~= seq![Frequency(data, 1)] + old(self).data@,
    {
        self.data.insert(0, Frequency(data, 1));
    }
}

/// Builds the frequency table of the input, with symbols carried as
/// characters, or `None` for an empty input.
pub fn frequency_counter(data: &Vec<u8>) -> (r: Option<FrequencyStruct>)
    ensures
        data@.len() == 0 <==> r is None,
        r matches Some(q) ==> char_view(q.data@) =~= chars_of(spec_frequencies(data@)),
{
    if data.is_empty() {
        return None;
    }
    let len = data.len();
    let mut queue = FrequencyStruct::new(&len);
    let mut i: usize = 0;
    proof {
        assert(char_view(queue.data@) =~= chars_of(spec_frequencies(data@.take(0))));
    }
    while i < data.len()
        invariant
            i <= data@.len(),
            char_view(queue.data@) =~= chars_of(spec_frequencies(data@.take(i as int))),
            forall|k: int| 0 <= k < queue.data@.len() ==> (#[trigger] queue.data@[k]).1 <= i,
        decreases data@.len() - i,
    {
        let b = data[i];
        let c = b as char;
        let ghost tu = spec_frequencies(data@.take(i as int));
        let ghost tc = char_view(queue.data@);
        let ghost old_data = queue.data@;
        proof {
            crate::queue::lemma_spec_frequencies_props(data@.take(i as int));
            assert(data@.take(i as int + 1).drop_last() =~= data@.take(i as int));
            assert(data@.take(i as int + 1).last() == data@[i as int]);
            assert forall|k: int| 0 <= k < tu.len() implies ((#[trigger] tc[k]).0 == c) == (
            tu[k].0 == b) by {
                assert(tc[k].0 == tu[k].0 as char);
            }
        }
        match queue.get_data_index(&c) {
            Some(ix) => {
                proof {
                    assert(tc.len() == tu.len());
                    assert(ix < tu.len());
                    assert(tc[ix as int] == chars_of(tu)[ix as int]);
                    assert(tc[ix as int].0 == tu[ix as int].0 as char);
                    assert(tu[ix as int].0 == b);
                    assert forall|k: int| 0 <= k < ix implies (#[trigger] tu[k]).0 != b by {
                        assert(tc[k].0 != c);
                        assert(tc[k].0 == tu[k].0 as char);
                    }
                    crate::queue::lemma_first_index_at(tu, b, ix as int);
                }
                queue.increase_data_weight(ix);
                proof {
                    let fi = ix as int;
                    let target_u = tu.update(fi, (b, tu[fi].1 + 1));
                    let t2 = char_view(queue.data@);
                    assert forall|k: int| 0 <= k < t2.len() implies t2[k] == chars_of(
                        target_u,
                    )[k] by {
                        if k == fi {
                            assert(queue.data@[k].0 == c);
                            assert(queue.data@[k].1 as int == tu[fi].1 + 1);
                            assert(target_u[k] == (b, tu[fi].1 + 1));
                        } else {
                            assert(queue.data@[k] == old_data[k]);
                            assert(t2[k] == tc[k]);
                            assert(target_u[k] == tu[k]);
                        }
                    }
                    assert(t2 =~= chars_of(target_u));
                    assert(freq_step(tu, b) == target_u);
                }
            },
            None => {
                proof {
                    if has_sym(tu, b) {
                        let k = choose|k: int| 0 <= k < tu.len() && (#[trigger] tu[k]).0 == b;
                        assert(tc[k].0 == c);
                    }
                }
                queue.insert_new_tree(c);
                proof {
                    let target_u = seq![(b, 1int)] + tu;
                    let t2 = char_view(queue.data@);
                    assert(tc.len() == tu.len());
                    assert(queue.data@.len() == old_data.len() + 1);
                    assert forall|k: int| 0 <= k < t2.len() implies t2[k] == chars_of(
                        target_u,
                    )[k] by {
                        if k == 0 {
                            assert(queue.data@[0] == Frequency(c, 1));
                            assert(target_u[0] == (b, 1int));
                        } else {
                            assert(0 <= k - 1 < tu.len());
                            assert(queue.data@[k] == old_data[k - 1]);
                            assert(target_u[k] == tu[k - 1]);
                            assert(t2[k] == tc[k - 1]);
                            assert(tc[k - 1] == chars_of(tu)[k - 1]);
                        }
                    }
                    assert(t2 =~= chars_of(target_u));
                    assert(freq_step(tu, b) == target_u);
                }
            },
        }
        i = i + 1;
    }
    proof {
        assert(data@.take(data@.len() as int) =~= data@);
    }
    Some(queue)
}

} // verus!
