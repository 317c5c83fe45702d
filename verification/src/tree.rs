//! The mathematical model of a prefix-code tree: the codes it assigns, the
//! bit walk that decodes a packed stream, and the deterministic min-weight
//! merge that builds the tree from a frequency table. The lemmas here carry
//! the prefix-free property and the fact that decoding the concatenated
//! codes of an input recovers the input.

use vstd::prelude::*;

verus! {

/// A binary prefix-code tree: a leaf carries one symbol; a fork owns
/// exactly two children.
pub enum Tree {
    Leaf(u8),
    Fork(Box<Tree>, Box<Tree>),
}

impl Tree {
    /// The number of nodes.
    pub open spec fn size(self) -> nat
        decreases self,
    {
        match self {
            Tree::Leaf(_) => 1,
            Tree::Fork(l, r) => 1 + (*l).size() + (*r).size(),
        }
    }

    /// The set of symbols on the tree's leaves.
    pub open spec fn syms(self) -> Set<u8>
        decreases self,
    {
        match self {
            Tree::Leaf(s) => set![s],
            Tree::Fork(l, r) => (*l).syms().union((*r).syms()),
        }
    }

    /// No symbol sits on two different leaves.
    pub open spec fn distinct(self) -> bool
        decreases self,
    {
        match self {
            Tree::Leaf(_) => true,
            Tree::Fork(l, r) => (*l).distinct() && (*r).distinct() && (*l).syms().disjoint(
                (*r).syms(),
            ),
        }
    }

    /// The path of edge labels from this node down to the leaf carrying
    /// `s`: false when descending left, true when descending right.
    pub open spec fn code_in(self, s: u8) -> Seq<bool>
        decreases self,
    {
        match self {
            Tree::Leaf(_) => Seq::empty(),
            Tree::Fork(l, r) => if (*l).syms().contains(s) {
                seq![false] + (*l).code_in(s)
            } else {
                seq![true] + (*r).code_in(s)
            },
        }
    }

    /// The code the table assigns to `s`. A lone leaf has no edges, so its
    /// symbol gets the one-bit code `0` instead of the empty path.
    pub open spec fn table_code(self, s: u8) -> Seq<bool> {
        if self is Leaf {
            seq![false]
        } else {
            self.code_in(s)
        }
    }
}

/// Every tree carries at least one symbol.
pub proof fn lemma_syms_nonempty(t: Tree)
    ensures
        exists|s: u8| t.syms().contains(s),
    decreases t,
{
    match t {
        Tree::Leaf(s) => {
            assert(t.syms().contains(s));
        },
        Tree::Fork(l, r) => {
            lemma_syms_nonempty(*l);
            let s = choose|s: u8| (*l).syms().contains(s);
            assert(t.syms().contains(s));
        },
    }
}

/// In a distinct fork, each child's symbol set is a strict subset of the
/// fork's.
pub proof fn lemma_child_syms_strict(l: Tree, r: Tree)
    requires
        l.syms().disjoint(r.syms()),
    ensures
        Tree::Fork(Box::new(l), Box::new(r)).syms() != l.syms(),
        Tree::Fork(Box::new(l), Box::new(r)).syms() != r.syms(),
        l.syms() != r.syms(),
{
    let f = Tree::Fork(Box::new(l), Box::new(r));
    lemma_syms_nonempty(l);
    lemma_syms_nonempty(r);
    let sl = choose|s: u8| l.syms().contains(s);
    let sr = choose|s: u8| r.syms().contains(s);
    assert(f.syms().contains(sr) && !l.syms().contains(sr));
    assert(f.syms().contains(sl) && !r.syms().contains(sl));
    assert(!l.syms().contains(sr));
}

/// No code in a distinct tree is a prefix of the code of another symbol.
pub proof fn lemma_prefix_free(t: Tree, s1: u8, s2: u8)
    requires
        t.distinct(),
        t.syms().contains(s1),
        t.syms().contains(s2),
        s1 != s2,
    ensures
        !t.code_in(s1).is_prefix_of(t.code_in(s2)),
    decreases t,
{
    match t {
        Tree::Leaf(x) => {
            assert(s1 == x && s2 == x);
        },
        Tree::Fork(l, r) => {
            let c1 = t.code_in(s1);
            let c2 = t.code_in(s2);
            if (*l).syms().contains(s1) && (*l).syms().contains(s2) {
                lemma_prefix_free(*l, s1, s2);
                let d1 = (*l).code_in(s1);
                let d2 = (*l).code_in(s2);
                if c1.is_prefix_of(c2) {
                    assert(d1.len() <= d2.len());
                    assert forall|k: int| 0 <= k < d1.len() implies d1[k] == d2[k] by {
                        assert(c1[k + 1] == d1[k]);
                        assert(c2.subrange(0, c1.len() as int)[k + 1] == c2[k + 1]);
                    }
                    assert(d1 =~= d2.subrange(0, d1.len() as int));
                    assert(d1.is_prefix_of(d2));
                }
            } else if (*r).syms().contains(s1) && (*r).syms().contains(s2) {
                lemma_prefix_free(*r, s1, s2);
                let d1 = (*r).code_in(s1);
                let d2 = (*r).code_in(s2);
                if c1.is_prefix_of(c2) {
                    assert(d1.len() <= d2.len());
                    assert forall|k: int| 0 <= k < d1.len() implies d1[k] == d2[k] by {
                        assert(c1[k + 1] == d1[k]);
                        assert(c2.subrange(0, c1.len() as int)[k + 1] == c2[k + 1]);
                    }
                    assert(d1 =~= d2.subrange(0, d1.len() as int));
                    assert(d1.is_prefix_of(d2));
                }
            } else {
                if c1.is_prefix_of(c2) {
                    assert(c1.len() >= 1 && c2.len() >= 1);
                    assert(c2.subrange(0, c1.len() as int)[0] == c2[0]);
                    assert(c1[0] != c2[0]);
                }
            }
        },
    }
}

/// The bit walk that decodes a packed stream: step left on false, right on
/// true; on reaching a leaf emit its symbol and restart at the root; the
/// walk must end exactly at the root, else it fails.
pub open spec fn walk_bits(root: Tree, cur: Tree, bits: Seq<bool>) -> Option<Seq<u8>>
    decreases bits.len(),
{
    if bits.len() == 0 {
        if cur == root {
            Some(Seq::empty())
        } else {
            None
        }
    } else {
        match cur {
            Tree::Leaf(_) => None,
            Tree::Fork(l, r) => {
                let next = if bits[0] {
                    *r
                } else {
                    *l
                };
                match next {
                    Tree::Leaf(s) => match walk_bits(root, root, bits.drop_first()) {
                        Some(tail) => Some(seq![s] + tail),
                        None => None,
                    },
                    Tree::Fork(_, _) => walk_bits(root, next, bits.drop_first()),
                }
            },
        }
    }
}

/// The concatenation of the table codes of the input symbols.
pub open spec fn coded_bits(t: Tree, input: Seq<u8>) -> Seq<bool>
    decreases input.len(),
{
    if input.len() == 0 {
        Seq::empty()
    } else {
        t.table_code(input[0]) + coded_bits(t, input.drop_first())
    }
}

/// Walking the code of `s` from a fork `t` inside `root` emits `s` and
/// continues with the rest of the stream from the root.
proof fn lemma_walk_code(root: Tree, t: Tree, s: u8, rest: Seq<bool>)
    requires
        t is Fork,
        t.distinct(),
        t.syms().contains(s),
    ensures
        walk_bits(root, t, t.code_in(s) + rest) == match walk_bits(root, root, rest) {
            Some(tail) => Some(seq![s] + tail),
            None => None::<Seq<u8>>,
        },
    decreases t,
{
    match t {
        Tree::Fork(l, r) => {
            let bits = t.code_in(s) + rest;
            if (*l).syms().contains(s) {
                assert(t.code_in(s) == seq![false] + (*l).code_in(s));
                assert(bits[0] == false);
                assert(bits.drop_first() =~= (*l).code_in(s) + rest);
                match *l {
                    Tree::Leaf(x) => {
                        assert(x == s);
                        assert((*l).code_in(s) =~= Seq::<bool>::empty());
                        assert(bits.drop_first() =~= rest);
                    },
                    Tree::Fork(_, _) => {
                        lemma_walk_code(root, *l, s, rest);
                    },
                }
            } else {
                assert((*r).syms().contains(s));
                assert(t.code_in(s) == seq![true] + (*r).code_in(s));
                assert(bits[0] == true);
                assert(bits.drop_first() =~= (*r).code_in(s) + rest);
                match *r {
                    Tree::Leaf(x) => {
                        assert(x == s);
                        assert((*r).code_in(s) =~= Seq::<bool>::empty());
                        assert(bits.drop_first() =~= rest);
                    },
                    Tree::Fork(_, _) => {
                        lemma_walk_code(root, *r, s, rest);
                    },
                }
            }
        },
        _ => {},
    }
}

/// Decoding the concatenated codes of an input recovers the input.
pub proof fn lemma_walk_coded(root: Tree, input: Seq<u8>)
    requires
        root is Fork,
        root.distinct(),
        forall|i: int| 0 <= i < input.len() ==> root.syms().contains(#[trigger] input[i]),
    ensures
        walk_bits(root, root, coded_bits(root, input)) == Some(input),
    decreases input.len(),
{
    if input.len() == 0 {
        assert(coded_bits(root, input) == Seq::<bool>::empty());
        assert(walk_bits(root, root, coded_bits(root, input)) == Some(Seq::<u8>::empty()));
        assert(Seq::<u8>::empty() =~= input);
    } else {
        let s = input[0];
        let tail_in = input.drop_first();
        assert(forall|i: int|
            0 <= i < tail_in.len() ==> root.syms().contains(#[trigger] tail_in[i]));
        lemma_walk_coded(root, tail_in);
        assert(root.table_code(s) == root.code_in(s));
        lemma_walk_code(root, root, s, coded_bits(root, tail_in));
        assert(coded_bits(root, input) == root.code_in(s) + coded_bits(root, tail_in));
        assert(seq![s] + tail_in =~= input);
    }
}

/// The index of the first entry of least weight in a work list.
pub open spec fn min_idx(s: Seq<(Tree, int)>) -> int
    decreases s.len(),
{
    if s.len() <= 1 {
        0
    } else {
        let m = 1 + min_idx(s.drop_first());
        if s[0].1 <= s[m].1 {
            0
        } else {
            m
        }
    }
}

pub proof fn lemma_min_idx(s: Seq<(Tree, int)>)
    requires
        s.len() >= 1,
    ensures
        0 <= min_idx(s) < s.len(),
        forall|k: int| 0 <= k < s.len() ==> s[min_idx(s)].1 <= (#[trigger] s[k]).1,
        forall|k: int| 0 <= k < min_idx(s) ==> (#[trigger] s[k]).1 > s[min_idx(s)].1,
    decreases s.len(),
{
    if s.len() > 1 {
        lemma_min_idx(s.drop_first());
        let m = 1 + min_idx(s.drop_first());
        assert(forall|k: int| 1 <= k < s.len() ==> (#[trigger] s[k]) == s.drop_first()[k - 1]);
    }
}

/// The first-least index is characterized by being least and first.
pub proof fn lemma_min_idx_char(s: Seq<(Tree, int)>, i: int)
    requires
        0 <= i < s.len(),
        forall|k: int| 0 <= k < s.len() ==> s[i].1 <= (#[trigger] s[k]).1,
        forall|k: int| 0 <= k < i ==> (#[trigger] s[k]).1 > s[i].1,
    ensures
        min_idx(s) == i,
    decreases s.len(),
{
    if s.len() <= 1 {
        assert(i == 0);
    } else {
        let rest = s.drop_first();
        assert(forall|k: int| 0 <= k < rest.len() ==> (#[trigger] rest[k]) == s[k + 1]);
        let m = 1 + min_idx(rest);
        if i == 0 {
            lemma_min_idx(rest);
            assert(s[0].1 <= s[m].1);
        } else {
            lemma_min_idx_char(rest, i - 1);
            assert(m == i);
            assert(s[0].1 > s[i].1);
        }
    }
}

/// One merge step: take out the two least entries (ties broken by the
/// lower index, the first extracted becoming the left child) and put back
/// a fork carrying their combined weight.
pub open spec fn spec_merge(s: Seq<(Tree, int)>) -> Seq<(Tree, int)> {
    let i = min_idx(s);
    let a = s[i];
    let s1 = s.remove(i);
    let j = min_idx(s1);
    let b = s1[j];
    let s2 = s1.remove(j);
    s2.push((Tree::Fork(Box::new(a.0), Box::new(b.0)), a.1 + b.1))
}

/// Merging until one tree remains.
pub open spec fn spec_build_list(s: Seq<(Tree, int)>) -> Tree
    decreases s.len(),
    via spec_build_list_dec
{
    if s.len() <= 1 {
        if s.len() == 1 {
            s[0].0
        } else {
            Tree::Leaf(0)
        }
    } else {
        spec_build_list(spec_merge(s))
    }
}

#[via_fn]
proof fn spec_build_list_dec(s: Seq<(Tree, int)>) {
    if s.len() > 1 {
        lemma_min_idx(s);
        lemma_min_idx(s.remove(min_idx(s)));
    }
}

/// One leaf per table entry, in table order.
pub open spec fn leaf_list(table: Seq<(u8, int)>) -> Seq<(Tree, int)> {
    Seq::new(table.len(), |i: int| (Tree::Leaf(table[i].0), table[i].1))
}

/// The tree the builder derives from a frequency table.
pub open spec fn spec_build(table: Seq<(u8, int)>) -> Tree {
    spec_build_list(leaf_list(table))
}

/// The symbols of a frequency table.
pub open spec fn table_sym_set(table: Seq<(u8, int)>) -> Set<u8> {
    Set::new(|b: u8| exists|k: int| 0 <= k < table.len() && (#[trigger] table[k]).0 == b)
}

/// A work list is well formed when every tree is distinct and no symbol
/// appears in two entries.
pub open spec fn list_wf(s: Seq<(Tree, int)>) -> bool {
    &&& forall|i: int| 0 <= i < s.len() ==> (#[trigger] s[i]).0.distinct()
    &&& forall|i: int, j: int|
        0 <= i < s.len() && 0 <= j < s.len() && i != j ==> (#[trigger] s[i]).0.syms().disjoint(
            (#[trigger] s[j]).0.syms(),
        )
}

/// The union of the symbols of all entries.
pub open spec fn list_syms(s: Seq<(Tree, int)>) -> Set<u8>
    decreases s.len(),
{
    if s.len() == 0 {
        Set::empty()
    } else {
        list_syms(s.drop_last()).union(s.last().0.syms())
    }
}

/// The total weight of all entries.
pub open spec fn weights_sum(s: Seq<(Tree, int)>) -> int
    decreases s.len(),
{
    if s.len() == 0 {
        0
    } else {
        weights_sum(s.drop_last()) + s.last().1
    }
}

pub proof fn lemma_weights_sum_remove(s: Seq<(Tree, int)>, i: int)
    requires
        0 <= i < s.len(),
    ensures
        weights_sum(s.remove(i)) == weights_sum(s) - s[i].1,
    decreases s.len(),
{
    if i == s.len() - 1 {
        assert(s.remove(i) =~= s.drop_last());
    } else {
        assert(s.remove(i).drop_last() =~= s.drop_last().remove(i));
        assert(s.remove(i).last() == s.last());
        lemma_weights_sum_remove(s.drop_last(), i);
        assert(s.drop_last()[i] == s[i]);
    }
}

pub proof fn lemma_weights_sum_push(s: Seq<(Tree, int)>, x: (Tree, int))
    ensures
        weights_sum(s.push(x)) == weights_sum(s) + x.1,
{
    assert(s.push(x).drop_last() =~= s);
    assert(s.push(x).last() == x);
}

pub proof fn lemma_weights_sum_bounds(s: Seq<(Tree, int)>, lo: int)
    requires
        forall|k: int| 0 <= k < s.len() ==> (#[trigger] s[k]).1 >= lo,
        lo >= 0,
    ensures
        weights_sum(s) >= s.len() * lo,
        weights_sum(s) >= 0,
    decreases s.len(),
{
    if s.len() == 0 {
    } else {
        let d = s.drop_last();
        assert(forall|k: int| 0 <= k < d.len() ==> (#[trigger] d[k]) == s[k]);
        lemma_weights_sum_bounds(d, lo);
        assert(weights_sum(s) == weights_sum(d) + s.last().1);
        assert(d.len() * lo + lo == s.len() * lo) by (nonlinear_arith)
            requires
                d.len() == s.len() - 1,
        ;
    }
}

pub proof fn lemma_list_syms_remove(s: Seq<(Tree, int)>, i: int)
    requires
        0 <= i < s.len(),
    ensures
        list_syms(s) =~= list_syms(s.remove(i)).union(s[i].0.syms()),
    decreases s.len(),
{
    if i == s.len() - 1 {
        assert(s.remove(i) =~= s.drop_last());
    } else {
        assert(s.remove(i).drop_last() =~= s.drop_last().remove(i));
        assert(s.remove(i).last() == s.last());
        lemma_list_syms_remove(s.drop_last(), i);
        assert(s.drop_last()[i] == s[i]);
    }
}

pub proof fn lemma_list_syms_push(s: Seq<(Tree, int)>, x: (Tree, int))
    ensures
        list_syms(s.push(x)) =~= list_syms(s).union(x.0.syms()),
{
    assert(s.push(x).drop_last() =~= s);
    assert(s.push(x).last() == x);
}

/// Removing an entry keeps a work list well formed; each survivor is one
/// of the original entries.
pub proof fn lemma_remove_index_map(s: Seq<(Tree, int)>, i: int)
    requires
        0 <= i < s.len(),
    ensures
        forall|k: int|
            0 <= k < s.len() - 1 ==> (#[trigger] s.remove(i)[k]) == (if k < i {
                s[k]
            } else {
                s[k + 1]
            }),
{
}

/// One merge step preserves well-formedness, the symbol set, and the total
/// weight of a work list.
pub proof fn lemma_merge_props(s: Seq<(Tree, int)>)
    requires
        s.len() >= 2,
        list_wf(s),
    ensures
        spec_merge(s).len() == s.len() - 1,
        list_wf(spec_merge(s)),
        list_syms(spec_merge(s)) =~= list_syms(s),
        weights_sum(spec_merge(s)) == weights_sum(s),
        forall|k: int|
            0 <= k < spec_merge(s).len() ==> exists|k1: int, k2: int|
                0 <= k1 < s.len() && 0 <= k2 < s.len() && ((#[trigger] spec_merge(s)[k]).1
                    == s[k1].1 || spec_merge(s)[k].1 == s[k1].1 + s[k2].1),
{
    lemma_min_idx(s);
    let i = min_idx(s);
    let a = s[i];
    let s1 = s.remove(i);
    lemma_remove_index_map(s, i);
    lemma_min_idx(s1);
    let j = min_idx(s1);
    let b = s1[j];
    let s2 = s1.remove(j);
    lemma_remove_index_map(s1, j);
    let merged = (Tree::Fork(Box::new(a.0), Box::new(b.0)), a.1 + b.1);
    let out = s2.push(merged);
    assert(out == spec_merge(s));
    // well-formedness: survivors come from distinct original indices
    assert forall|k: int| 0 <= k < s1.len() implies (#[trigger] s1[k]).0.distinct() && exists|
        o: int,
    | 0 <= o < s.len() && o != i && s[o] == s1[k] by {
        if k < i {
            assert(s[k] == s1[k] && k != i);
        } else {
            assert(s[k + 1] == s1[k] && k + 1 != i);
        }
    }
    assert forall|k: int, k2: int|
        0 <= k < s1.len() && 0 <= k2 < s1.len() && k != k2 implies (#[trigger] s1[k]).0.syms().disjoint(
        (#[trigger] s1[k2]).0.syms(),
    ) by {
        let o1 = if k < i {
            k
        } else {
            k + 1
        };
        let o2 = if k2 < i {
            k2
        } else {
            k2 + 1
        };
        assert(s[o1] == s1[k] && s[o2] == s1[k2] && o1 != o2);
    }
    // the extracted pair is disjoint
    let jo = if j < i {
        j
    } else {
        j + 1
    };
    assert(s1[j] == s[jo] && jo != i);
    assert(a.0.syms().disjoint(b.0.syms()));
    assert(merged.0.distinct());
    assert(merged.0.syms() =~= a.0.syms().union(b.0.syms()));
    // survivors of the second removal
    assert forall|k: int| 0 <= k < s2.len() implies (#[trigger] s2[k]).0.distinct() && exists|
        o: int,
    | 0 <= o < s.len() && o != i && o != jo && s[o] == s2[k] by {
        let m1 = if k < j {
            k
        } else {
            k + 1
        };
        assert(s1[m1] == s2[k] && m1 != j);
        let o = if m1 < i {
            m1
        } else {
            m1 + 1
        };
        assert(s[o] == s1[m1] && o != i && o != jo);
    }
    assert forall|k: int, k2: int|
        0 <= k < out.len() && 0 <= k2 < out.len() && k != k2 implies (#[trigger] out[k]).0.syms().disjoint(
        (#[trigger] out[k2]).0.syms(),
    ) by {
        if k < s2.len() && k2 < s2.len() {
            let o1 = choose|o: int| 0 <= o < s.len() && o != i && o != jo && s[o] == s2[k];
            let o2 = choose|o: int| 0 <= o < s.len() && o != i && o != jo && s[o] == s2[k2];
            let m1k = if k < j {
                k
            } else {
                k + 1
            };
            let m1k2 = if k2 < j {
                k2
            } else {
                k2 + 1
            };
            assert(s1[m1k] == s2[k] && s1[m1k2] == s2[k2] && m1k != m1k2);
            let p1 = if m1k < i {
                m1k
            } else {
                m1k + 1
            };
            let p2 = if m1k2 < i {
                m1k2
            } else {
                m1k2 + 1
            };
            assert(s[p1] == s2[k] && s[p2] == s2[k2] && p1 != p2);
        } else if k < s2.len() {
            // k2 is the merged entry
            let m1k = if k < j {
                k
            } else {
                k + 1
            };
            assert(s1[m1k] == s2[k] && m1k != j);
            let p1 = if m1k < i {
                m1k
            } else {
                m1k + 1
            };
            assert(s[p1] == s2[k] && p1 != i && p1 != jo);
            assert(s[p1].0.syms().disjoint(a.0.syms()));
            assert(s[p1].0.syms().disjoint(b.0.syms()));
            assert(out[k2] == merged);
        } else {
            let m1k2 = if k2 < j {
                k2
            } else {
                k2 + 1
            };
            assert(s1[m1k2] == s2[k2] && m1k2 != j);
            let p2 = if m1k2 < i {
                m1k2
            } else {
                m1k2 + 1
            };
            assert(s[p2] == s2[k2] && p2 != i && p2 != jo);
            assert(s[p2].0.syms().disjoint(a.0.syms()));
            assert(s[p2].0.syms().disjoint(b.0.syms()));
            assert(out[k] == merged);
        }
    }
    assert forall|k: int| 0 <= k < out.len() implies (#[trigger] out[k]).0.distinct() by {
        if k < s2.len() {
        } else {
            assert(out[k] == merged);
        }
    }
    // symbol set
    lemma_list_syms_remove(s, i);
    lemma_list_syms_remove(s1, j);
    lemma_list_syms_push(s2, merged);
    // weights
    lemma_weights_sum_remove(s, i);
    lemma_weights_sum_remove(s1, j);
    lemma_weights_sum_push(s2, merged);
    // weight provenance of every output entry
    assert forall|k: int| 0 <= k < out.len() implies exists|k1: int, k2: int|
        0 <= k1 < s.len() && 0 <= k2 < s.len() && ((#[trigger] out[k]).1 == s[k1].1 || out[k].1
            == s[k1].1 + s[k2].1) by {
        if k < s2.len() {
            let o = choose|o: int| 0 <= o < s.len() && o != i && o != jo && s[o] == s2[k];
            assert(out[k].1 == s[o].1 || out[k].1 == s[o].1 + s[o].1);
        } else {
            assert(out[k] == merged);
            assert(out[k].1 == s[i].1 + s[jo].1);
        }
    }
}

/// Building from a well-formed work list yields a distinct tree carrying
/// exactly the list's symbols.
pub proof fn lemma_build_list_props(s: Seq<(Tree, int)>)
    requires
        s.len() >= 1,
        list_wf(s),
    ensures
        spec_build_list(s).distinct(),
        spec_build_list(s).syms() =~= list_syms(s),
        s.len() >= 2 ==> spec_build_list(s) is Fork,
    decreases s.len(),
{
    if s.len() == 1 {
        assert(s.drop_last().len() == 0);
        assert(list_syms(s.drop_last()) =~= Set::<u8>::empty());
        assert(s.last() == s[0]);
        assert(list_syms(s) =~= s[0].0.syms());
    } else {
        lemma_merge_props(s);
        lemma_build_list_props(spec_merge(s));
        if s.len() == 2 {
            let m = spec_merge(s);
            assert(m.len() == 1);
            assert(m[0] == m.last());
            assert(m[0].0 is Fork);
        }
    }
}

/// A table with pairwise different symbols gives a well-formed leaf list.
pub proof fn lemma_leaf_list_props(table: Seq<(u8, int)>)
    requires
        forall|k1: int, k2: int|
            0 <= k1 < table.len() && 0 <= k2 < table.len() && k1 != k2 ==> (#[trigger] table[k1]).0
                != (#[trigger] table[k2]).0,
    ensures
        list_wf(leaf_list(table)),
        list_syms(leaf_list(table)) =~= table_sym_set(table),
        weights_sum(leaf_list(table)) == table_weight(table),
    decreases table.len(),
{
    let s = leaf_list(table);
    assert forall|i: int, j: int|
        0 <= i < s.len() && 0 <= j < s.len() && i != j implies (#[trigger] s[i]).0.syms().disjoint(
        (#[trigger] s[j]).0.syms(),
    ) by {
        assert(s[i].0.syms() =~= set![table[i].0]);
        assert(s[j].0.syms() =~= set![table[j].0]);
    }
    if table.len() == 0 {
        assert(list_syms(s) =~= Set::<u8>::empty());
        assert(table_sym_set(table) =~= Set::<u8>::empty());
    } else {
        let tshort = table.drop_last();
        assert(forall|k: int| 0 <= k < tshort.len() ==> (#[trigger] tshort[k]) == table[k]);
        lemma_leaf_list_props(tshort);
        assert(s.drop_last() =~= leaf_list(tshort));
        assert(s.last().0.syms() =~= set![table.last().0]);
        assert(list_syms(s) =~= list_syms(leaf_list(tshort)).union(set![table.last().0]));
        assert forall|b: u8| table_sym_set(table).contains(b) implies list_syms(s).contains(b) by {
            let k = choose|k: int| 0 <= k < table.len() && (#[trigger] table[k]).0 == b;
            if k < table.len() - 1 {
                assert(0 <= k < tshort.len() && tshort[k].0 == b);
                assert(table_sym_set(tshort).contains(b));
            } else {
                assert(table.last().0 == b);
            }
        }
        assert forall|b: u8| list_syms(s).contains(b) implies table_sym_set(table).contains(b) by {
            if table_sym_set(tshort).contains(b) {
                let k = choose|k: int| 0 <= k < tshort.len() && (#[trigger] tshort[k]).0 == b;
                assert(table[k].0 == b);
            } else {
                assert(table.last().0 == b && table[table.len() - 1].0 == b);
            }
        }
    }
}

/// The total count of a frequency table.
pub open spec fn table_weight(table: Seq<(u8, int)>) -> int
    decreases table.len(),
{
    if table.len() == 0 {
        0
    } else {
        table_weight(table.drop_last()) + table.last().1
    }
}

/// No code in the generated code table is a prefix of another symbol's
/// code: for any two different symbols of a frequency table, the codes the
/// built tree assigns are prefix-free.
pub proof fn lemma_table_codes_prefix_free(table: Seq<(u8, int)>, s1: u8, s2: u8)
    requires
        table.len() >= 1,
        forall|k1: int, k2: int|
            0 <= k1 < table.len() && 0 <= k2 < table.len() && k1 != k2 ==> (#[trigger] table[k1]).0
                != (#[trigger] table[k2]).0,
        table_sym_set(table).contains(s1),
        table_sym_set(table).contains(s2),
        s1 != s2,
    ensures
        !spec_build(table).table_code(s1).is_prefix_of(spec_build(table).table_code(s2)),
{
    lemma_build_props(table);
    let t = spec_build(table);
    match t {
        Tree::Leaf(x) => {
            assert(t.syms().contains(s1) && t.syms().contains(s2));
            assert(s1 == x && s2 == x);
        },
        Tree::Fork(_, _) => {
            lemma_prefix_free(t, s1, s2);
        },
    }
}

/// The cost of a code assignment for a frequency table: each symbol's
/// count times the length of its code.
pub open spec fn assignment_cost(table: Seq<(u8, int)>, f: spec_fn(u8) -> Seq<bool>) -> int
    decreases table.len(),
{
    if table.len() == 0 {
        0
    } else {
        assignment_cost(table.drop_last(), f) + table.last().1 * f(table.last().0).len()
    }
}

/// The assignment is prefix-free over the table's symbols: no symbol's
/// code is a prefix of a different symbol's code.
pub open spec fn prefix_free_on(table: Seq<(u8, int)>, f: spec_fn(u8) -> Seq<bool>) -> bool {
    forall|k1: int, k2: int|
        0 <= k1 < table.len() && 0 <= k2 < table.len() && (#[trigger] table[k1]).0 != (
        #[trigger] table[k2]).0 ==> !f(table[k1].0).is_prefix_of(f(table[k2].0))
}

/// A distinct tree whose symbol set is a singleton is a lone leaf.
proof fn lemma_singleton_is_leaf(t: Tree, s: u8)
    requires
        t.distinct(),
        t.syms() =~= set![s],
    ensures
        t == Tree::Leaf(s),
{
    match t {
        Tree::Leaf(x) => {
            assert(t.syms().contains(x));
        },
        Tree::Fork(l, r) => {
            lemma_syms_nonempty(*l);
            lemma_syms_nonempty(*r);
            let sl = choose|q: u8| (*l).syms().contains(q);
            let sr = choose|q: u8| (*r).syms().contains(q);
            assert(t.syms().contains(sl) && t.syms().contains(sr));
            assert(sl == s && sr == s);
            assert(!(*l).syms().contains(sr));
        },
    }
}

/// For a table of two symbols, the built tree's code table has minimal
/// cost among all prefix-free code assignments: with two symbols every
/// assignment needs at least one bit per symbol, and the built tree
/// spends exactly one.
pub proof fn lemma_two_symbol_optimal(table: Seq<(u8, int)>, f: spec_fn(u8) -> Seq<bool>)
    requires
        table.len() == 2,
        table[0].0 != table[1].0,
        table[0].1 >= 1,
        table[1].1 >= 1,
        prefix_free_on(table, f),
    ensures
        assignment_cost(table, |s: u8| spec_build(table).table_code(s)) <= assignment_cost(
            table,
            f,
        ),
{
    let a = table[0].0;
    let b = table[1].0;
    let wa = table[0].1;
    let wb = table[1].1;
    lemma_build_props(table);
    let t = spec_build(table);
    assert(t is Fork);
    // both children carry a single symbol and so are leaves
    match t {
        Tree::Fork(l, r) => {
            lemma_syms_nonempty(*l);
            lemma_syms_nonempty(*r);
            assert(t.syms() =~= set![a, b]) by {
                assert forall|q: u8| t.syms().contains(q) implies set![a, b].contains(q) by {
                    assert(table_sym_set(table).contains(q));
                    let k = choose|k: int| 0 <= k < table.len() && (#[trigger] table[k]).0 == q;
                    assert(k == 0 || k == 1);
                }
                assert(table[0].0 == a && table[1].0 == b);
                assert(table_sym_set(table).contains(a) && table_sym_set(table).contains(b));
            }
            let sl = choose|q: u8| (*l).syms().contains(q);
            let sr = choose|q: u8| (*r).syms().contains(q);
            assert(sl != sr || !(*l).syms().disjoint((*r).syms()));
            assert((*l).syms() =~= set![sl]) by {
                assert forall|q: u8| (*l).syms().contains(q) implies q == sl by {
                    assert(t.syms().contains(q) && t.syms().contains(sl));
                    assert((q == a || q == b) && (sl == a || sl == b));
                    if q != sl {
                        assert(t.syms().contains(sr));
                        assert(sr == a || sr == b);
                        assert(!(*l).syms().contains(sr));
                        assert(q == sr || sl == sr);
                    }
                }
            }
            assert((*r).syms() =~= set![sr]) by {
                assert forall|q: u8| (*r).syms().contains(q) implies q == sr by {
                    assert(t.syms().contains(q) && t.syms().contains(sr) && t.syms().contains(sl));
                    assert((q == a || q == b) && (sr == a || sr == b) && (sl == a || sl == b));
                    if q != sr {
                        if sl == q {
                            assert((*l).syms().contains(q) && (*r).syms().contains(q));
                        } else if sl == sr {
                            assert((*l).syms().contains(sr) && (*r).syms().contains(sr));
                        }
                    }
                }
            }
            lemma_singleton_is_leaf(*l, sl);
            lemma_singleton_is_leaf(*r, sr);
            // every code of the built tree is exactly one bit long
            assert((*l).code_in(a).len() == 0 && (*r).code_in(a).len() == 0);
            assert((*l).code_in(b).len() == 0 && (*r).code_in(b).len() == 0);
            assert(t.code_in(a) == (if (*l).syms().contains(a) {
                seq![false] + (*l).code_in(a)
            } else {
                seq![true] + (*r).code_in(a)
            }));
            assert(t.code_in(b) == (if (*l).syms().contains(b) {
                seq![false] + (*l).code_in(b)
            } else {
                seq![true] + (*r).code_in(b)
            }));
            assert(t.table_code(a).len() == 1);
            assert(t.table_code(b).len() == 1);
        },
        _ => {},
    }
    // every prefix-free assignment spends at least one bit per symbol
    assert(f(a).len() >= 1) by {
        if f(a).len() == 0 {
            assert(f(a).is_prefix_of(f(b))) by {
                assert(f(a) =~= f(b).subrange(0, 0));
            }
        }
    }
    assert(f(b).len() >= 1) by {
        if f(b).len() == 0 {
            assert(f(b).is_prefix_of(f(a))) by {
                assert(f(b) =~= f(a).subrange(0, 0));
            }
        }
    }
    let ours = |s: u8| spec_build(table).table_code(s);
    let d1 = table.drop_last();
    assert(d1.len() == 1);
    assert(d1.last() == table[0]);
    assert(d1.drop_last().len() == 0);
    assert(table.last() == table[1]);
    assert(assignment_cost(d1.drop_last(), ours) == 0);
    assert(assignment_cost(d1, ours) == assignment_cost(d1.drop_last(), ours) + d1.last().1 * ours(
        d1.last().0,
    ).len());
    assert(assignment_cost(table, ours) == assignment_cost(d1, ours) + table.last().1 * ours(
        table.last().0,
    ).len());
    assert(assignment_cost(d1.drop_last(), f) == 0);
    assert(assignment_cost(d1, f) == assignment_cost(d1.drop_last(), f) + d1.last().1 * f(
        d1.last().0,
    ).len());
    assert(assignment_cost(table, f) == assignment_cost(d1, f) + table.last().1 * f(
        table.last().0,
    ).len());
    assert(assignment_cost(table, ours) == wa * ours(a).len() + wb * ours(b).len());
    assert(assignment_cost(table, f) == wa * f(a).len() + wb * f(b).len());
    assert(wa * ours(a).len() == wa && wb * ours(b).len() == wb) by (nonlinear_arith)
        requires
            ours(a).len() == 1 && ours(b).len() == 1,
    ;
    assert(wa * f(a).len() >= wa) by (nonlinear_arith)
        requires
            wa >= 1 && f(a).len() >= 1,
    ;
    assert(wb * f(b).len() >= wb) by (nonlinear_arith)
        requires
            wb >= 1 && f(b).len() >= 1,
    ;
}

/// Under a lone-leaf tree every symbol gets a one-bit code, so the coded
/// stream is one bit per input byte.
pub proof fn lemma_coded_bits_leaf_len(x: u8, input: Seq<u8>)
    ensures
        coded_bits(Tree::Leaf(x), input).len() == input.len(),
    decreases input.len(),
{
    if input.len() > 0 {
        lemma_coded_bits_leaf_len(x, input.drop_first());
    }
}

/// The tree built from a table with distinct symbols is distinct and
/// carries exactly the table's symbols; two or more entries give a fork.
pub proof fn lemma_build_props(table: Seq<(u8, int)>)
    requires
        table.len() >= 1,
        forall|k1: int, k2: int|
            0 <= k1 < table.len() && 0 <= k2 < table.len() && k1 != k2 ==> (#[trigger] table[k1]).0
                != (#[trigger] table[k2]).0,
    ensures
        spec_build(table).distinct(),
        spec_build(table).syms() =~= table_sym_set(table),
        table.len() >= 2 ==> spec_build(table) is Fork,
        table.len() == 1 ==> spec_build(table) == Tree::Leaf(table[0].0),
{
    lemma_leaf_list_props(table);
    lemma_build_list_props(leaf_list(table));
    if table.len() == 1 {
        assert(leaf_list(table)[0] == (Tree::Leaf(table[0].0), table[0].1));
    }
}

/// Appending one symbol appends its code to the coded stream.
pub proof fn lemma_coded_bits_snoc(t: Tree, s: Seq<u8>, c: u8)
    ensures
        coded_bits(t, s.push(c)) =~= coded_bits(t, s) + t.table_code(c),
    decreases s.len(),
{
    if s.len() == 0 {
        assert(s.push(c)[0] == c);
        assert(s.push(c).drop_first() =~= Seq::<u8>::empty());
        assert(coded_bits(t, Seq::<u8>::empty()) =~= Seq::<bool>::empty());
        assert(coded_bits(t, s.push(c)) =~= t.table_code(c) + Seq::<bool>::empty());
        assert(t.table_code(c) + Seq::<bool>::empty() =~= t.table_code(c));
        assert(coded_bits(t, s) =~= Seq::<bool>::empty());
        assert(Seq::<bool>::empty() + t.table_code(c) =~= t.table_code(c));
    } else {
        assert(s.push(c)[0] == s[0]);
        assert(s.push(c).drop_first() =~= s.drop_first().push(c));
        lemma_coded_bits_snoc(t, s.drop_first(), c);
        assert(coded_bits(t, s.push(c)) == t.table_code(s[0]) + coded_bits(
            t,
            s.drop_first().push(c),
        ));
        assert(t.table_code(s[0]) + (coded_bits(t, s.drop_first()) + t.table_code(c)) =~= (
        t.table_code(s[0]) + coded_bits(t, s.drop_first())) + t.table_code(c));
    }
}

} // verus!
