//! The Huffman engine: tree construction by repeated min-weight merging
//! with a deterministic tie-break, code assignment by an iterative walk,
//! bit-level encoding, and the decoding bit walk. Nodes live in a flat
//! arena and reference their children by index, so the tree needs no
//! shared or cyclic ownership.

use vstd::prelude::*;
use crate::bits::{BitCursor, pack_bytes, payload_bits, spec_padding, stream_bits, two_to};
use crate::frequency::{Frequencies, Frequency};
use crate::queue::table_ok;
use crate::tree::{
    Tree, coded_bits, leaf_list, lemma_build_props, lemma_coded_bits_snoc, lemma_min_idx_char,
    lemma_remove_index_map, lemma_weights_sum_bounds, lemma_weights_sum_push,
    lemma_weights_sum_remove, min_idx, spec_build, spec_build_list, spec_merge, table_sym_set,
    table_weight, walk_bits, weights_sum,
};
use crate::HuffmanError;

verus! {

/// The result of encoding: the packed payload and the count of filler bits
/// in its final byte (`None` when the bit stream ended on a byte boundary).
#[derive(Default)]
pub struct Encoded {
    pub data: Vec<u8>,
    pub padding: Option<u8>,
}

/// One node of the tree arena: a leaf carries a symbol, an internal node
/// the indices of its two children; both indices point at earlier slots.
pub struct HuffmanNode {
    weight: usize,
    value: Option<u8>,
    left: Option<usize>,
    right: Option<usize>,
}

impl HuffmanNode {
    fn init(symbol: u8, weight: usize) -> (r: HuffmanNode)
        ensures
            r == (HuffmanNode { weight, value: Some(symbol), left: None, right: None }),
    {
        HuffmanNode { weight, value: Some(symbol), left: None, right: None }
    }

    fn weight(&self) -> (r: usize)
        ensures
            r == self.weight,
    {
        self.weight
    }

    fn left(&self) -> (r: Option<usize>)
        ensures
            r == self.left,
    {
        self.left
    }

    fn right(&self) -> (r: Option<usize>)
        ensures
            r == self.right,
    {
        self.right
    }

    fn is_leaf(&self) -> (r: bool)
        ensures
            r == (self.left is None && self.right is None),
    {
        let l = &self.left;
        let r = &self.right;
        l.is_none() && r.is_none()
    }
}

/// One arena slot is sound: a leaf carries a symbol and no children; an
/// internal node carries two children at strictly earlier indices.
pub(crate) closed spec fn node_ok(nodes: Seq<HuffmanNode>, i: int) -> bool {
    &&& 0 <= i < nodes.len()
    &&& match (nodes[i].left, nodes[i].right) {
        (Some(l), Some(r)) => (l as int) < i && (r as int) < i && nodes[i].value is None,
        (None, None) => nodes[i].value is Some,
        _ => false,
    }
}

pub(crate) closed spec fn arena_ok(nodes: Seq<HuffmanNode>) -> bool {
    forall|i: int| 0 <= i < nodes.len() ==> node_ok(nodes, i)
}

/// The tree rooted at slot `i` of the arena.
pub(crate) closed spec fn tree_at(nodes: Seq<HuffmanNode>, i: int) -> Tree
    decreases i,
{
    if 0 <= i < nodes.len() {
        match (nodes[i].left, nodes[i].right) {
            (Some(l), Some(r)) => {
                if (l as int) < i && (r as int) < i {
                    Tree::Fork(
                        Box::new(tree_at(nodes, l as int)),
                        Box::new(tree_at(nodes, r as int)),
                    )
                } else {
                    Tree::Leaf(0)
                }
            },
            _ => Tree::Leaf(
                match nodes[i].value {
                    Some(v) => v,
                    None => 0,
                },
            ),
        }
    } else {
        Tree::Leaf(0)
    }
}

/// Appending a slot leaves every earlier tree unchanged.
proof fn lemma_tree_at_push_one(nodes: Seq<HuffmanNode>, x: HuffmanNode, i: int)
    requires
        0 <= i < nodes.len(),
    ensures
        tree_at(nodes.push(x), i) == tree_at(nodes, i),
    decreases i,
{
    assert(nodes.push(x)[i] == nodes[i]);
    match (nodes[i].left, nodes[i].right) {
        (Some(l), Some(r)) => {
            if (l as int) < i && (r as int) < i {
                if l as int >= 0 {
                    lemma_tree_at_push_one(nodes, x, l as int);
                }
                if r as int >= 0 {
                    lemma_tree_at_push_one(nodes, x, r as int);
                }
            }
        },
        _ => {},
    }
}

proof fn lemma_tree_at_push(nodes: Seq<HuffmanNode>, x: HuffmanNode)
    ensures
        forall|i: int| 0 <= i < nodes.len() ==> tree_at(nodes.push(x), i) == tree_at(nodes, i),
{
    assert forall|i: int| 0 <= i < nodes.len() implies tree_at(nodes.push(x), i) == tree_at(
        nodes,
        i,
    ) by {
        lemma_tree_at_push_one(nodes, x, i);
    }
}

/// The weight held at the `k`-th active slot.
spec fn slot_weight(nodes: Seq<HuffmanNode>, active: Seq<usize>, k: int) -> int {
    nodes[active[k] as int].weight as int
}

/// The first index among the active slots whose node has least weight.
fn find_min(nodes: &Vec<HuffmanNode>, active: &Vec<usize>) -> (m: usize)
    requires
        active@.len() >= 1,
        forall|k: int| 0 <= k < active@.len() ==> (#[trigger] active@[k]) < nodes@.len(),
    ensures
        m < active@.len(),
        forall|k: int|
            0 <= k < active@.len() ==> slot_weight(nodes@, active@, m as int) <= #[trigger] slot_weight(nodes@, active@, k),
        forall|k: int|
            0 <= k < m ==> #[trigger] slot_weight(nodes@, active@, k) > slot_weight(nodes@, active@, m as int),
{
    let mut best: usize = 0;
    let mut k: usize = 1;
    while k < active.len()
        invariant
            1 <= k <= active@.len(),
            best < k,
            forall|j: int| 0 <= j < active@.len() ==> (#[trigger] active@[j]) < nodes@.len(),
            forall|j: int|
                0 <= j < k ==> slot_weight(nodes@, active@, best as int) <= #[trigger] slot_weight(nodes@, active@, j),
            forall|j: int|
                0 <= j < best ==> #[trigger] slot_weight(nodes@, active@, j) > slot_weight(nodes@, active@, best as int),
        decreases active@.len() - k,
    {
        let cand = active[k];
        let cur = active[best];
        if nodes[cand].weight() < nodes[cur].weight() {
            best = k;
        }
        k = k + 1;
    }
    best
}

/// Builds the prefix-code tree of a frequency table by repeatedly merging
/// the two entries of least weight; ties go to the earlier entry, and the
/// first extracted of the pair becomes the left child. This fixed policy
/// makes the tree a function of the table alone, so the decoder rebuilds
/// the same tree from the persisted table.
pub(crate) fn build_tree(table: &Vec<(u8, usize)>) -> (r: (Vec<HuffmanNode>, usize))
    requires
        table@.len() >= 1,
        table_ok(pairs_view(table@)),
        table_weight(pairs_view(table@)) <= usize::MAX,
    ensures
        r.1 < r.0@.len(),
        arena_ok(r.0@),
        tree_at(r.0@, r.1 as int) == spec_build(pairs_view(table@)),
{
    let ghost t = pairs_view(table@);
    let mut nodes: Vec<HuffmanNode> = Vec::new();
    let mut active: Vec<usize> = Vec::new();
    let mut idx: usize = 0;
    while idx < table.len()
        invariant
            idx <= table@.len(),
            nodes@.len() == idx,
            active@.len() == idx,
            forall|k: int| 0 <= k < idx ==> (#[trigger] active@[k]) == k,
            forall|k: int|
                0 <= k < idx ==> (#[trigger] nodes@[k]) == (HuffmanNode {
                    weight: table@[k].1,
                    value: Some(table@[k].0),
                    left: None,
                    right: None,
                }),
        decreases table@.len() - idx,
    {
        let entry = table[idx];
        nodes.push(HuffmanNode::init(entry.0, entry.1));
        active.push(idx);
        idx = idx + 1;
    }
    let ghost t0 = pairs_view(table@);
    let ghost mut w: Seq<(Tree, int)> = leaf_list(t);
    proof {
        assert forall|k: int| 0 <= k < active@.len() implies (tree_at(nodes@, active@[k] as int)
            == w[k].0 && nodes@[active@[k] as int].weight as int == w[k].1) by {
            assert(active@[k] == k);
            assert(nodes@[k].left is None && nodes@[k].right is None);
            assert(tree_at(nodes@, k) == Tree::Leaf(table@[k].0));
            assert(w[k] == (Tree::Leaf(t[k].0), t[k].1));
        }
        assert forall|i: int| 0 <= i < nodes@.len() implies node_ok(nodes@, i) by {
            assert(nodes@[i].left is None && nodes@[i].right is None);
        }
        crate::tree::lemma_leaf_list_props(t);
    }
    while active.len() > 1
        invariant
            active@.len() == w.len(),
            w.len() >= 1,
            forall|k: int| 0 <= k < active@.len() ==> (#[trigger] active@[k]) < nodes@.len(),
            arena_ok(nodes@),
            forall|k: int|
                0 <= k < active@.len() ==> tree_at(nodes@, (#[trigger] active@[k]) as int)
                    == w[k].0,
            forall|k: int|
                0 <= k < active@.len() ==> nodes@[(#[trigger] active@[k]) as int].weight as int
                    == w[k].1,
            spec_build_list(w) == spec_build(t),
            weights_sum(w) == table_weight(t),
            table_weight(t) <= usize::MAX,
            forall|k: int| 0 <= k < w.len() ==> (#[trigger] w[k]).1 >= 0,
        decreases active@.len(),
    {
        let ghost w_old = w;
        let ghost active_old = active@;
        let m1 = find_min(&nodes, &active);
        proof {
            assert forall|k: int| 0 <= k < w.len() implies w[m1 as int].1 <= (
            #[trigger] w[k]).1 by {
                assert(slot_weight(nodes@, active@, k) == w[k].1);
                assert(slot_weight(nodes@, active@, m1 as int) == w[m1 as int].1);
            }
            assert forall|k: int| 0 <= k < m1 as int implies (#[trigger] w[k]).1 > w[m1 as int].1
                by {
                assert(slot_weight(nodes@, active@, k) == w[k].1);
                assert(slot_weight(nodes@, active@, m1 as int) == w[m1 as int].1);
            }
            lemma_min_idx_char(w, m1 as int);
        }
        let i1 = active[m1];
        let wa = nodes[i1].weight;
        let _ = active.remove(m1);
        proof {
            w = w.remove(m1 as int);
            lemma_remove_index_map(w_old, m1 as int);
            assert forall|k: int| 0 <= k < active@.len() implies ((#[trigger] active@[k])
                < nodes@.len() && tree_at(nodes@, active@[k] as int) == w[k].0 && nodes@[active@[k] as int].weight as int
                == w[k].1 && w[k].1 >= 0) by {
                if k < m1 as int {
                    assert(active@[k] == active_old[k]);
                    assert(w[k] == w_old[k]);
                } else {
                    assert(active@[k] == active_old[k + 1]);
                    assert(w[k] == w_old[k + 1]);
                }
            }
        }
        let ghost w_mid = w;
        let ghost active_mid = active@;
        let m2 = find_min(&nodes, &active);
        proof {
            assert forall|k: int| 0 <= k < w.len() implies w[m2 as int].1 <= (
            #[trigger] w[k]).1 by {
                assert(slot_weight(nodes@, active@, k) == w[k].1);
                assert(slot_weight(nodes@, active@, m2 as int) == w[m2 as int].1);
            }
            assert forall|k: int| 0 <= k < m2 as int implies (#[trigger] w[k]).1 > w[m2 as int].1
                by {
                assert(slot_weight(nodes@, active@, k) == w[k].1);
                assert(slot_weight(nodes@, active@, m2 as int) == w[m2 as int].1);
            }
            lemma_min_idx_char(w, m2 as int);
        }
        let i2 = active[m2];
        let wb = nodes[i2].weight;
        let _ = active.remove(m2);
        proof {
            w = w.remove(m2 as int);
            lemma_remove_index_map(w_mid, m2 as int);
            assert forall|k: int| 0 <= k < active@.len() implies ((#[trigger] active@[k])
                < nodes@.len() && tree_at(nodes@, active@[k] as int) == w[k].0 && nodes@[active@[k] as int].weight as int
                == w[k].1 && w[k].1 >= 0) by {
                if k < m2 as int {
                    assert(active@[k] == active_mid[k]);
                    assert(w[k] == w_mid[k]);
                } else {
                    assert(active@[k] == active_mid[k + 1]);
                    assert(w[k] == w_mid[k + 1]);
                }
            }
            lemma_weights_sum_remove(w_old, m1 as int);
            lemma_weights_sum_remove(w_mid, m2 as int);
            lemma_weights_sum_bounds(w, 0);
            assert(wa as int == w_old[m1 as int].1);
            assert(wb as int == w_mid[m2 as int].1);
            assert(wa as int + wb as int <= table_weight(t));
        }
        let wsum = wa + wb;
        let ni = nodes.len();
        let ghost nodes_old = nodes@;
        let merged = HuffmanNode { weight: wsum, value: None, left: Some(i1), right: Some(i2) };
        nodes.push(merged);
        active.push(ni);
        proof {
            let wa_item = w_old[m1 as int];
            let wb_item = w_mid[m2 as int];
            lemma_tree_at_push(nodes_old, merged);
            assert forall|i: int| 0 <= i < nodes@.len() implies node_ok(nodes@, i) by {
                if i < nodes_old.len() {
                    assert(nodes@[i] == nodes_old[i]);
                    assert(node_ok(nodes_old, i));
                } else {
                    assert(nodes@[i] == merged);
                    assert((i1 as int) < i && (i2 as int) < i);
                }
            }
            assert(tree_at(nodes@, ni as int) == Tree::Fork(
                Box::new(tree_at(nodes@, i1 as int)),
                Box::new(tree_at(nodes@, i2 as int)),
            ));
            assert(tree_at(nodes@, i1 as int) == tree_at(nodes_old, i1 as int));
            assert(tree_at(nodes@, i2 as int) == tree_at(nodes_old, i2 as int));
            let merged_item = (
                Tree::Fork(Box::new(wa_item.0), Box::new(wb_item.0)),
                wa_item.1 + wb_item.1,
            );
            w = w.push(merged_item);
            assert(w =~= spec_merge(w_old)) by {
                assert(min_idx(w_old) == m1 as int);
                assert(min_idx(w_mid) == m2 as int);
                assert(w_mid == w_old.remove(m1 as int));
            }
            assert(spec_build_list(w_old) == spec_build_list(spec_merge(w_old)));
            assert(spec_build_list(w) == spec_build(t));
            lemma_weights_sum_push(w_mid.remove(m2 as int), merged_item);
            // the pairing between active slots and the ghost work list
            assert forall|k: int| 0 <= k < active@.len() implies ((#[trigger] active@[k])
                < nodes@.len() && tree_at(nodes@, active@[k] as int) == w[k].0 && nodes@[active@[k] as int].weight as int
                == w[k].1) by {
                if k < w.len() - 1 {
                    assert(w[k] == w_mid.remove(m2 as int)[k]);
                } else {
                    assert(active@[k] == ni);
                    assert(w[k] == merged_item);
                }
            }
            assert forall|k: int| 0 <= k < w.len() implies (#[trigger] w[k]).1 >= 0 by {
                if k < w.len() - 1 {
                } else {
                    assert(w[k] == merged_item);
                }
            }
        }
    }
    let root = active[0];
    proof {
        assert(w.len() == 1);
        assert(spec_build_list(w) == w[0].0);
        assert(tree_at(nodes@, root as int) == w[0].0);
    }
    (nodes, root)
}

/// The mathematical view of a byte/count pair table.
pub open spec fn pairs_view(v: Seq<(u8, usize)>) -> Seq<(u8, int)> {
    Seq::new(v.len(), |k: int| (v[k].0, v[k].1 as int))
}

/// A fresh path extended by one edge label.
fn extend_path(path: &Vec<bool>, b: bool) -> (r: Vec<bool>)
    ensures
        r@ =~= path@.push(b),
{
    let mut out: Vec<bool> = Vec::new();
    let mut i: usize = 0;
    while i < path.len()
        invariant
            i <= path@.len(),
            out@ =~= path@.take(i as int),
        decreases path@.len() - i,
    {
        out.push(path[i]);
        proof {
            assert(out@ =~= path@.take(i as int).push(path@[i as int]));
            assert(path@.take(i as int).push(path@[i as int]) =~= path@.take(i as int + 1));
        }
        i = i + 1;
    }
    proof {
        assert(path@.take(path@.len() as int) =~= path@);
    }
    out.push(b);
    out
}

/// The total size of the subtrees still waiting on the traversal stack.
spec fn stack_size(nodes: Seq<HuffmanNode>, st: Seq<(usize, Vec<bool>)>) -> nat
    decreases st.len(),
{
    if st.len() == 0 {
        0
    } else {
        stack_size(nodes, st.drop_last()) + tree_at(nodes, st.last().0 as int).size()
    }
}

/// Walks the tree with an explicit stack (a maximally skewed tree can be
/// as deep as the alphabet, so recursion is avoided), recording for each
/// leaf the path of edge labels from the root: false for left, true for
/// right. The lone leaf of a one-symbol tree gets the one-bit code `0`.
pub(crate) fn assign_codes(nodes: &Vec<HuffmanNode>, root: usize, codes: &mut Vec<Option<Vec<bool>>>)
    requires
        root < nodes@.len(),
        arena_ok(nodes@),
        tree_at(nodes@, root as int).distinct(),
        old(codes)@.len() == 256,
        forall|j: int| 0 <= j < 256 ==> (#[trigger] old(codes)@[j]) is None,
    ensures
        final(codes)@.len() == 256,
        forall|s: u8|
            tree_at(nodes@, root as int).syms().contains(s) ==> ((#[trigger] final(codes)@[s as int])
                matches Some(c) && c@ == tree_at(nodes@, root as int).table_code(s)),
        forall|s: u8|
            !tree_at(nodes@, root as int).syms().contains(s) ==> (#[trigger] final(codes)@[s as int])
                is None,
{
    let ghost t_root = tree_at(nodes@, root as int);
    let node_is_leaf = nodes[root].is_leaf();
    if node_is_leaf {
        match nodes[root].value {
            Some(v) => {
                proof {
                    assert(node_ok(nodes@, root as int));
                    assert(t_root == Tree::Leaf(v));
                    assert(t_root.syms() =~= set![v]);
                }
                let mut one: Vec<bool> = Vec::new();
                one.push(false);
                proof {
                    assert(one@ =~= seq![false]);
                }
                codes[v as usize] = Some(one);
            },
            None => {
                proof {
                    assert(node_ok(nodes@, root as int));
                    assert(false);
                }
            },
        }
        return ;
    }
    let mut stack: Vec<(usize, Vec<bool>)> = Vec::new();
    let first_path: Vec<bool> = Vec::new();
    stack.push((root, first_path));
    proof {
        assert(node_ok(nodes@, root as int));
        assert(t_root is Fork);
        assert(stack@.drop_last() =~= Seq::<(usize, Vec<bool>)>::empty());
        assert forall|k: int, s: u8|
            0 <= k < stack@.len() && #[trigger] tree_at(
                nodes@,
                stack@[k].0 as int,
            ).syms().contains(s) implies t_root.code_in(s) == stack@[k].1@ + tree_at(
            nodes@,
            stack@[k].0 as int,
        ).code_in(s) by {
            assert(stack@[k].1@ =~= Seq::<bool>::empty());
            assert(Seq::<bool>::empty() + t_root.code_in(s) =~= t_root.code_in(s));
        }
        assert forall|s: u8| t_root.syms().contains(s) implies exists|k: int|
            0 <= k < stack@.len() && tree_at(
                nodes@,
                (#[trigger] stack@[k]).0 as int,
            ).syms().contains(s) by {
            assert(stack@[0].0 == root);
            assert(tree_at(nodes@, stack@[0].0 as int).syms().contains(s));
        }
    }
    while stack.len() > 0
        invariant
            root < nodes@.len(),
            arena_ok(nodes@),
            t_root == tree_at(nodes@, root as int),
            t_root is Fork,
            codes@.len() == 256,
            forall|k: int| 0 <= k < stack@.len() ==> (#[trigger] stack@[k]).0 < nodes@.len(),
            forall|k: int|
                0 <= k < stack@.len() ==> (#[trigger] tree_at(
                    nodes@,
                    stack@[k].0 as int,
                )).distinct(),
            forall|k: int, s: u8|
                0 <= k < stack@.len() && #[trigger] tree_at(
                    nodes@,
                    stack@[k].0 as int,
                ).syms().contains(s) ==> t_root.syms().contains(s),
            forall|k: int, s: u8|
                0 <= k < stack@.len() && #[trigger] tree_at(
                    nodes@,
                    stack@[k].0 as int,
                ).syms().contains(s) ==> t_root.code_in(s) == stack@[k].1@ + tree_at(
                    nodes@,
                    stack@[k].0 as int,
                ).code_in(s),
            forall|s: u8|
                t_root.syms().contains(s) ==> ((#[trigger] codes@[s as int]) matches Some(c)
                    && c@ == t_root.code_in(s)) || (exists|k: int|
                    0 <= k < stack@.len() && tree_at(
                        nodes@,
                        (#[trigger] stack@[k]).0 as int,
                    ).syms().contains(s)),
            forall|s: u8| !t_root.syms().contains(s) ==> (#[trigger] codes@[s as int]) is None,
        decreases stack_size(nodes@, stack@),
    {
        let ghost stack_old = stack@;
        let pair = stack.pop().unwrap();
        let idx = pair.0;
        let path = pair.1;
        let ghost k0 = stack_old.len() - 1;
        let ghost t_cur = tree_at(nodes@, idx as int);
        proof {
            assert(stack@ =~= stack_old.drop_last());
            assert(stack_old[k0] == (idx, path));
            assert(node_ok(nodes@, idx as int));
        }
        let cur_is_leaf = nodes[idx].is_leaf();
        if cur_is_leaf {
            match nodes[idx].value {
                Some(v) => {
                    proof {
                        assert(t_cur == Tree::Leaf(v));
                        assert(t_cur.syms().contains(v));
                        assert(t_root.syms().contains(v));
                        assert(t_root.code_in(v) == path@ + t_cur.code_in(v));
                        assert(t_cur.code_in(v) =~= Seq::<bool>::empty());
                        assert(path@ + Seq::<bool>::empty() =~= path@);
                        assert(t_root.code_in(v) == path@);
                    }
                    let ghost codes_old = codes@;
                    codes[v as usize] = Some(path);
                    proof {
                        assert forall|s: u8| t_root.syms().contains(s) implies ((
                        #[trigger] codes@[s as int]) matches Some(c) && c@ == t_root.code_in(s))
                            || (exists|k: int|
                            0 <= k < stack@.len() && tree_at(
                                nodes@,
                                (#[trigger] stack@[k]).0 as int,
                            ).syms().contains(s)) by {
                            if s == v {
                            } else {
                                assert(codes@[s as int] == codes_old[s as int]);
                                if !(codes_old[s as int] matches Some(c) && c@ == t_root.code_in(
                                    s,
                                )) {
                                    let k = choose|k: int|
                                        0 <= k < stack_old.len() && tree_at(
                                            nodes@,
                                            (#[trigger] stack_old[k]).0 as int,
                                        ).syms().contains(s);
                                    if k < k0 {
                                        assert(stack@[k] == stack_old[k]);
                                        assert(tree_at(
                                            nodes@,
                                            stack@[k].0 as int,
                                        ).syms().contains(s));
                                    } else {
                                        assert(tree_at(nodes@, idx as int).syms().contains(s));
                                        assert(s == v);
                                    }
                                }
                            }
                        }
                        assert(stack_size(nodes@, stack_old) == stack_size(nodes@, stack@)
                            + t_cur.size());
                    }
                },
                None => {
                    proof {
                        assert(false);
                    }
                },
            }
        } else {
            match (nodes[idx].left(), nodes[idx].right()) {
                (Some(lx), Some(rx)) => {
                    let ghost t_left = tree_at(nodes@, lx as int);
                    let ghost t_right = tree_at(nodes@, rx as int);
                    proof {
                        assert(t_cur == Tree::Fork(Box::new(t_left), Box::new(t_right)));
                    }
                    let pr = extend_path(&path, true);
                    let pl = extend_path(&path, false);
                    let ghost stack_mid0 = stack@;
                    stack.push((rx, pr));
                    let ghost stack_mid = stack@;
                    stack.push((lx, pl));
                    proof {
                        assert(stack@ =~= stack_mid0.push((rx, pr)).push((lx, pl)));
                        let kl = stack@.len() - 1;
                        let kr = stack@.len() - 2;
                        assert(stack@[kl] == (lx, pl));
                        assert(stack@[kr] == (rx, pr));
                        assert forall|k: int, s: u8|
                            0 <= k < stack@.len() && #[trigger] tree_at(
                                nodes@,
                                stack@[k].0 as int,
                            ).syms().contains(s) implies t_root.syms().contains(s) && t_root.code_in(
                            s,
                        ) == stack@[k].1@ + tree_at(nodes@, stack@[k].0 as int).code_in(s) && tree_at(
                            nodes@,
                            stack@[k].0 as int,
                        ).distinct() by {
                            if k < kr {
                                assert(stack@[k] == stack_old[k]);
                            } else if k == kr {
                                assert(t_right.syms().contains(s));
                                assert(t_cur.syms().contains(s));
                                assert(t_root.syms().contains(s));
                                assert(t_root.code_in(s) == path@ + t_cur.code_in(s));
                                assert(!t_left.syms().contains(s));
                                assert(t_cur.code_in(s) == seq![true] + t_right.code_in(s));
                                assert(pr@ =~= path@.push(true));
                                assert(path@.push(true) =~= path@ + seq![true]);
                                assert(path@ + (seq![true] + t_right.code_in(s)) =~= (path@
                                    + seq![true]) + t_right.code_in(s));
                            } else {
                                assert(t_left.syms().contains(s));
                                assert(t_cur.syms().contains(s));
                                assert(t_root.syms().contains(s));
                                assert(t_root.code_in(s) == path@ + t_cur.code_in(s));
                                assert(t_cur.code_in(s) == seq![false] + t_left.code_in(s));
                                assert(pl@ =~= path@.push(false));
                                assert(path@.push(false) =~= path@ + seq![false]);
                                assert(path@ + (seq![false] + t_left.code_in(s)) =~= (path@
                                    + seq![false]) + t_left.code_in(s));
                            }
                        }
                        assert forall|s: u8| t_root.syms().contains(s) implies ((
                        #[trigger] codes@[s as int]) matches Some(c) && c@ == t_root.code_in(s))
                            || (exists|k: int|
                            0 <= k < stack@.len() && tree_at(
                                nodes@,
                                (#[trigger] stack@[k]).0 as int,
                            ).syms().contains(s)) by {
                            if !(codes@[s as int] matches Some(c) && c@ == t_root.code_in(s)) {
                                let k = choose|k: int|
                                    0 <= k < stack_old.len() && tree_at(
                                        nodes@,
                                        (#[trigger] stack_old[k]).0 as int,
                                    ).syms().contains(s);
                                if k < k0 {
                                    assert(stack@[k] == stack_old[k]);
                                    assert(tree_at(nodes@, stack@[k].0 as int).syms().contains(s));
                                } else {
                                    assert(t_cur.syms().contains(s));
                                    if t_left.syms().contains(s) {
                                        assert(tree_at(
                                            nodes@,
                                            stack@[kl].0 as int,
                                        ).syms().contains(s));
                                    } else {
                                        assert(t_right.syms().contains(s));
                                        assert(tree_at(
                                            nodes@,
                                            stack@[kr].0 as int,
                                        ).syms().contains(s));
                                    }
                                }
                            }
                        }
                        assert(stack_size(nodes@, stack_old) == stack_size(nodes@, stack_mid0)
                            + t_cur.size());
                        assert(stack_mid.drop_last() =~= stack_mid0);
                        assert(stack_mid.last() == (rx, pr));
                        assert(stack_size(nodes@, stack_mid) == stack_size(nodes@, stack_mid0)
                            + t_right.size());
                        assert(stack@.drop_last() =~= stack_mid);
                        assert(stack@.last() == (lx, pl));
                        assert(stack_size(nodes@, stack@) == stack_size(nodes@, stack_mid)
                            + t_left.size());
                        assert(t_cur.size() == 1 + t_left.size() + t_right.size());
                    }
                },
                _ => {
                    proof {
                        assert(false);
                    }
                },
            }
        }
    }
    proof {
        assert forall|s: u8| t_root.syms().contains(s) implies ((#[trigger] codes@[s as int])
            matches Some(c) && c@ == t_root.table_code(s)) by {
            assert(!(exists|k: int|
                0 <= k < stack@.len() && tree_at(
                    nodes@,
                    (#[trigger] stack@[k]).0 as int,
                ).syms().contains(s)));
        }
    }
}

/// The padding count an `Encoded` value carries.
pub open spec fn pad_of(p: Option<u8>) -> int {
    match p {
        Some(v) => v as int,
        None => 0,
    }
}

/// A character frequency table as a byte table.
pub open spec fn bytes_view(v: Seq<Frequency>) -> Seq<(u8, int)> {
    Seq::new(v.len(), |k: int| (v[k].0 as u8, v[k].1 as int))
}

/// A frequency table the tree builder accepts: at least one entry, every
/// symbol a byte value, pairwise different symbols, every count at least
/// one, and a total count a machine word can hold.
pub open spec fn char_table_ok(v: Seq<Frequency>) -> bool {
    &&& v.len() >= 1
    &&& forall|k: int| 0 <= k < v.len() ==> ((#[trigger] v[k]).0 as u32) < 256
    &&& forall|k: int| 0 <= k < v.len() ==> (#[trigger] v[k]).1 >= 1
    &&& forall|k1: int, k2: int|
        0 <= k1 < v.len() && 0 <= k2 < v.len() && k1 != k2 ==> (#[trigger] v[k1]).0 != (
        #[trigger] v[k2]).0
    &&& table_weight(bytes_view(v)) <= usize::MAX
}

/// The Huffman tree with its code table.
pub struct HuffmanEncoder {
    nodes: Vec<HuffmanNode>,
    root: usize,
    codes: Vec<Option<Vec<bool>>>,
}

impl HuffmanEncoder {
    /// The prefix-code tree this encoder carries.
    pub closed spec fn tree(&self) -> Tree {
        tree_at(self.nodes@, self.root as int)
    }

    /// The arena is sound, the tree has pairwise different leaf symbols,
    /// and the code table holds exactly the tree's codes.
    pub closed spec fn wf(&self) -> bool {
        &&& self.root < self.nodes@.len()
        &&& arena_ok(self.nodes@)
        &&& self.tree().distinct()
        &&& self.codes@.len() == 256
        &&& forall|s: u8|
            self.tree().syms().contains(s) ==> ((#[trigger] self.codes@[s as int]) matches Some(c)
                && c@ == self.tree().table_code(s))
        &&& forall|s: u8|
            !self.tree().syms().contains(s) ==> (#[trigger] self.codes@[s as int]) is None
    }

    /// Builds the tree and the code table from a frequency table. The
    /// result is a function of the table alone: encode and decode agree
    /// bit for bit when both start from the same table.
    pub fn new(frequencies: &Frequencies) -> (r: HuffmanEncoder)
        requires
            char_table_ok(frequencies@),
        ensures
            r.wf(),
            r.tree() == spec_build(bytes_view(frequencies@)),
            r.tree().distinct(),
            r.tree().syms() =~= table_sym_set(bytes_view(frequencies@)),
            frequencies@.len() >= 2 ==> r.tree() is Fork,
            frequencies@.len() == 1 ==> r.tree() == Tree::Leaf(bytes_view(frequencies@)[0].0),
    {
        let ghost bt = bytes_view(frequencies@);
        let mut pairs: Vec<(u8, usize)> = Vec::new();
        let mut i: usize = 0;
        proof {
            assert(pairs_view(pairs@) =~= bytes_view(frequencies@.take(0)));
        }
        while i < frequencies.len()
            invariant
                i <= frequencies@.len(),
                char_table_ok(frequencies@),
                pairs_view(pairs@) =~= bytes_view(frequencies@.take(i as int)),
            decreases frequencies@.len() - i,
        {
            let f = frequencies[i];
            let u = f.0 as u32;
            let b = u as u8;
            proof {
                assert(u < 256);
                assert(b as int == u as int);
                assert(b as int == (f.0 as u8) as int);
            }
            let ghost pairs_old = pairs@;
            pairs.push((b, f.1));
            proof {
                let pv = pairs_view(pairs@);
                let target = bytes_view(frequencies@.take(i as int + 1));
                assert(pairs_view(pairs_old).len() == pairs_old.len());
                assert(bytes_view(frequencies@.take(i as int)).len() == i as int);
                assert(pairs_old.len() == i as int);
                assert(pairs@ == pairs_old.push((b, f.1)));
                assert forall|k: int| 0 <= k < pv.len() implies pv[k] == target[k] by {
                    if k < i as int {
                        assert(0 <= k < pairs_old.len());
                        assert(pairs@[k] == pairs_old[k]);
                        assert(frequencies@.take(i as int + 1)[k] == frequencies@.take(
                            i as int,
                        )[k]);
                        assert(pairs_view(pairs_old)[k] == bytes_view(
                            frequencies@.take(i as int),
                        )[k]);
                    } else {
                        assert(pairs@[k] == (b, f.1));
                        assert(frequencies@.take(i as int + 1)[k] == frequencies@[k]);
                    }
                }
                assert(pv =~= target);
            }
            i = i + 1;
        }
        proof {
            assert(frequencies@.take(frequencies@.len() as int) =~= frequencies@);
            assert(pairs_view(pairs@) =~= bt);
            assert(table_ok(pairs_view(pairs@))) by {
                assert forall|k1: int, k2: int|
                    0 <= k1 < bt.len() && 0 <= k2 < bt.len() && k1 != k2 implies (
                #[trigger] bt[k1]).0 != (#[trigger] bt[k2]).0 by {
                    assert(frequencies@[k1].0 != frequencies@[k2].0);
                    assert((frequencies@[k1].0 as u32) < 256 && (frequencies@[k2].0 as u32) < 256);
                }
                assert(forall|k: int| 0 <= k < bt.len() ==> (#[trigger] bt[k]).1 >= 1);
            }
            lemma_build_props(bt);
        }
        let (nodes, root) = build_tree(&pairs);
        let mut codes: Vec<Option<Vec<bool>>> = Vec::new();
        let mut j: usize = 0;
        while j < 256
            invariant
                j <= 256,
                codes@.len() == j,
                forall|k: int| 0 <= k < j ==> (#[trigger] codes@[k]) is None,
            decreases 256 - j,
        {
            codes.push(None);
            j = j + 1;
        }
        assign_codes(&nodes, root, &mut codes);
        let r = HuffmanEncoder { nodes, root, codes };
        proof {
            assert(r.tree() == spec_build(bt));
            if frequencies@.len() == 1 {
                assert(r.tree() == Tree::Leaf(bt[0].0));
            }
        }
        r
    }

    /// Encodes the input: each byte's code is appended most significant
    /// bit first, and the final byte is zero-filled, with the filler count
    /// recorded as the padding. A byte without a table entry surfaces
    /// `UnknownSymbol`; with a table derived from the same input this
    /// cannot occur, so the check is a defensive invariant.
    pub fn encode(&mut self, input_data: &Vec<u8>) -> (r: Result<Encoded, HuffmanError>)
        requires
            old(self).wf(),
        ensures
            *final(self) == *old(self),
            (forall|i: int|
                0 <= i < input_data@.len() ==> old(self).tree().syms().contains(
                    #[trigger] input_data@[i],
                )) ==> (r matches Ok(e) && e.data@ =~= pack_bytes(
                coded_bits(old(self).tree(), input_data@),
            ) && payload_bits(e.data@, pad_of(e.padding)) =~= coded_bits(
                old(self).tree(),
                input_data@,
            ) && pad_of(e.padding) == spec_padding(
                coded_bits(old(self).tree(), input_data@).len(),
            ) && 0 <= pad_of(e.padding) <= 7 && (e.padding matches Some(p) ==> p > 0
                && e.data@.len() > 0 && e.data@.last() as int % two_to(p as nat) == 0)),
            (exists|i: int|
                0 <= i < input_data@.len() && !old(self).tree().syms().contains(
                    #[trigger] input_data@[i],
                )) ==> r == Err::<Encoded, HuffmanError>(HuffmanError::UnknownSymbol),
    {
        let ghost t = self.tree();
        let mut cursor = BitCursor::new();
        let mut i: usize = 0;
        proof {
            assert(coded_bits(t, input_data@.take(0)) =~= Seq::<bool>::empty());
        }
        while i < input_data.len()
            invariant
                *self == *old(self),
                self.wf(),
                t == self.tree(),
                i <= input_data@.len(),
                cursor.wf(),
                cursor.bits() =~= coded_bits(t, input_data@.take(i as int)),
                forall|j: int| 0 <= j < i ==> t.syms().contains(#[trigger] input_data@[j]),
            decreases input_data@.len() - i,
        {
            let c = input_data[i];
            let cu = c as usize;
            proof {
                assert(cu < 256);
            }
            match &self.codes[cu] {
                Some(code) => {
                    proof {
                        assert(t.syms().contains(c)) by {
                            if !t.syms().contains(c) {
                                assert(self.codes@[cu as int] is None);
                            }
                        }
                        assert(code@ == t.table_code(c));
                    }
                    let ghost prefix = cursor.bits();
                    let mut j: usize = 0;
                    proof {
                        assert(prefix + code@.take(0) =~= prefix);
                    }
                    while j < code.len()
                        invariant
                            j <= code@.len(),
                            cursor.wf(),
                            cursor.bits() =~= prefix + code@.take(j as int),
                        decreases code@.len() - j,
                    {
                        let bit = code[j];
                        cursor.push_bit(bit);
                        proof {
                            assert((prefix + code@.take(j as int)).push(code@[j as int]) =~= prefix
                                + code@.take(j as int + 1));
                        }
                        j = j + 1;
                    }
                    proof {
                        assert(code@.take(code@.len() as int) =~= code@);
                        lemma_coded_bits_snoc(t, input_data@.take(i as int), c);
                        assert(input_data@.take(i as int + 1) =~= input_data@.take(i as int).push(
                            c,
                        ));
                        assert(cursor.bits() =~= coded_bits(t, input_data@.take(i as int + 1)));
                    }
                },
                None => {
                    proof {
                        assert(!t.syms().contains(c)) by {
                            if t.syms().contains(c) {
                                assert(self.codes@[cu as int] is Some);
                            }
                        }
                        assert(input_data@[i as int] == c);
                    }
                    return Err(HuffmanError::UnknownSymbol);
                },
            }
            i = i + 1;
        }
        proof {
            assert(input_data@.take(input_data@.len() as int) =~= input_data@);
        }
        let packed = cursor.finish();
        let data = packed.0;
        let pad = packed.1;
        let padding: Option<u8> = if pad > 0 {
            Some(pad)
        } else {
            None
        };
        proof {
            assert(pad_of(padding) == pad as int);
        }
        Ok(Encoded { data, padding })
    }

    /// Decodes a packed payload by walking the tree bit by bit: left on
    /// zero, right on one; a leaf emits its symbol and the walk restarts
    /// at the root. Only the `8 - padding` most significant bits of the
    /// final byte are walked. A walk that does not land exactly on the
    /// root surfaces `TruncatedPayload`.
    pub fn decode(&self, encoded_data: Encoded) -> (r: Result<Vec<u8>, HuffmanError>)
        requires
            self.wf(),
            pad_of(encoded_data.padding) <= 7,
            pad_of(encoded_data.padding) > 0 ==> encoded_data.data@.len() > 0,
        ensures
            spec_decode(self.tree(), encoded_data.data@, pad_of(encoded_data.padding)) matches Ok(
                o,
            ) ==> (r matches Ok(v) && v@ =~= o),
            spec_decode(self.tree(), encoded_data.data@, pad_of(encoded_data.padding)) matches Err(
                e,
            ) ==> r == Err::<Vec<u8>, HuffmanError>(e),
    {
        let Encoded { data, padding } = encoded_data;
        let pad: u8 = match padding {
            Some(p) => p,
            None => 0,
        };
        let ghost t = self.tree();
        let ghost bits = payload_bits(data@, pad as int);
        proof {
            assert(node_ok(self.nodes@, self.root as int));
            assert(bits.len() == data@.len() * 8 - pad) by {
                assert(stream_bits(data@).len() == data@.len() * 8);
                if data@.len() > 0 {
                    assert(data@.len() * 8 >= 8) by (nonlinear_arith)
                        requires
                            data@.len() >= 1,
                    ;
                }
            }
        }
        let root_is_leaf = self.nodes[self.root].is_leaf();
        if root_is_leaf {
            match self.nodes[self.root].value {
                Some(v) => {
                    proof {
                        assert(t == Tree::Leaf(v));
                    }
                    let mut out: Vec<u8> = Vec::new();
                    let mut index: usize = 0;
                    while index < data.len()
                        invariant
                            index <= data@.len(),
                            pad <= 7,
                            pad > 0 ==> data@.len() > 0,
                            out@ =~= Seq::new(
                                (if index == data@.len() {
                                    data@.len() * 8 - pad
                                } else {
                                    index * 8
                                }) as nat,
                                |q: int| v,
                            ),
                        decreases data@.len() - index,
                    {
                        let reps: u8 = if index + 1 == data.len() {
                            8 - pad
                        } else {
                            8
                        };
                        let mut j: u8 = 0;
                        let ghost out_prev = out@;
                        while j < reps
                            invariant
                                j <= reps,
                                out@ =~= out_prev + Seq::new(j as nat, |q: int| v),
                            decreases reps - j,
                        {
                            out.push(v);
                            proof {
                                assert(out@ =~= (out_prev + Seq::new(j as nat, |q: int| v)).push(
                                    v,
                                ));
                                assert((out_prev + Seq::new(j as nat, |q: int| v)).push(v) =~= out_prev
                                    + Seq::new((j + 1) as nat, |q: int| v));
                            }
                            j = j + 1;
                        }
                        proof {
                            let total = (if index as int + 1 == data@.len() {
                                data@.len() * 8 - pad
                            } else {
                                (index + 1) * 8
                            });
                            assert(out@ =~= Seq::new(total as nat, |q: int| v)) by {
                                assert(out@ =~= out_prev + Seq::new(reps as nat, |q: int| v));
                            }
                        }
                        index = index + 1;
                    }
                    proof {
                        assert(out@ =~= Seq::new(bits.len(), |q: int| v));
                    }
                    Ok(out)
                },
                None => {
                    proof {
                        assert(false);
                    }
                    Err(HuffmanError::TruncatedPayload)
                },
            }
        } else {
            proof {
                assert(t is Fork);
            }
            let mut out: Vec<u8> = Vec::new();
            let mut cur: usize = self.root;
            let mut index: usize = 0;
            let ghost mut bc: int = 0;
            proof {
                assert(bits.skip(0) =~= bits);
                if data@.len() == 0 {
                    assert(bc == bits.len() as int);
                }
            }
            while index < data.len()
                invariant
                    self.wf(),
                    t == self.tree(),
                    t is Fork,
                    pad <= 7,
                    pad > 0 ==> data@.len() > 0,
                    bits == payload_bits(data@, pad as int),
                    bits.len() == data@.len() * 8 - pad,
                    index <= data@.len(),
                    bc == (if index == data@.len() {
                        bits.len() as int
                    } else {
                        index * 8
                    }),
                    cur < self.nodes@.len(),
                    tree_at(self.nodes@, cur as int) is Fork,
                    tree_at(self.nodes@, cur as int).distinct(),
                    cur == self.root || (tree_at(self.nodes@, cur as int).syms().subset_of(
                        t.syms(),
                    ) && tree_at(self.nodes@, cur as int).syms() != t.syms()),
                    walk_bits(t, t, bits) == (match walk_bits(
                        t,
                        tree_at(self.nodes@, cur as int),
                        bits.skip(bc),
                    ) {
                        Some(tail) => Some(out@ + tail),
                        None => None::<Seq<u8>>,
                    }),
                decreases data@.len() - index,
            {
                let byte = data[index];
                let reps: u8 = if index + 1 == data.len() {
                    8 - pad
                } else {
                    8
                };
                let mut j: u8 = 0;
                while j < reps
                    invariant
                        self.wf(),
                        t == self.tree(),
                        t is Fork,
                        pad <= 7,
                        j <= reps,
                        index < data@.len(),
                        byte == data@[index as int],
                        reps == (if index as int + 1 == data@.len() {
                            8 - pad
                        } else {
                            8
                        }),
                        bits == payload_bits(data@, pad as int),
                        bits.len() == data@.len() * 8 - pad,
                        bc == index * 8 + j,
                        cur < self.nodes@.len(),
                        tree_at(self.nodes@, cur as int) is Fork,
                        tree_at(self.nodes@, cur as int).distinct(),
                        cur == self.root || (tree_at(self.nodes@, cur as int).syms().subset_of(
                            t.syms(),
                        ) && tree_at(self.nodes@, cur as int).syms() != t.syms()),
                        walk_bits(t, t, bits) == (match walk_bits(
                            t,
                            tree_at(self.nodes@, cur as int),
                            bits.skip(bc),
                        ) {
                            Some(tail) => Some(out@ + tail),
                            None => None::<Seq<u8>>,
                        }),
                    decreases reps - j,
                {
                    let sh: u8 = 7 - j;
                    let bitv: u8 = (byte >> sh) & 1;
                    let bit = bitv == 1;
                    proof {
                        assert(bc < bits.len()) by {
                            if index as int + 1 == data@.len() {
                                assert(bc == index * 8 + j && j < 8 - pad);
                                assert(index * 8 + (8 - pad) == data@.len() * 8 - pad)
                                    by (nonlinear_arith)
                                    requires
                                        index as int + 1 == data@.len(),
                                ;
                            } else {
                                assert((index + 1) * 8 <= data@.len() * 8 - pad)
                                    by (nonlinear_arith)
                                    requires
                                        index as int + 2 <= data@.len() && pad <= 7,
                                ;
                            }
                        }
                        assert(bits[bc] == stream_bits(data@)[bc]);
                        assert(bc / 8 == index as int && bc % 8 == j as int) by (nonlinear_arith)
                            requires
                                bc == index * 8 + j && 0 <= j < 8,
                        ;
                        assert(stream_bits(data@)[bc] == crate::bits::byte_bits(
                            data@[index as int],
                        )[j as int]);
                        assert(crate::bits::byte_bits(byte)[j as int] == ((byte >> ((7 - j) as u8))
                            & 1u8 == 1u8));
                        assert(bit == bits[bc]);
                        assert(bits.skip(bc).len() > 0);
                        assert(bits.skip(bc)[0] == bits[bc]);
                        assert(bits.skip(bc).drop_first() =~= bits.skip(bc + 1));
                        assert(node_ok(self.nodes@, cur as int));
                    }
                    match (self.nodes[cur].left(), self.nodes[cur].right()) {
                        (Some(lx), Some(rx)) => {
                            let ghost t_cur = tree_at(self.nodes@, cur as int);
                            let ghost t_left = tree_at(self.nodes@, lx as int);
                            let ghost t_right = tree_at(self.nodes@, rx as int);
                            proof {
                                assert(t_cur == Tree::Fork(Box::new(t_left), Box::new(t_right)));
                            }
                            let nxt: usize = if bit {
                                rx
                            } else {
                                lx
                            };
                            let ghost t_next = tree_at(self.nodes@, nxt as int);
                            proof {
                                crate::tree::lemma_syms_nonempty(t_left);
                                crate::tree::lemma_syms_nonempty(t_right);
                                crate::tree::lemma_child_syms_strict(t_left, t_right);
                                assert(t_next.syms().subset_of(t_cur.syms()));
                                assert(t_next.syms() != t_cur.syms());
                                assert(t_next.syms().subset_of(t.syms()));
                                assert(t_next.syms() != t.syms()) by {
                                    if t_next.syms() == t.syms() {
                                        assert(t_cur.syms().subset_of(t.syms()));
                                        assert(t.syms().subset_of(t_cur.syms()));
                                        assert(t_cur.syms() =~= t.syms());
                                    }
                                }
                                assert(t_next.distinct());
                                assert(node_ok(self.nodes@, nxt as int));
                            }
                            let nxt_is_leaf = self.nodes[nxt].is_leaf();
                            if nxt_is_leaf {
                                match self.nodes[nxt].value {
                                    Some(v) => {
                                        proof {
                                            assert(t_next == Tree::Leaf(v));
                                        }
                                        let ghost out_prev = out@;
                                        out.push(v);
                                        proof {
                                            assert forall|tail: Seq<u8>|
                                                (out_prev + (seq![v] + tail)) =~= (out@
                                                    + tail) by {
                                                assert(out@ =~= out_prev.push(v));
                                            }
                                            bc = bc + 1;
                                        }
                                        cur = self.root;
                                    },
                                    None => {
                                        proof {
                                            assert(false);
                                        }
                                    },
                                }
                            } else {
                                proof {
                                    assert(t_next is Fork);
                                    bc = bc + 1;
                                }
                                cur = nxt;
                            }
                        },
                        _ => {
                            proof {
                                assert(false);
                            }
                        },
                    }
                    j = j + 1;
                }
                proof {
                    if index as int + 1 == data@.len() {
                        assert(bc == bits.len() as int) by {
                            assert(index * 8 + (8 - pad) == data@.len() * 8 - pad)
                                by (nonlinear_arith)
                                requires
                                    index as int + 1 == data@.len(),
                            ;
                        }
                    }
                }
                index = index + 1;
            }
            proof {
                assert(bc == bits.len() as int);
                assert(bits.skip(bc) =~= Seq::<bool>::empty());
            }
            if cur == self.root {
                proof {
                    assert(walk_bits(t, tree_at(self.nodes@, cur as int), bits.skip(bc)) == Some(
                        Seq::<u8>::empty(),
                    ));
                    assert(out@ + Seq::<u8>::empty() =~= out@);
                    assert(walk_bits(t, t, bits) == Some(out@));
                }
                Ok(out)
            } else {
                proof {
                    assert(tree_at(self.nodes@, cur as int) != t);
                    assert(walk_bits(t, tree_at(self.nodes@, cur as int), bits.skip(bc))
                        is None);
                    assert(walk_bits(t, t, bits) is None);
                }
                Err(HuffmanError::TruncatedPayload)
            }
        }
    }
}

/// The meaning of decoding: a lone-leaf tree emits its symbol once per
/// valid bit; any other tree is walked over the valid bits of the stream.
pub open spec fn spec_decode(t: Tree, data: Seq<u8>, pad: int) -> Result<Seq<u8>, HuffmanError> {
    match t {
        Tree::Leaf(s) => Ok(Seq::new((data.len() * 8 - pad) as nat, |i: int| s)),
        Tree::Fork(_, _) => match walk_bits(t, t, payload_bits(data, pad)) {
            Some(out) => Ok(out),
            None => Err(HuffmanError::TruncatedPayload),
        },
    }
}

} // verus!
