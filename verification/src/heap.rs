//! A byte-symbol Huffman encoder that owns its input: the tree is built
//! from a byte frequency table with the same deterministic merge policy as
//! the character engine, the code table is kept, and encoding emits only
//! the completely filled bytes of the code stream.

use vstd::prelude::*;
use crate::bits::{whole_bytes, BitCursor};
use crate::encoder::{assign_codes, build_tree, pairs_view};
use crate::queue::{table_ok, table_view, Frequencies, Frequency};
use crate::tree::{coded_bits, lemma_build_props, spec_build, table_sym_set, table_weight};
use crate::HuffmanError;

verus! {

/// A staged table entry: one symbol with its weight, as handed to the
/// tree builder.
pub struct HuffmanNode {
    weight: usize,
    value: Option<u8>,
}

impl HuffmanNode {
    fn init(freq: Frequency) -> (r: HuffmanNode)
        ensures
            r == (HuffmanNode { weight: freq.1, value: Some(freq.0) }),
    {
        HuffmanNode { weight: freq.1, value: Some(freq.0) }
    }

    fn weight(&self) -> (r: usize)
        ensures
            r == self.weight,
    {
        self.weight
    }
}

/// The encoder: the code table derived from the tree of a byte frequency
/// table, together with the input it will encode.
pub struct HuffmanEncoder {
    codes: Vec<Option<Vec<bool>>>,
    input: Vec<u8>,
    table: Ghost<Seq<(u8, int)>>,
}

impl HuffmanEncoder {
    /// The frequency table this encoder was built from.
    pub closed spec fn table(&self) -> Seq<(u8, int)> {
        self.table@
    }

    /// The input this encoder owns.
    pub closed spec fn input_view(&self) -> Seq<u8> {
        self.input@
    }

    pub closed spec fn wf(&self) -> bool {
        &&& self.table@.len() >= 1
        &&& table_ok(self.table@)
        &&& self.codes@.len() == 256
        &&& forall|s: u8|
            spec_build(self.table@).syms().contains(s) ==> ((
            #[trigger] self.codes@[s as int]) matches Some(c) && c@ == spec_build(
                self.table@,
            ).table_code(s))
        &&& forall|s: u8|
            !spec_build(self.table@).syms().contains(s) ==> (#[trigger] self.codes@[s as int])
                is None
    }

    /// Builds the tree and code table from the frequency table and takes
    /// a copy of the input. The same table always gives the same codes.
    pub fn new(frequencies: Frequencies, input: &Vec<u8>) -> (r: HuffmanEncoder)
        requires
            frequencies@.len() >= 1,
            table_ok(table_view(frequencies@)),
            table_weight(table_view(frequencies@)) <= usize::MAX,
        ensures
            r.wf(),
            r.table() == table_view(frequencies@),
            r.input_view() == input@,
    {
        let ghost tv = table_view(frequencies@);
        let mut pairs: Vec<(u8, usize)> = Vec::new();
        let mut k: usize = 0;
        while k < frequencies.len()
            invariant
                k <= frequencies@.len(),
                tv == table_view(frequencies@),
                pairs@.len() == k,
                forall|j: int| 0 <= j < k ==> (#[trigger] pairs_view(pairs@)[j]) == tv[j],
            decreases frequencies@.len() - k,
        {
            let f = frequencies[k];
            let node = HuffmanNode::init(f);
            let w = node.weight();
            match node.value {
                Some(sym) => {
                    let ghost pairs_old = pairs@;
                    pairs.push((sym, w));
                    proof {
                        assert forall|j: int| 0 <= j < k + 1 implies (
                        #[trigger] pairs_view(pairs@)[j]) == tv[j] by {
                            if j < k as int {
                                assert(pairs@[j] == pairs_old[j]);
                                assert(pairs_view(pairs_old)[j] == tv[j]);
                            } else {
                                assert(pairs@[j] == (f.0, f.1));
                            }
                        }
                    }
                },
                None => {
                    proof {
                        assert(false);
                    }
                },
            }
            k = k + 1;
        }
        proof {
            assert(pairs_view(pairs@) =~= tv);
            lemma_build_props(tv);
        }
        let built = build_tree(&pairs);
        let nodes = built.0;
        let root = built.1;
        let mut codes: Vec<Option<Vec<bool>>> = Vec::new();
        let mut j: usize = 0;
        while j < 256
            invariant
                j <= 256,
                codes@.len() == j,
                forall|q: int| 0 <= q < j ==> (#[trigger] codes@[q]) is None,
            decreases 256 - j,
        {
            codes.push(None);
            j = j + 1;
        }
        assign_codes(&nodes, root, &mut codes);
        let mut owned: Vec<u8> = Vec::new();
        let mut q: usize = 0;
        while q < input.len()
            invariant
                q <= input@.len(),
                owned@ =~= input@.take(q as int),
            decreases input@.len() - q,
        {
            owned.push(input[q]);
            proof {
                assert(input@.take(q as int).push(input@[q as int]) =~= input@.take(q as int + 1));
            }
            q = q + 1;
        }
        proof {
            assert(owned@ =~= input@);
        }
        HuffmanEncoder { codes, input: owned, table: Ghost(tv) }
    }

    /// Encodes the owned input: each byte's code is appended most
    /// significant bit first, and only completely filled bytes are kept.
    /// A byte without a table entry surfaces `UnknownSymbol`.
    pub fn encode(&mut self) -> (r: Result<Vec<u8>, HuffmanError>)
        requires
            old(self).wf(),
        ensures
            *final(self) == *old(self),
            (forall|i: int|
                0 <= i < old(self).input_view().len() ==> table_sym_set(
                    old(self).table(),
                ).contains(#[trigger] old(self).input_view()[i])) ==> (r matches Ok(v) && v@
                =~= whole_bytes(coded_bits(spec_build(old(self).table()), old(self).input_view()))),
            (exists|i: int|
                0 <= i < old(self).input_view().len() && !table_sym_set(old(self).table()).contains(
                    #[trigger] old(self).input_view()[i],
                )) ==> r == Err::<Vec<u8>, HuffmanError>(HuffmanError::UnknownSymbol),
    {
        let ghost tree = spec_build(self.table@);
        proof {
            lemma_build_props(self.table@);
            assert(tree.syms() =~= table_sym_set(self.table@));
        }
        let mut cursor = BitCursor::new();
        let mut i: usize = 0;
        proof {
            assert(coded_bits(tree, self.input@.take(0)) =~= Seq::<bool>::empty());
        }
        while i < self.input.len()
            invariant
                *self == *old(self),
                self.wf(),
                tree == spec_build(self.table@),
                tree.syms() =~= table_sym_set(self.table@),
                i <= self.input@.len(),
                cursor.wf(),
                cursor.bits() =~= coded_bits(tree, self.input@.take(i as int)),
                forall|j: int| 0 <= j < i ==> tree.syms().contains(#[trigger] self.input@[j]),
            decreases self.input@.len() - i,
        {
            let c = self.input[i];
            let cu = c as usize;
            match &self.codes[cu] {
                Some(code) => {
                    proof {
                        assert(tree.syms().contains(c)) by {
                            if !tree.syms().contains(c) {
                                assert(self.codes@[cu as int] is None);
                            }
                        }
                        assert(code@ == tree.table_code(c));
                    }
                    let ghost prefix = cursor.bits();
                    let mut j: usize = 0;
                    proof {
                        assert(prefix + code@.take(0) =~= prefix);
                    }
                    while j < code.len()
                        invariant
                            j <= code@.len(),
                            cursor.wf(),
                            cursor.bits() =~= prefix + code@.take(j as int),
                        decreases code@.len() - j,
                    {
                        let bit = code[j];
                        cursor.push_bit(bit);
                        proof {
                            assert((prefix + code@.take(j as int)).push(code@[j as int]) =~= prefix
                                + code@.take(j as int + 1));
                        }
                        j = j + 1;
                    }
                    proof {
                        assert(code@.take(code@.len() as int) =~= code@);
                        crate::tree::lemma_coded_bits_snoc(tree, self.input@.take(i as int), c);
                        assert(self.input@.take(i as int + 1) =~= self.input@.take(
                            i as int,
                        ).push(c));
                        assert(cursor.bits() =~= coded_bits(tree, self.input@.take(i as int + 1)));
                    }
                },
                None => {
                    proof {
                        assert(!tree.syms().contains(c)) by {
                            if tree.syms().contains(c) {
                                assert(self.codes@[cu as int] is Some);
                            }
                        }
                        assert(self.input@[i as int] == c);
                        assert(old(self).input_view()[i as int] == c);
                        assert(!table_sym_set(old(self).table()).contains(
                            old(self).input_view()[i as int],
                        ));
                    }
                    return Err(HuffmanError::UnknownSymbol);
                },
            }
            i = i + 1;
        }
        proof {
            assert(self.input@.take(self.input@.len() as int) =~= self.input@);
        }
        let encoded_data = cursor.full_bytes();
        Ok(encoded_data)
    }
}

} // verus!
