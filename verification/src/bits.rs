//! Bit-level bookkeeping: the meaning of a packed byte stream as a sequence
//! of bits (most significant bit first), and a cursor that packs bits into
//! bytes with zero-filled padding on the final byte.

use vstd::prelude::*;

verus! {

/// The numeric value a single bit contributes.
pub open spec fn bit_val(b: bool) -> int {
    if b {
        1
    } else {
        0
    }
}

/// Two to the power `n`.
pub open spec fn two_to(n: nat) -> int
    decreases n,
{
    if n == 0 {
        1
    } else {
        2 * two_to((n - 1) as nat)
    }
}

/// The value of a bit string read most-significant-bit first.
pub open spec fn bits_value(bits: Seq<bool>) -> int
    decreases bits.len(),
{
    if bits.len() == 0 {
        0
    } else {
        bits_value(bits.drop_last()) * 2 + bit_val(bits.last())
    }
}

/// The eight bits of a byte, most significant first.
pub open spec fn byte_bits(b: u8) -> Seq<bool> {
    Seq::new(8, |i: int| (b >> ((7 - i) as u8)) & 1u8 == 1u8)
}

/// All bits of a byte stream, most significant bit of each byte first.
pub open spec fn stream_bits(data: Seq<u8>) -> Seq<bool> {
    Seq::new(data.len() * 8, |i: int| byte_bits(data[i / 8])[i % 8])
}

/// The valid bits of a packed payload: all bits except the last `pad`
/// filler bits of the final byte.
pub open spec fn payload_bits(data: Seq<u8>, pad: int) -> Seq<bool> {
    stream_bits(data).take(data.len() * 8 - pad)
}

/// How many filler bits a bit string of length `n` needs to reach a byte
/// boundary.
pub open spec fn spec_padding(n: nat) -> int {
    if n % 8 == 0 {
        0
    } else {
        8 - n % 8
    }
}

/// A sequence of `n` zero bits.
pub open spec fn zero_bits(n: nat) -> Seq<bool> {
    Seq::new(n, |i: int| false)
}

/// The packed bytes of a bit string: the string is zero-filled up to a byte
/// boundary and cut into bytes.
pub open spec fn pack_bytes(bits: Seq<bool>) -> Seq<u8> {
    let padded = bits + zero_bits(spec_padding(bits.len()) as nat);
    Seq::new(padded.len() / 8, |k: int| bits_value(padded.subrange(8 * k, 8 * k + 8)) as u8)
}

/// Only the completely filled bytes of a bit string: the trailing partial
/// byte, if any, is dropped.
pub open spec fn whole_bytes(bits: Seq<bool>) -> Seq<u8> {
    pack_bytes(bits.take(8 * (bits.len() as int / 8)))
}

pub proof fn lemma_bits_value_bound(bits: Seq<bool>)
    ensures
        0 <= bits_value(bits) < two_to(bits.len()),
    decreases bits.len(),
{
    if bits.len() > 0 {
        lemma_bits_value_bound(bits.drop_last());
    }
}

/// Reading the eight bits of a byte back off gives the byte's value.
pub proof fn lemma_byte_bits_value(x: u8, bits: Seq<bool>)
    requires
        bits.len() == 8,
        bits_value(bits) == x as int,
    ensures
        byte_bits(x) =~= bits,
{
    let s7 = bits.drop_last();
    let s6 = s7.drop_last();
    let s5 = s6.drop_last();
    let s4 = s5.drop_last();
    let s3 = s4.drop_last();
    let s2 = s3.drop_last();
    let s1 = s2.drop_last();
    let s0 = s1.drop_last();
    assert(s0.len() == 0);
    let b0 = bits[0];
    let b1 = bits[1];
    let b2 = bits[2];
    let b3 = bits[3];
    let b4 = bits[4];
    let b5 = bits[5];
    let b6 = bits[6];
    let b7 = bits[7];
    assert(bits_value(bits) == bits_value(s7) * 2 + bit_val(b7));
    assert(bits_value(s7) == bits_value(s6) * 2 + bit_val(b6));
    assert(bits_value(s6) == bits_value(s5) * 2 + bit_val(b5));
    assert(bits_value(s5) == bits_value(s4) * 2 + bit_val(b4));
    assert(bits_value(s4) == bits_value(s3) * 2 + bit_val(b3));
    assert(bits_value(s3) == bits_value(s2) * 2 + bit_val(b2));
    assert(bits_value(s2) == bits_value(s1) * 2 + bit_val(b1));
    assert(bits_value(s1) == bits_value(s0) * 2 + bit_val(b0));
    assert(bits_value(s0) == 0);
    assert(bits_value(bits) == ((((((bit_val(b0) * 2 + bit_val(b1)) * 2 + bit_val(b2)) * 2
        + bit_val(b3)) * 2 + bit_val(b4)) * 2 + bit_val(b5)) * 2 + bit_val(b6)) * 2 + bit_val(b7));
    assert(((x >> 7u8) & 1u8 == 1u8) == b0 && ((x >> 6u8) & 1u8 == 1u8) == b1 && ((x >> 5u8) & 1u8
        == 1u8) == b2 && ((x >> 4u8) & 1u8 == 1u8) == b3 && ((x >> 3u8) & 1u8 == 1u8) == b4 && ((x
        >> 2u8) & 1u8 == 1u8) == b5 && ((x >> 1u8) & 1u8 == 1u8) == b6 && ((x >> 0u8) & 1u8 == 1u8)
        == b7) by (bit_vector)
        requires
            x == ((((((((if b0 {
                1int
            } else {
                0int
            }) * 2 + (if b1 {
                1int
            } else {
                0int
            })) * 2 + (if b2 {
                1int
            } else {
                0int
            })) * 2 + (if b3 {
                1int
            } else {
                0int
            })) * 2 + (if b4 {
                1int
            } else {
                0int
            })) * 2 + (if b5 {
                1int
            } else {
                0int
            })) * 2 + (if b6 {
                1int
            } else {
                0int
            })) * 2 + (if b7 {
                1int
            } else {
                0int
            })),
    ;
    assert forall|i: int| 0 <= i < 8 implies byte_bits(x)[i] == bits[i] by {
        if i == 0 {
            assert(byte_bits(x)[0] == ((x >> 7u8) & 1u8 == 1u8));
        } else if i == 1 {
            assert(byte_bits(x)[1] == ((x >> 6u8) & 1u8 == 1u8));
        } else if i == 2 {
            assert(byte_bits(x)[2] == ((x >> 5u8) & 1u8 == 1u8));
        } else if i == 3 {
            assert(byte_bits(x)[3] == ((x >> 4u8) & 1u8 == 1u8));
        } else if i == 4 {
            assert(byte_bits(x)[4] == ((x >> 3u8) & 1u8 == 1u8));
        } else if i == 5 {
            assert(byte_bits(x)[5] == ((x >> 2u8) & 1u8 == 1u8));
        } else if i == 6 {
            assert(byte_bits(x)[6] == ((x >> 1u8) & 1u8 == 1u8));
        } else {
            assert(byte_bits(x)[7] == ((x >> 0u8) & 1u8 == 1u8));
        }
    }
}

/// The converse direction: the value of a byte's bits is the byte.
pub proof fn lemma_value_of_byte_bits(x: u8)
    ensures
        bits_value(byte_bits(x)) == x as int,
{
    let bits = byte_bits(x);
    let s7 = bits.drop_last();
    let s6 = s7.drop_last();
    let s5 = s6.drop_last();
    let s4 = s5.drop_last();
    let s3 = s4.drop_last();
    let s2 = s3.drop_last();
    let s1 = s2.drop_last();
    let s0 = s1.drop_last();
    assert(s0.len() == 0);
    assert(bits_value(bits) == bits_value(s7) * 2 + bit_val(bits[7]));
    assert(bits_value(s7) == bits_value(s6) * 2 + bit_val(bits[6]));
    assert(bits_value(s6) == bits_value(s5) * 2 + bit_val(bits[5]));
    assert(bits_value(s5) == bits_value(s4) * 2 + bit_val(bits[4]));
    assert(bits_value(s4) == bits_value(s3) * 2 + bit_val(bits[3]));
    assert(bits_value(s3) == bits_value(s2) * 2 + bit_val(bits[2]));
    assert(bits_value(s2) == bits_value(s1) * 2 + bit_val(bits[1]));
    assert(bits_value(s1) == bits_value(s0) * 2 + bit_val(bits[0]));
    assert(bits_value(s0) == 0);
    assert(bits_value(bits) == ((((((bit_val(bits[0]) * 2 + bit_val(bits[1])) * 2 + bit_val(
        bits[2],
    )) * 2 + bit_val(bits[3])) * 2 + bit_val(bits[4])) * 2 + bit_val(bits[5])) * 2 + bit_val(
        bits[6],
    )) * 2 + bit_val(bits[7]));
    assert(((((((((if (x >> 7u8) & 1u8 == 1u8 {
        1int
    } else {
        0int
    }) * 2 + (if (x >> 6u8) & 1u8 == 1u8 {
        1int
    } else {
        0int
    })) * 2 + (if (x >> 5u8) & 1u8 == 1u8 {
        1int
    } else {
        0int
    })) * 2 + (if (x >> 4u8) & 1u8 == 1u8 {
        1int
    } else {
        0int
    })) * 2 + (if (x >> 3u8) & 1u8 == 1u8 {
        1int
    } else {
        0int
    })) * 2 + (if (x >> 2u8) & 1u8 == 1u8 {
        1int
    } else {
        0int
    })) * 2 + (if (x >> 1u8) & 1u8 == 1u8 {
        1int
    } else {
        0int
    })) * 2 + (if (x >> 0u8) & 1u8 == 1u8 {
        1int
    } else {
        0int
    })) == x as int) by (bit_vector);
}

/// Appending zero bits multiplies the value by the matching power of two.
pub proof fn lemma_bits_value_append_zeros(bits: Seq<bool>, m: nat)
    ensures
        bits_value(bits + zero_bits(m)) == bits_value(bits) * two_to(m),
    decreases m,
{
    if m == 0 {
        assert(bits + zero_bits(0) =~= bits);
    } else {
        let shorter = bits + zero_bits((m - 1) as nat);
        let longer = bits + zero_bits(m);
        assert(longer.drop_last() =~= shorter);
        assert(longer.last() == false);
        lemma_bits_value_append_zeros(bits, (m - 1) as nat);
        assert(bits_value(longer) == bits_value(bits) * two_to((m - 1) as nat) * 2);
        assert(bits_value(bits) * two_to((m - 1) as nat) * 2 == bits_value(bits) * (2 * two_to(
            (m - 1) as nat,
        ))) by (nonlinear_arith);
    }
}

/// Appending one byte appends its eight bits to the stream.
pub proof fn lemma_stream_bits_push(data: Seq<u8>, b: u8)
    ensures
        stream_bits(data.push(b)) =~= stream_bits(data) + byte_bits(b),
{
    let lhs = stream_bits(data.push(b));
    let rhs = stream_bits(data) + byte_bits(b);
    assert(lhs.len() == rhs.len());
    assert forall|i: int| 0 <= i < lhs.len() implies lhs[i] == rhs[i] by {
        if i < data.len() * 8 {
            assert(0 <= i / 8 < data.len() && i % 8 == i - 8 * (i / 8)) by (nonlinear_arith)
                requires
                    0 <= i < data.len() * 8,
            ;
            assert(data.push(b)[i / 8] == data[i / 8]);
        } else {
            let k = i - data.len() * 8;
            assert(i / 8 == data.len() && i % 8 == k) by (nonlinear_arith)
                requires
                    data.len() * 8 <= i < data.len() * 8 + 8 && k == i - data.len() * 8,
            ;
            assert(data.push(b)[i / 8] == b);
        }
    }
}

/// A cursor that packs a growing bit string into bytes, most significant
/// bit first, tracking the partially filled final byte.
pub struct BitCursor {
    data: Vec<u8>,
    acc: u8,
    nbits: u8,
    bits: Ghost<Seq<bool>>,
}

impl BitCursor {
    /// The bits written so far.
    pub closed spec fn bits(&self) -> Seq<bool> {
        self.bits@
    }

    pub closed spec fn wf(&self) -> bool {
        &&& self.nbits < 8
        &&& self.bits@.len() == self.data@.len() * 8 + self.nbits
        &&& stream_bits(self.data@) =~= self.bits@.take((self.data@.len() * 8) as int)
        &&& bits_value(self.bits@.skip((self.data@.len() * 8) as int)) == self.acc as int
    }

    pub fn new() -> (r: BitCursor)
        ensures
            r.wf(),
            r.bits() == Seq::<bool>::empty(),
    {
        let r = BitCursor { data: Vec::new(), acc: 0, nbits: 0, bits: Ghost(Seq::empty()) };
        proof {
            assert(r.bits@.take(0) =~= Seq::<bool>::empty());
            assert(stream_bits(r.data@) =~= Seq::<bool>::empty());
            assert(r.bits@.skip(0) =~= Seq::<bool>::empty());
        }
        r
    }

    pub fn push_bit(&mut self, b: bool)
        requires
            old(self).wf(),
        ensures
            final(self).wf(),
            final(self).bits() == old(self).bits().push(b),
    {
        let ghost prev = *self;
        let bv: u8 = if b {
            1
        } else {
            0
        };
        proof {
            let partial = prev.bits@.skip((prev.data@.len() * 8) as int);
            lemma_bits_value_bound(partial);
            lemma_two_to_small();
            assert(two_to(partial.len()) <= 128) by {
                lemma_two_to_monotone(partial.len(), 7);
            }
        }
        assert(self.acc < 128);
        let newacc: u8 = (self.acc << 1u8) | bv;
        proof {
            let acc = prev.acc;
            assert(acc < 128 && bv <= 1 ==> ((acc << 1u8) | bv) == 2 * acc + bv) by (bit_vector);
        }
        self.acc = newacc;
        self.nbits = self.nbits + 1;
        self.bits = Ghost(self.bits@.push(b));
        proof {
            let partial = prev.bits@.skip((prev.data@.len() * 8) as int);
            let newpartial = self.bits@.skip((self.data@.len() * 8) as int);
            assert(newpartial =~= partial.push(b));
            assert(newpartial.drop_last() =~= partial);
            assert(bits_value(newpartial) == 2 * bits_value(partial) + bit_val(b));
            assert(self.bits@.take((self.data@.len() * 8) as int) =~= prev.bits@.take(
                (prev.data@.len() * 8) as int,
            ));
        }
        if self.nbits == 8 {
            let full = self.acc;
            proof {
                let partial = self.bits@.skip((self.data@.len() * 8) as int);
                assert(partial.len() == 8);
                lemma_byte_bits_value(full, partial);
                lemma_stream_bits_push(self.data@, full);
                assert(stream_bits(self.data@) + byte_bits(full) =~= self.bits@.take(
                    (self.data@.len() * 8) as int,
                ) + partial);
                assert(self.bits@.take((self.data@.len() * 8) as int) + partial =~= self.bits@);
            }
            self.data.push(full);
            self.acc = 0;
            self.nbits = 0;
            proof {
                assert(self.bits@.take((self.data@.len() * 8) as int) =~= self.bits@);
                assert(self.bits@.skip((self.data@.len() * 8) as int) =~= Seq::<bool>::empty());
            }
        }
    }

    /// Hand back only the completely filled bytes; the bits of a
    /// partially filled final byte are discarded.
    pub fn full_bytes(self) -> (r: Vec<u8>)
        requires
            self.wf(),
        ensures
            r@ =~= whole_bytes(self.bits()),
    {
        let BitCursor { data, acc: _, nbits, bits } = self;
        proof {
            let all = bits@;
            let nd = data@.len() as int;
            let fullbits = all.take(8 * (all.len() as int / 8));
            assert(all.len() as int / 8 == nd) by (nonlinear_arith)
                requires
                    all.len() == 8 * nd + nbits && 0 <= nbits < 8 && nd >= 0,
            ;
            assert(fullbits =~= all.take(8 * nd));
            assert(fullbits.len() == 8 * nd);
            assert(fullbits.len() % 8 == 0) by (nonlinear_arith)
                requires
                    fullbits.len() == 8 * nd && nd >= 0,
            ;
            assert(spec_padding(fullbits.len()) == 0);
            assert(stream_bits(data@) =~= fullbits);
            lemma_pack_of_full_stream(data@, fullbits);
            assert(pack_bytes(fullbits) =~= pack_bytes_of_padded(fullbits, 0));
        }
        data
    }

    /// Zero-fill the final byte and hand back the packed bytes with the
    /// count of filler bits.
    pub fn finish(self) -> (r: (Vec<u8>, u8))
        requires
            self.wf(),
        ensures
            r.1 as int == spec_padding(self.bits().len()),
            r.0@ =~= pack_bytes(self.bits()),
            payload_bits(r.0@, r.1 as int) =~= self.bits(),
            r.1 > 0 ==> r.0@.len() > 0 && r.0@.last() as int % two_to(r.1 as nat) == 0,
    {
        let BitCursor { mut data, acc, nbits, bits } = self;
        let ghost all = bits@;
        let ghost partial = all.skip((data@.len() * 8) as int);
        if nbits == 0 {
            proof {
                assert(all.len() % 8 == 0) by (nonlinear_arith)
                    requires
                        all.len() == data@.len() * 8,
                ;
                assert(spec_padding(all.len()) == 0);
                lemma_pack_of_full_stream(data@, all);
                assert(payload_bits(data@, 0) =~= all);
            }
            (data, 0)
        } else {
            let pad: u8 = 8 - nbits;
            let full: u8 = acc << pad;
            proof {
                lemma_bits_value_bound(partial);
                lemma_two_to_monotone(partial.len(), 7);
                lemma_two_to_small();
                lemma_bits_value_append_zeros(partial, pad as nat);
                let padded8 = partial + zero_bits(pad as nat);
                assert(padded8.len() == 8);
                let a = acc;
                lemma_two_to_small();
                assert(bits_value(partial) < two_to(partial.len()));
                assert(a < two_to(nbits as nat));
                if pad == 1 {
                    assert(a < 128 ==> (a << 1u8) == a * 2) by (bit_vector);
                } else if pad == 2 {
                    assert(a < 64 ==> (a << 2u8) == a * 4) by (bit_vector);
                } else if pad == 3 {
                    assert(a < 32 ==> (a << 3u8) == a * 8) by (bit_vector);
                } else if pad == 4 {
                    assert(a < 16 ==> (a << 4u8) == a * 16) by (bit_vector);
                } else if pad == 5 {
                    assert(a < 8 ==> (a << 5u8) == a * 32) by (bit_vector);
                } else if pad == 6 {
                    assert(a < 4 ==> (a << 6u8) == a * 64) by (bit_vector);
                } else {
                    assert(a < 2 ==> (a << 7u8) == a * 128) by (bit_vector);
                }
                assert(full as int == a as int * two_to(pad as nat));
                vstd::arithmetic::div_mod::lemma_mod_multiples_basic(a as int, two_to(pad as nat));
                assert(bits_value(padded8) == full as int);
                lemma_byte_bits_value(full, padded8);
                lemma_stream_bits_push(data@, full);
                let total = all.len() as int + pad as int;
                assert((data@.len() * 8 + nbits as int + pad as int) == (data@.len() + 1) * 8)
                    by (nonlinear_arith)
                    requires
                        nbits as int + pad as int == 8,
                ;
                assert(all.len() % 8 == nbits as int) by (nonlinear_arith)
                    requires
                        all.len() == data@.len() * 8 + nbits && 0 < nbits < 8,
                ;
                assert(spec_padding(all.len()) == pad as int);
            }
            data.push(full);
            proof {
                let newdata = data@;
                assert(stream_bits(newdata) =~= all + zero_bits(pad as nat)) by {
                    assert(stream_bits(newdata.drop_last().push(full)) =~= stream_bits(
                        newdata.drop_last(),
                    ) + byte_bits(full)) by {
                        lemma_stream_bits_push(newdata.drop_last(), full);
                    }
                    assert(newdata.drop_last().push(full) =~= newdata);
                    assert(byte_bits(full) =~= partial + zero_bits(pad as nat));
                    assert(all.take((newdata.len() - 1) * 8) + partial =~= all);
                }
                lemma_pack_of_full_stream(newdata, all + zero_bits(pad as nat));
                assert(pack_bytes(all) =~= pack_bytes_of_padded(all, pad as nat));
                assert(payload_bits(newdata, pad as int) =~= all) by {
                    assert(newdata.len() * 8 - pad == all.len());
                    assert(stream_bits(newdata).take(all.len() as int) =~= all);
                }
                assert(full as int % two_to(pad as nat) == 0);
            }
            (data, pad)
        }
    }
}

pub proof fn lemma_two_to_small()
    ensures
        two_to(0) == 1,
        two_to(1) == 2,
        two_to(2) == 4,
        two_to(3) == 8,
        two_to(4) == 16,
        two_to(5) == 32,
        two_to(6) == 64,
        two_to(7) == 128,
        two_to(8) == 256,
{
    assert(two_to(0) == 1);
    assert(two_to(1) == 2);
    assert(two_to(2) == 4);
    assert(two_to(3) == 8);
    assert(two_to(4) == 16);
    assert(two_to(5) == 32);
    assert(two_to(6) == 64);
    assert(two_to(7) == 128);
}

pub proof fn lemma_two_to_monotone(a: nat, b: nat)
    requires
        a <= b,
    ensures
        two_to(a) <= two_to(b),
        two_to(a) >= 1,
    decreases b,
{
    if b > 0 {
        if a == b {
            lemma_two_to_monotone((a - 1) as nat, (b - 1) as nat);
        } else {
            lemma_two_to_monotone(a, (b - 1) as nat);
        }
    }
}

/// For a bit string that already ends on a byte boundary, packing is just
/// cutting the stream into bytes.
proof fn lemma_pack_of_full_stream(data: Seq<u8>, all: Seq<bool>)
    requires
        all.len() == data.len() * 8,
        stream_bits(data) =~= all,
    ensures
        pack_bytes_of_padded(all, 0) =~= data,
{
    let packed = pack_bytes_of_padded(all, 0);
    assert(all + zero_bits(0) =~= all);
    assert(packed.len() == data.len()) by (nonlinear_arith)
        requires
            packed.len() == all.len() / 8 && all.len() == data.len() * 8,
    ;
    assert forall|k: int| 0 <= k < data.len() implies packed[k] == data[k] by {
        let chunk = all.subrange(8 * k, 8 * k + 8);
        assert forall|j: int| 0 <= j < 8 implies chunk[j] == byte_bits(data[k])[j] by {
            let i = 8 * k + j;
            assert(i / 8 == k && i % 8 == j) by (nonlinear_arith)
                requires
                    0 <= j < 8 && i == 8 * k + j && k >= 0,
            ;
            assert(all[i] == byte_bits(data[i / 8])[i % 8]);
        }
        assert(chunk =~= byte_bits(data[k]));
        lemma_value_of_byte_bits(data[k]);
        assert(bits_value(chunk) == data[k] as int);
    }
}

/// Helper naming the packed form of a padded bit string so the two pack
/// expressions can be compared.
pub open spec fn pack_bytes_of_padded(bits: Seq<bool>, pad: nat) -> Seq<u8> {
    let padded = bits + zero_bits(pad);
    Seq::new(padded.len() / 8, |k: int| bits_value(padded.subrange(8 * k, 8 * k + 8)) as u8)
}

/// Packing fills the bit string to a whole number of bytes.
pub proof fn lemma_pack_len(bits: Seq<bool>)
    ensures
        8 * pack_bytes(bits).len() == bits.len() + spec_padding(bits.len()),
{
    let pad = spec_padding(bits.len());
    let m = bits.len() + pad;
    vstd::arithmetic::div_mod::lemma_fundamental_div_mod(bits.len() as int, 8);
    if bits.len() % 8 == 0 {
        assert(m == 8 * ((bits.len() as int) / 8));
        vstd::arithmetic::div_mod::lemma_mod_multiples_basic((bits.len() as int) / 8, 8);
    } else {
        assert(m == 8 * ((bits.len() as int) / 8) + 8);
        assert(m == ((bits.len() as int) / 8 + 1) * 8) by (nonlinear_arith)
            requires
                m == 8 * ((bits.len() as int) / 8) + 8,
        ;
        vstd::arithmetic::div_mod::lemma_mod_multiples_basic((bits.len() as int) / 8 + 1, 8);
    }
    assert(m % 8 == 0);
    vstd::arithmetic::div_mod::lemma_fundamental_div_mod(m as int, 8);
    assert(pack_bytes(bits).len() == m / 8);
}

/// Reading the valid bits back out of a packed byte stream gives the
/// original bit string.
pub proof fn lemma_unpack_pack(bits: Seq<bool>)
    ensures
        payload_bits(pack_bytes(bits), spec_padding(bits.len())) =~= bits,
{
    let pad = spec_padding(bits.len());
    let padded = bits + zero_bits(pad as nat);
    let pb = pack_bytes(bits);
    lemma_pack_len(bits);
    assert(padded.len() == bits.len() + pad);
    assert(pb.len() * 8 == padded.len());
    lemma_two_to_small();
    assert forall|k: int| 0 <= k < pb.len() implies byte_bits(pb[k]) =~= padded.subrange(
        8 * k,
        8 * k + 8,
    ) by {
        let chunk = padded.subrange(8 * k, 8 * k + 8);
        assert(8 * k + 8 <= padded.len()) by (nonlinear_arith)
            requires
                0 <= k < pb.len() && pb.len() * 8 == padded.len(),
        ;
        lemma_bits_value_bound(chunk);
        assert(chunk.len() == 8);
        assert(pb[k] as int == bits_value(chunk));
        lemma_byte_bits_value(pb[k], chunk);
    }
    assert(stream_bits(pb).len() == pb.len() * 8);
    assert forall|i: int| 0 <= i < bits.len() implies stream_bits(pb)[i] == bits[i] by {
        assert(i < pb.len() * 8);
        assert(0 <= i / 8 < pb.len() && i % 8 == i - 8 * (i / 8) && 0 <= i % 8 < 8)
            by (nonlinear_arith)
            requires
                0 <= i < pb.len() * 8,
        ;
        let k = i / 8;
        let j = i % 8;
        assert(stream_bits(pb)[i] == byte_bits(pb[k])[j]);
        assert(byte_bits(pb[k]) =~= padded.subrange(8 * k, 8 * k + 8));
        assert(8 * k + 8 <= padded.len()) by (nonlinear_arith)
            requires
                0 <= k < pb.len() && pb.len() * 8 == padded.len(),
        ;
        assert(padded.subrange(8 * k, 8 * k + 8)[j] == padded[8 * k + j]);
        assert(8 * k + j == i);
        assert(padded[i] == bits[i]);
    }
    assert(payload_bits(pb, pad).len() == bits.len()) by {
        assert(pb.len() * 8 - pad == bits.len());
    }
}

} // verus!
