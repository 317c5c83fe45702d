//! The container format: the header (frequency table, padding count,
//! optional original-file extension) in a self-describing byte form, and
//! the framing of one output stream as a four-byte big-endian header
//! length, the header bytes, and the packed payload.
//!
//! Header layout: a four-byte big-endian entry count `n` (at least one),
//! then `n` entries of one symbol byte and an eight-byte big-endian count,
//! one padding byte in 0..=7, one extension tag byte (0 for none, 1 for
//! present), and for a present extension a four-byte big-endian length and
//! that many ASCII bytes.

use vstd::prelude::*;
use vstd::utf8::is_ascii_chars;
use crate::bits::{pack_bytes, payload_bits, spec_padding};
use crate::encoder::{
    bytes_view, char_table_ok, pad_of, spec_decode, Encoded, HuffmanEncoder,
};
use crate::frequency::{chars_of, char_view, frequency_counter, Frequencies, Frequency};
use crate::queue::{spec_frequencies, table_ok, lemma_spec_frequencies_props};
use crate::tree::{
    coded_bits, lemma_build_props, lemma_walk_coded, spec_build, table_sym_set, table_weight, Tree,
};
use crate::utils::Header;
use crate::HuffmanError;

verus! {

/// The value of four big-endian bytes.
pub open spec fn be32(b: Seq<u8>) -> int {
    (b[0] as int) * 0x1000000 + (b[1] as int) * 0x10000 + (b[2] as int) * 0x100 + (b[3] as int)
}

/// A value below 2^32 as four big-endian bytes.
pub open spec fn be32_bytes(n: int) -> Seq<u8> {
    seq![
        ((n / 0x1000000) % 256) as u8,
        ((n / 0x10000) % 256) as u8,
        ((n / 0x100) % 256) as u8,
        (n % 256) as u8,
    ]
}

/// The value of eight big-endian bytes.
pub open spec fn be64(b: Seq<u8>) -> int {
    (b[0] as int) * 0x100000000000000 + (b[1] as int) * 0x1000000000000 + (b[2] as int)
        * 0x10000000000 + (b[3] as int) * 0x100000000 + (b[4] as int) * 0x1000000 + (b[5] as int)
        * 0x10000 + (b[6] as int) * 0x100 + (b[7] as int)
}

/// A value below 2^64 as eight big-endian bytes.
pub open spec fn be64_bytes(n: int) -> Seq<u8> {
    seq![
        ((n / 0x100000000000000) % 256) as u8,
        ((n / 0x1000000000000) % 256) as u8,
        ((n / 0x10000000000) % 256) as u8,
        ((n / 0x100000000) % 256) as u8,
        ((n / 0x1000000) % 256) as u8,
        ((n / 0x10000) % 256) as u8,
        ((n / 0x100) % 256) as u8,
        (n % 256) as u8,
    ]
}

pub proof fn lemma_be32_round_trip(n: int)
    requires
        0 <= n < 0x100000000,
    ensures
        be32(be32_bytes(n)) == n,
{
    let x = n as u64;
    assert(((x / 0x1000000) % 256) * 0x1000000 + ((x / 0x10000) % 256) * 0x10000 + ((x / 0x100)
        % 256) * 0x100 + (x % 256) == x) by (bit_vector)
        requires
            x < 0x100000000,
    ;
}

pub proof fn lemma_be64_round_trip(n: int)
    requires
        0 <= n <= u64::MAX,
    ensures
        be64(be64_bytes(n)) == n,
{
    let x = n as u64;
    assert(((x / 0x100000000000000) % 256) * 0x100000000000000 + ((x / 0x1000000000000) % 256)
        * 0x1000000000000 + ((x / 0x10000000000) % 256) * 0x10000000000 + ((x / 0x100000000) % 256)
        * 0x100000000 + ((x / 0x1000000) % 256) * 0x1000000 + ((x / 0x10000) % 256) * 0x10000 + ((x
        / 0x100) % 256) * 0x100 + (x % 256) == x) by (bit_vector);
}

/// Appends a `u32` as four big-endian bytes.
fn push_be32(out: &mut Vec<u8>, n: u32)
    ensures
        final(out)@ =~= old(out)@ + be32_bytes(n as int),
{
    let b0 = (n >> 24u32) as u8;
    let b1 = ((n >> 16u32) & 0xff) as u8;
    let b2 = ((n >> 8u32) & 0xff) as u8;
    let b3 = (n & 0xff) as u8;
    proof {
        assert((n >> 24u32) == (n / 0x1000000) % 256 && ((n >> 16u32) & 0xff) == (n / 0x10000)
            % 256 && ((n >> 8u32) & 0xff) == (n / 0x100) % 256 && (n & 0xff) == n % 256)
            by (bit_vector);
    }
    out.push(b0);
    out.push(b1);
    out.push(b2);
    out.push(b3);
}

/// Appends a `u64` as eight big-endian bytes.
fn push_be64(out: &mut Vec<u8>, n: u64)
    ensures
        final(out)@ =~= old(out)@ + be64_bytes(n as int),
{
    let b0 = (n >> 56u64) as u8;
    let b1 = ((n >> 48u64) & 0xff) as u8;
    let b2 = ((n >> 40u64) & 0xff) as u8;
    let b3 = ((n >> 32u64) & 0xff) as u8;
    let b4 = ((n >> 24u64) & 0xff) as u8;
    let b5 = ((n >> 16u64) & 0xff) as u8;
    let b6 = ((n >> 8u64) & 0xff) as u8;
    let b7 = (n & 0xff) as u8;
    proof {
        assert((n >> 56u64) == (n / 0x100000000000000) % 256 && ((n >> 48u64) & 0xff) == (n
            / 0x1000000000000) % 256 && ((n >> 40u64) & 0xff) == (n / 0x10000000000) % 256 && ((n
            >> 32u64) & 0xff) == (n / 0x100000000) % 256 && ((n >> 24u64) & 0xff) == (n / 0x1000000)
            % 256 && ((n >> 16u64) & 0xff) == (n / 0x10000) % 256 && ((n >> 8u64) & 0xff) == (n
            / 0x100) % 256 && (n & 0xff) == n % 256) by (bit_vector);
    }
    out.push(b0);
    out.push(b1);
    out.push(b2);
    out.push(b3);
    out.push(b4);
    out.push(b5);
    out.push(b6);
    out.push(b7);
}

/// Reads four big-endian bytes at `off`.
fn read_be32(b: &Vec<u8>, off: usize) -> (r: u32)
    requires
        off + 4 <= b@.len(),
    ensures
        r as int == be32(b@.subrange(off as int, off as int + 4)),
{
    let l = b.len();
    proof {
        assert(l == b@.len());
    }
    let b0 = b[off];
    let b1 = b[off + 1];
    let b2 = b[off + 2];
    let b3 = b[off + 3];
    let r = ((b0 as u32) << 24u32) | ((b1 as u32) << 16u32) | ((b2 as u32) << 8u32) | (b3 as u32);
    proof {
        assert((((b0 as u32) << 24u32) | ((b1 as u32) << 16u32) | ((b2 as u32) << 8u32) | (
        b3 as u32)) == (b0 as u32) * 0x1000000 + (b1 as u32) * 0x10000 + (b2 as u32) * 0x100 + (
        b3 as u32)) by (bit_vector);
        assert(b@.subrange(off as int, off as int + 4)[0] == b0);
        assert(b@.subrange(off as int, off as int + 4)[1] == b1);
        assert(b@.subrange(off as int, off as int + 4)[2] == b2);
        assert(b@.subrange(off as int, off as int + 4)[3] == b3);
    }
    r
}

/// Reads eight big-endian bytes at `off`.
fn read_be64(b: &Vec<u8>, off: usize) -> (r: u64)
    requires
        off + 8 <= b@.len(),
    ensures
        r as int == be64(b@.subrange(off as int, off as int + 8)),
{
    let l = b.len();
    proof {
        assert(l == b@.len());
    }
    let b0 = b[off];
    let b1 = b[off + 1];
    let b2 = b[off + 2];
    let b3 = b[off + 3];
    let b4 = b[off + 4];
    let b5 = b[off + 5];
    let b6 = b[off + 6];
    let b7 = b[off + 7];
    let r = ((b0 as u64) << 56u64) | ((b1 as u64) << 48u64) | ((b2 as u64) << 40u64) | ((
    b3 as u64) << 32u64) | ((b4 as u64) << 24u64) | ((b5 as u64) << 16u64) | ((b6 as u64) << 8u64)
        | (b7 as u64);
    proof {
        assert((((b0 as u64) << 56u64) | ((b1 as u64) << 48u64) | ((b2 as u64) << 40u64) | ((
        b3 as u64) << 32u64) | ((b4 as u64) << 24u64) | ((b5 as u64) << 16u64) | ((b6 as u64)
            << 8u64) | (b7 as u64)) == (b0 as u64) * 0x100000000000000 + (b1 as u64)
            * 0x1000000000000 + (b2 as u64) * 0x10000000000 + (b3 as u64) * 0x100000000 + (
        b4 as u64) * 0x1000000 + (b5 as u64) * 0x10000 + (b6 as u64) * 0x100 + (b7 as u64))
            by (bit_vector);
        assert(b@.subrange(off as int, off as int + 8)[0] == b0);
        assert(b@.subrange(off as int, off as int + 8)[1] == b1);
        assert(b@.subrange(off as int, off as int + 8)[2] == b2);
        assert(b@.subrange(off as int, off as int + 8)[3] == b3);
        assert(b@.subrange(off as int, off as int + 8)[4] == b4);
        assert(b@.subrange(off as int, off as int + 8)[5] == b5);
        assert(b@.subrange(off as int, off as int + 8)[6] == b6);
        assert(b@.subrange(off as int, off as int + 8)[7] == b7);
    }
    r
}

/// The serialized frequency table: one symbol byte and an eight-byte
/// big-endian count per entry, in table order.
pub open spec fn entry_bytes(t: Seq<(u8, int)>) -> Seq<u8>
    decreases t.len(),
{
    if t.len() == 0 {
        Seq::empty()
    } else {
        entry_bytes(t.drop_last()) + seq![t.last().0] + be64_bytes(t.last().1)
    }
}

pub proof fn lemma_entry_bytes_len(t: Seq<(u8, int)>)
    ensures
        entry_bytes(t).len() == 9 * t.len(),
    decreases t.len(),
{
    if t.len() > 0 {
        lemma_entry_bytes_len(t.drop_last());
    }
}

pub proof fn lemma_entry_bytes_index(t: Seq<(u8, int)>, k: int)
    requires
        0 <= k < t.len(),
    ensures
        entry_bytes(t)[9 * k] == t[k].0,
        entry_bytes(t).subrange(9 * k + 1, 9 * k + 9) =~= be64_bytes(t[k].1),
    decreases t.len(),
{
    lemma_entry_bytes_len(t);
    lemma_entry_bytes_len(t.drop_last());
    if k == t.len() - 1 {
        assert(entry_bytes(t) == entry_bytes(t.drop_last()) + seq![t.last().0] + be64_bytes(
            t.last().1,
        ));
        assert(entry_bytes(t)[9 * k] == t.last().0);
    } else {
        lemma_entry_bytes_index(t.drop_last(), k);
        assert(t.drop_last()[k] == t[k]);
        assert(entry_bytes(t)[9 * k] == entry_bytes(t.drop_last())[9 * k]);
        assert(entry_bytes(t).subrange(9 * k + 1, 9 * k + 9) =~= entry_bytes(
            t.drop_last(),
        ).subrange(9 * k + 1, 9 * k + 9));
    }
}

/// ASCII characters as bytes.
pub open spec fn chars_bytes(s: Seq<char>) -> Seq<u8> {
    Seq::new(s.len(), |i: int| s[i] as u8)
}

/// The serialized extension: a tag byte, and for a present extension its
/// length and ASCII bytes.
pub open spec fn ext_bytes(e: Option<Seq<char>>) -> Seq<u8> {
    match e {
        None => seq![0u8],
        Some(s) => seq![1u8] + be32_bytes(s.len() as int) + chars_bytes(s),
    }
}

/// The serialized header.
pub open spec fn header_bytes(t: Seq<(u8, int)>, pad: int, e: Option<Seq<char>>) -> Seq<u8> {
    be32_bytes(t.len() as int) + entry_bytes(t) + seq![pad as u8] + ext_bytes(e)
}

/// The view of an optional string.
pub open spec fn opt_view(e: Option<String>) -> Option<Seq<char>> {
    match e {
        Some(s) => Some(s@),
        None => None,
    }
}

/// A header the container can persist.
pub open spec fn header_wf(h: Header) -> bool {
    &&& char_table_ok(h.frequencies@)
    &&& h.frequencies@.len() <= 256
    &&& 0 <= pad_of(h.padding) <= 7
    &&& (h.padding matches Some(p) ==> p >= 1)
    &&& (h.extension matches Some(e) ==> is_ascii_chars(e@) && e@.len() <= 0xFFFF)
}

/// At most 256 pairwise different byte symbols exist.
pub proof fn lemma_distinct_symbols_bound(t: Seq<(u8, int)>)
    requires
        forall|k1: int, k2: int|
            0 <= k1 < t.len() && 0 <= k2 < t.len() && k1 != k2 ==> (#[trigger] t[k1]).0 != (
            #[trigger] t[k2]).0,
    ensures
        t.len() <= 256,
{
    let syms: Seq<int> = Seq::new(t.len(), |k: int| t[k].0 as int);
    assert(syms.no_duplicates()) by {
        assert forall|i: int, j: int|
            0 <= i < syms.len() && 0 <= j < syms.len() && i != j implies syms[i] != syms[j] by {
            assert(t[i].0 != t[j].0);
        }
    }
    syms.unique_seq_to_set();
    assert(syms.to_set().subset_of(vstd::set_lib::set_int_range(0, 256))) by {
        assert forall|x: int| syms.to_set().contains(x) implies vstd::set_lib::set_int_range(
            0,
            256,
        ).contains(x) by {
            let k = choose|k: int| 0 <= k < syms.len() && syms[k] == x;
            assert(0 <= (t[k].0 as int) && (t[k].0 as int) < 256);
        }
    }
    vstd::set_lib::lemma_int_range(0, 256);
    vstd::set_lib::lemma_len_subset(syms.to_set(), vstd::set_lib::set_int_range(0, 256));
}

/// Serializes a header into its structured byte form.
pub fn serialize_header(h: &Header) -> (r: Vec<u8>)
    requires
        header_wf(*h),
    ensures
        r@ =~= header_bytes(bytes_view(h.frequencies@), pad_of(h.padding), opt_view(h.extension)),
        r@.len() < 0x10000000,
{
    let ghost t = bytes_view(h.frequencies@);
    let mut out: Vec<u8> = Vec::new();
    let n = h.frequencies.len();
    push_be32(&mut out, n as u32);
    proof {
        assert(out@ =~= be32_bytes(t.len() as int));
        assert(entry_bytes(t.take(0)) =~= Seq::<u8>::empty());
        assert(out@ + Seq::<u8>::empty() =~= out@);
        lemma_entry_bytes_len(t);
    }
    let mut k: usize = 0;
    while k < n
        invariant
            k <= n,
            n == h.frequencies@.len(),
            t == bytes_view(h.frequencies@),
            char_table_ok(h.frequencies@),
            out@ =~= be32_bytes(t.len() as int) + entry_bytes(t.take(k as int)),
        decreases n - k,
    {
        let f = h.frequencies[k];
        let u = f.0 as u32;
        let sym = u as u8;
        proof {
            assert(u < 256);
            assert(sym as int == u as int);
        }
        out.push(sym);
        push_be64(&mut out, f.1 as u64);
        proof {
            let tk1 = t.take(k as int + 1);
            assert(tk1.drop_last() =~= t.take(k as int));
            assert(tk1.last() == t[k as int]);
            assert(t[k as int] == (f.0 as u8, f.1 as int));
            assert(sym == f.0 as u8);
            assert(entry_bytes(tk1) == entry_bytes(t.take(k as int)) + seq![t[k as int].0]
                + be64_bytes(t[k as int].1));
            assert(out@ =~= be32_bytes(t.len() as int) + entry_bytes(tk1));
        }
        k = k + 1;
    }
    proof {
        assert(t.take(t.len() as int) =~= t);
    }
    let padb: u8 = match h.padding {
        Some(p) => p,
        None => 0,
    };
    out.push(padb);
    proof {
        assert(padb as int == pad_of(h.padding));
        assert(out@ =~= be32_bytes(t.len() as int) + entry_bytes(t) + seq![padb]);
    }
    match &h.extension {
        Some(e) => {
            let ghost es = e@;
            out.push(1u8);
            let elen = e.as_str().unicode_len();
            push_be32(&mut out, elen as u32);
            proof {
                vstd::utf8::is_ascii_chars_encode_utf8(es);
            }
            let eb = e.as_str().as_bytes_vec();
            let mut q: usize = 0;
            proof {
                assert(chars_bytes(es).take(0) =~= Seq::<u8>::empty());
                assert(out@ =~= be32_bytes(t.len() as int) + entry_bytes(t) + seq![padb]
                    + seq![1u8] + be32_bytes(es.len() as int) + Seq::<u8>::empty());
            }
            while q < eb.len()
                invariant
                    q <= eb@.len(),
                    eb@.len() == es.len(),
                    forall|i: int| 0 <= i < es.len() ==> es[i] as u8 == eb@[i],
                    t == bytes_view(h.frequencies@),
                    padb as int == pad_of(h.padding),
                    out@ =~= be32_bytes(t.len() as int) + entry_bytes(t) + seq![padb] + seq![1u8]
                        + be32_bytes(es.len() as int) + chars_bytes(es).take(q as int),
                decreases eb@.len() - q,
            {
                out.push(eb[q]);
                proof {
                    assert(chars_bytes(es).take(q as int).push(chars_bytes(es)[q as int])
                        =~= chars_bytes(es).take(q as int + 1));
                }
                q = q + 1;
            }
            proof {
                assert(chars_bytes(es).take(es.len() as int) =~= chars_bytes(es));
                assert(ext_bytes(opt_view(h.extension)) =~= seq![1u8] + be32_bytes(
                    es.len() as int,
                ) + chars_bytes(es));
                assert(out@ =~= header_bytes(t, pad_of(h.padding), opt_view(h.extension)));
                lemma_entry_bytes_len(t);
            }
        },
        None => {
            out.push(0u8);
            proof {
                assert(ext_bytes(opt_view(h.extension)) =~= seq![0u8]);
                assert(out@ =~= header_bytes(t, pad_of(h.padding), opt_view(h.extension)));
                lemma_entry_bytes_len(t);
            }
        },
    }
    out
}

/// The frequency table read off a header byte form holding `n` entries.
pub open spec fn parsed_table(b: Seq<u8>, n: int) -> Seq<(u8, int)> {
    Seq::new(n as nat, |k: int| (b[4 + 9 * k], be64(b.subrange(4 + 9 * k + 1, 4 + 9 * k + 9))))
}

/// What parsing a header byte form yields: the frequency table, the
/// padding count, and the optional extension; `MalformedHeader` when the
/// structure is broken, the table is empty or unsound, or the total count
/// does not fit a machine word; `InvalidPadding` when the padding byte
/// lies outside 0..=7.
pub open spec fn spec_parse_header(b: Seq<u8>) -> Result<
    (Seq<(u8, int)>, int, Option<Seq<char>>),
    HuffmanError,
> {
    if b.len() < 4 {
        Err(HuffmanError::MalformedHeader)
    } else {
        let n = be32(b.subrange(0, 4));
        if n < 1 {
            Err(HuffmanError::MalformedHeader)
        } else if b.len() < 4 + 9 * n + 2 {
            Err(HuffmanError::MalformedHeader)
        } else {
            let t = parsed_table(b, n);
            let pad = b[4 + 9 * n] as int;
            if pad > 7 {
                Err(HuffmanError::InvalidPadding)
            } else if !table_ok(t) {
                Err(HuffmanError::MalformedHeader)
            } else if table_weight(t) > usize::MAX {
                Err(HuffmanError::MalformedHeader)
            } else {
                let tag = b[4 + 9 * n + 1];
                if tag == 0 {
                    if b.len() == 4 + 9 * n + 2 {
                        Ok((t, pad, None))
                    } else {
                        Err(HuffmanError::MalformedHeader)
                    }
                } else if tag == 1 {
                    if b.len() < 4 + 9 * n + 6 {
                        Err(HuffmanError::MalformedHeader)
                    } else {
                        let el = be32(b.subrange(4 + 9 * n + 2, 4 + 9 * n + 6));
                        if el > 0xFFFF {
                            Err(HuffmanError::MalformedHeader)
                        } else if b.len() != 4 + 9 * n + 6 + el {
                            Err(HuffmanError::MalformedHeader)
                        } else {
                            let eb = b.subrange(4 + 9 * n + 6, b.len() as int);
                            if exists|i: int| 0 <= i < eb.len() && (#[trigger] eb[i]) >= 128 {
                                Err(HuffmanError::MalformedHeader)
                            } else {
                                Ok((t, pad, Some(Seq::new(eb.len(), |i: int| eb[i] as char))))
                            }
                        }
                    }
                } else {
                    Err(HuffmanError::MalformedHeader)
                }
            }
        }
    }
}

/// What decoding ASCII bytes into a string guarantees: when every byte is
/// below 128, the string holds the characters with the same values.
pub open spec fn ascii_decoded(bytes: Seq<u8>, r: Option<String>) -> bool {
    (forall|i: int| 0 <= i < bytes.len() ==> (#[trigger] bytes[i]) < 128) ==> (r matches Some(s)
        && s@ =~= Seq::new(bytes.len(), |i: int| bytes[i] as char))
}

/// Relies on `String::from_utf8`: bytes below 128 are valid UTF-8 and
/// decode to the characters with the same values.
#[verifier::external_body]
fn ascii_to_string(bytes: Vec<u8>) -> (r: Option<String>)
    ensures
        ascii_decoded(bytes@, r),
{
    String::from_utf8(bytes).ok()
}

/// The structural facts the header parser has established once the entry
/// count and the padding byte are in hand.
spec fn parse_ctx(bytes: Seq<u8>, blen: int, n: int, padb: u8) -> bool {
    &&& blen == bytes.len()
    &&& 4 <= blen
    &&& n == be32(bytes.subrange(0, 4))
    &&& n >= 1
    &&& 4 + 9 * n + 2 <= blen
    &&& padb == bytes[4 + 9 * n]
    &&& padb <= 7
}

/// A prefix of a sound table weighs no more than the whole.
proof fn lemma_table_weight_take(t: Seq<(u8, int)>, m: int)
    requires
        0 <= m <= t.len(),
        forall|k: int| 0 <= k < t.len() ==> (#[trigger] t[k]).1 >= 0,
    ensures
        table_weight(t.take(m)) <= table_weight(t),
    decreases t.len() - m,
{
    if m < t.len() {
        assert(t.take(m + 1).drop_last() =~= t.take(m));
        assert(t.take(m + 1).last() == t[m]);
        assert(table_weight(t.take(m + 1)) == table_weight(t.take(m)) + t[m].1);
        lemma_table_weight_take(t, m + 1);
        assert(t.take(t.len() as int) =~= t);
    } else {
        assert(t.take(m) =~= t);
    }
}

/// Parses the structured header byte form back into a header.
pub fn parse_header(bytes: &Vec<u8>) -> (r: Result<Header, HuffmanError>)
    ensures
        spec_parse_header(bytes@) matches Ok(trip) ==> (r matches Ok(h) && bytes_view(
            h.frequencies@,
        ) =~= trip.0 && pad_of(h.padding) == trip.1 && opt_view(h.extension) == trip.2
            && header_wf(h)),
        spec_parse_header(bytes@) matches Err(e) ==> r == Err::<Header, HuffmanError>(e),
{
    let blen = bytes.len();
    if blen < 6 {
        return Err(HuffmanError::MalformedHeader);
    }
    let n32 = read_be32(bytes, 0);
    let n = n32 as usize;
    proof {
        assert(n as int == be32(bytes@.subrange(0, 4)));
    }
    if n == 0 {
        return Err(HuffmanError::MalformedHeader);
    }
    let maxn = (blen - 6) / 9;
    if n > maxn {
        proof {
            vstd::arithmetic::div_mod::lemma_fundamental_div_mod(blen as int - 6, 9);
            assert(9 * (n as int) >= 9 * (((blen as int - 6) / 9) + 1)) by (nonlinear_arith)
                requires
                    n as int >= ((blen as int - 6) / 9) + 1,
            ;
            assert(blen < 4 + 9 * (n as int) + 2);
        }
        return Err(HuffmanError::MalformedHeader);
    }
    proof {
        vstd::arithmetic::div_mod::lemma_fundamental_div_mod(blen as int - 6, 9);
        assert(9 * (n as int) <= 9 * ((blen as int - 6) / 9)) by (nonlinear_arith)
            requires
                n as int <= (blen as int - 6) / 9,
        ;
        assert(4 + 9 * (n as int) + 2 <= blen);
    }
    let entries_end = 4 + 9 * n;
    let ghost t = parsed_table(bytes@, n as int);
    let mut raw: Vec<(u8, u64)> = Vec::new();
    let mut k: usize = 0;
    while k < n
        invariant
            k <= n,
            raw@.len() == k,
            n >= 1,
            blen == bytes@.len(),
            4 + 9 * n + 2 <= blen,
            t == parsed_table(bytes@, n as int),
            forall|j: int|
                0 <= j < k ==> ((#[trigger] raw@[j]).0 == t[j].0 && raw@[j].1 as int == t[j].1),
        decreases n - k,
    {
        proof {
            assert(9 * (k as int) + 9 <= 9 * (n as int)) by (nonlinear_arith)
                requires
                    k < n,
            ;
        }
        let sym = bytes[4 + 9 * k];
        let cnt = read_be64(bytes, 4 + 9 * k + 1);
        raw.push((sym, cnt));
        proof {
            assert(raw@[k as int].0 == t[k as int].0 && raw@[k as int].1 as int == t[k as int].1);
        }
        k = k + 1;
    }
    let padb = bytes[entries_end];
    proof {
        assert(padb == bytes@[4 + 9 * (n as int)]);
    }
    if padb > 7 {
        return Err(HuffmanError::InvalidPadding);
    }
    // pairwise different symbols
    let mut i1: usize = 1;
    while i1 < n
        invariant
            1 <= i1 <= n,
            raw@.len() == n,
            parse_ctx(bytes@, blen as int, n as int, padb),
            t == parsed_table(bytes@, n as int),
            forall|j: int|
                0 <= j < n ==> ((#[trigger] raw@[j]).0 == t[j].0 && raw@[j].1 as int == t[j].1),
            forall|a: int, b: int| 0 <= b < a < i1 ==> (#[trigger] t[a]).0 != (#[trigger] t[b]).0,
        decreases n - i1,
    {
        let mut i2: usize = 0;
        while i2 < i1
            invariant
                i1 < n,
                i2 <= i1,
                raw@.len() == n,
                parse_ctx(bytes@, blen as int, n as int, padb),
                t == parsed_table(bytes@, n as int),
                forall|j: int|
                    0 <= j < n ==> ((#[trigger] raw@[j]).0 == t[j].0 && raw@[j].1 as int == t[j].1),
                forall|b: int| 0 <= b < i2 ==> (#[trigger] t[b]).0 != t[i1 as int].0,
            decreases i1 - i2,
        {
            if raw[i1].0 == raw[i2].0 {
                proof {
                    assert(t[i1 as int].0 == t[i2 as int].0);
                    assert(!table_ok(t));
                }
                return Err(HuffmanError::MalformedHeader);
            }
            i2 = i2 + 1;
        }
        i1 = i1 + 1;
    }
    proof {
        assert forall|k1: int, k2: int|
            0 <= k1 < t.len() && 0 <= k2 < t.len() && k1 != k2 implies (#[trigger] t[k1]).0 != (
        #[trigger] t[k2]).0 by {
            if k1 < k2 {
                assert(t[k2].0 != t[k1].0);
            }
        }
    }
    // counts at least one, total count within a machine word, and the
    // table itself, symbols as characters
    let mut freqs: Frequencies = Vec::new();
    let mut total: usize = 0;
    let mut k2: usize = 0;
    proof {
        assert(t.take(0) =~= Seq::<(u8, int)>::empty());
        assert(char_view(freqs@) =~= chars_of(t.take(0)));
    }
    while k2 < n
        invariant
            k2 <= n,
            raw@.len() == n,
            n >= 1,
            parse_ctx(bytes@, blen as int, n as int, padb),
            t == parsed_table(bytes@, n as int),
            forall|j: int|
                0 <= j < n ==> ((#[trigger] raw@[j]).0 == t[j].0 && raw@[j].1 as int == t[j].1),
            forall|k1: int, k3: int|
                0 <= k1 < t.len() && 0 <= k3 < t.len() && k1 != k3 ==> (#[trigger] t[k1]).0 != (
                #[trigger] t[k3]).0,
            forall|j: int| 0 <= j < k2 ==> (#[trigger] t[j]).1 >= 1,
            freqs@.len() == k2,
            char_view(freqs@) =~= chars_of(t.take(k2 as int)),
            bytes_view(freqs@) =~= t.take(k2 as int),
            forall|j: int| 0 <= j < k2 ==> (#[trigger] freqs@[j]).1 as int == t[j].1,
            total as int == table_weight(t.take(k2 as int)),
        decreases n - k2,
    {
        let entry = raw[k2];
        if entry.1 == 0 {
            proof {
                assert(t[k2 as int].1 == 0);
                assert(!table_ok(t));
            }
            return Err(HuffmanError::MalformedHeader);
        }
        if entry.1 > (usize::MAX - total) as u64 {
            proof {
                assert forall|j: int| 0 <= j < t.len() implies (#[trigger] t[j]).1 >= 0 by {
                    assert(raw@[j].1 as int == t[j].1);
                }
                assert(t.take(k2 as int + 1).drop_last() =~= t.take(k2 as int));
                assert(t.take(k2 as int + 1).last() == t[k2 as int]);
                assert(table_weight(t.take(k2 as int + 1)) > usize::MAX);
                lemma_table_weight_take(t, k2 as int + 1);
                assert(table_weight(t) > usize::MAX);
            }
            return Err(HuffmanError::MalformedHeader);
        }
        let c = entry.0 as char;
        let ghost freqs_old = freqs@;
        freqs.push(Frequency(c, entry.1 as usize));
        total = total + entry.1 as usize;
        proof {
            assert(freqs_old.len() == k2);
            assert(t.take(k2 as int + 1).drop_last() =~= t.take(k2 as int));
            assert(t.take(k2 as int + 1).last() == t[k2 as int]);
            let cv = char_view(freqs@);
            let target = chars_of(t.take(k2 as int + 1));
            assert forall|j: int| 0 <= j < cv.len() implies cv[j] == target[j] by {
                if j < k2 as int {
                    assert(freqs@[j] == freqs_old[j]);
                    assert(cv[j] == char_view(freqs_old)[j]);
                    assert(char_view(freqs_old)[j] == chars_of(t.take(k2 as int))[j]);
                    assert(target[j] == chars_of(t.take(k2 as int))[j]);
                } else {
                    assert(freqs@[j] == Frequency(c, entry.1 as usize));
                    assert(target[j] == (t[k2 as int].0 as char, t[k2 as int].1));
                }
            }
            assert(cv =~= target);
            let bvv = bytes_view(freqs@);
            let btarget = t.take(k2 as int + 1);
            assert forall|j: int| 0 <= j < bvv.len() implies bvv[j] == btarget[j] by {
                if j < k2 as int {
                    assert(freqs@[j] == freqs_old[j]);
                    assert(bvv[j] == bytes_view(freqs_old)[j]);
                    assert(bytes_view(freqs_old)[j] == t.take(k2 as int)[j]);
                } else {
                    assert(freqs@[j] == Frequency(c, entry.1 as usize));
                    assert((c as u8) == entry.0);
                }
            }
            assert(bvv =~= btarget);
        }
        k2 = k2 + 1;
    }
    proof {
        assert(t.take(t.len() as int) =~= t);
        assert(table_ok(t));
        assert(table_weight(t) <= usize::MAX);
        lemma_distinct_symbols_bound(t);
        assert(char_view(freqs@) =~= chars_of(t));
        assert(bytes_view(freqs@) =~= t);
        assert(char_table_ok(freqs@)) by {
            assert(freqs@.len() == t.len());
            assert forall|k: int|
                0 <= k < freqs@.len() implies (((#[trigger] freqs@[k]).0 as u32) < 256
                && freqs@[k].1 >= 1) by {
                assert(char_view(freqs@)[k] == chars_of(t)[k]);
                assert(freqs@[k].0 == t[k].0 as char);
                assert(freqs@[k].1 as int == t[k].1);
                assert(t[k].1 >= 1);
            }
            assert forall|k1: int, k3: int|
                0 <= k1 < freqs@.len() && 0 <= k3 < freqs@.len() && k1 != k3 implies (
            #[trigger] freqs@[k1]).0 != (#[trigger] freqs@[k3]).0 by {
                assert(freqs@[k1].0 == t[k1].0 as char);
                assert(freqs@[k3].0 == t[k3].0 as char);
                assert(t[k1].0 != t[k3].0);
            }
            assert(table_weight(bytes_view(freqs@)) == table_weight(t));
        }
        assert(freqs@.len() <= 256);
    }
    let padding: Option<u8> = if padb > 0 {
        Some(padb)
    } else {
        None
    };
    let tag = bytes[entries_end + 1];
    if tag == 0 {
        if blen == entries_end + 2 {
            let h = Header { frequencies: freqs, extension: None, padding };
            proof {
                assert(header_wf(h)) by {
                    assert(char_table_ok(h.frequencies@)) by {
                        assert forall|k1: int, k3: int|
                            0 <= k1 < h.frequencies@.len() && 0 <= k3 < h.frequencies@.len() && k1
                                != k3 implies (#[trigger] h.frequencies@[k1]).0 != (
                        #[trigger] h.frequencies@[k3]).0 by {
                            assert(bytes_view(h.frequencies@)[k1].0 != bytes_view(
                                h.frequencies@,
                            )[k3].0);
                        }
                    }
                }
            }
            return Ok(h);
        } else {
            return Err(HuffmanError::MalformedHeader);
        }
    } else if tag == 1 {
        if blen < entries_end + 6 {
            return Err(HuffmanError::MalformedHeader);
        }
        let el32 = read_be32(bytes, entries_end + 2);
        proof {
            assert(el32 as int == be32(
                bytes@.subrange(4 + 9 * (n as int) + 2, 4 + 9 * (n as int) + 6),
            ));
        }
        if el32 > 0xFFFF {
            return Err(HuffmanError::MalformedHeader);
        }
        let el = el32 as usize;
        if blen - (entries_end + 6) != el {
            proof {
                assert(blen != 4 + 9 * (n as int) + 6 + el32 as int);
            }
            return Err(HuffmanError::MalformedHeader);
        }
        let ghost eb = bytes@.subrange(4 + 9 * (n as int) + 6, bytes@.len() as int);
        let mut ebv: Vec<u8> = Vec::new();
        let mut q: usize = 0;
        proof {
            assert(ebv@ =~= eb.take(0));
        }
        while q < el
            invariant
                q <= el,
                parse_ctx(bytes@, blen as int, n as int, padb),
                t == parsed_table(bytes@, n as int),
                table_ok(t),
                table_weight(t) <= usize::MAX,
                bytes@[4 + 9 * (n as int) + 1] == 1u8,
                el as int == be32(bytes@.subrange(4 + 9 * (n as int) + 2, 4 + 9 * (n as int) + 6)),
                el <= 0xFFFF,
                blen == entries_end + 6 + el,
                entries_end == 4 + 9 * n,
                eb == bytes@.subrange(4 + 9 * (n as int) + 6, bytes@.len() as int),
                eb.len() == el,
                ebv@ =~= eb.take(q as int),
                forall|j: int| 0 <= j < q ==> (#[trigger] eb[j]) < 128,
            decreases el - q,
        {
            let byt = bytes[entries_end + 6 + q];
            proof {
                assert(eb[q as int] == bytes@[4 + 9 * (n as int) + 6 + q]);
            }
            if byt >= 128 {
                proof {
                    assert(eb[q as int] >= 128);
                }
                return Err(HuffmanError::MalformedHeader);
            }
            ebv.push(byt);
            proof {
                assert(eb.take(q as int).push(eb[q as int]) =~= eb.take(q as int + 1));
            }
            q = q + 1;
        }
        proof {
            assert(ebv@ =~= eb);
            assert(forall|j: int| 0 <= j < eb.len() ==> (#[trigger] eb[j]) < 128);
        }
        match ascii_to_string(ebv) {
            Some(ext) => {
                let ghost exts = ext@;
                let h = Header { frequencies: freqs, extension: Some(ext), padding };
                proof {
                    assert(exts =~= Seq::new(eb.len(), |i: int| eb[i] as char));
                    assert(is_ascii_chars(exts)) by {
                        assert forall|i: int| 0 <= i < exts.len() implies '\0' <= #[trigger] exts[i]
                            <= '\u{7f}' by {
                            assert(exts[i] == eb[i] as char);
                            assert(eb[i] < 128);
                        }
                    }
                    assert(header_wf(h)) by {
                        assert(char_table_ok(h.frequencies@)) by {
                            assert forall|k1: int, k3: int|
                                0 <= k1 < h.frequencies@.len() && 0 <= k3 < h.frequencies@.len()
                                    && k1 != k3 implies (#[trigger] h.frequencies@[k1]).0 != (
                            #[trigger] h.frequencies@[k3]).0 by {
                                assert(bytes_view(h.frequencies@)[k1].0 != bytes_view(
                                    h.frequencies@,
                                )[k3].0);
                            }
                        }
                    }
                    assert(spec_parse_header(bytes@) matches Ok(trip) ==> trip.2 == Some(exts));
                }
                return Ok(h);
            },
            None => {
                proof {
                    assert(false);
                }
                return Err(HuffmanError::MalformedHeader);
            },
        }
    } else {
        return Err(HuffmanError::MalformedHeader);
    }
}

proof fn lemma_table_weight_nonneg(t: Seq<(u8, int)>)
    requires
        forall|j: int| 0 <= j < t.len() ==> (#[trigger] t[j]).1 >= 0,
    ensures
        table_weight(t) >= 0,
    decreases t.len(),
{
    if t.len() > 0 {
        let d = t.drop_last();
        assert(forall|j: int| 0 <= j < d.len() ==> (#[trigger] d[j]) == t[j]);
        lemma_table_weight_nonneg(d);
    }
}

proof fn lemma_table_weight_element(t: Seq<(u8, int)>, k: int)
    requires
        0 <= k < t.len(),
        forall|j: int| 0 <= j < t.len() ==> (#[trigger] t[j]).1 >= 0,
    ensures
        t[k].1 <= table_weight(t),
    decreases t.len(),
{
    let d = t.drop_last();
    assert(forall|j: int| 0 <= j < d.len() ==> (#[trigger] d[j]) == t[j]);
    if k == t.len() - 1 {
        lemma_table_weight_nonneg(d);
    } else {
        lemma_table_weight_element(d, k);
    }
}

/// Header round trip: parsing the serialized form of a sound header gives
/// back exactly the table, the padding count, and the extension.
pub proof fn lemma_header_round_trip(t: Seq<(u8, int)>, pad: int, e: Option<Seq<char>>)
    requires
        1 <= t.len() <= 256,
        table_ok(t),
        table_weight(t) <= usize::MAX,
        0 <= pad <= 7,
        e matches Some(s) ==> is_ascii_chars(s) && s.len() <= 0xFFFF,
    ensures
        spec_parse_header(header_bytes(t, pad, e)) == Ok::<
            (Seq<(u8, int)>, int, Option<Seq<char>>),
            HuffmanError,
        >((t, pad, e)),
{
    let n = t.len() as int;
    let hb = header_bytes(t, pad, e);
    lemma_entry_bytes_len(t);
    let eb = ext_bytes(e);
    assert(eb.len() >= 1);
    assert(hb.len() == 4 + 9 * n + 1 + eb.len());
    assert(hb.subrange(0, 4) =~= be32_bytes(n));
    lemma_be32_round_trip(n);
    assert(be32(hb.subrange(0, 4)) == n);
    assert(hb.len() >= 4 + 9 * n + 2);
    // the table reads back
    assert forall|j: int| 0 <= j < t.len() implies (#[trigger] t[j]).1 >= 0 by {
        assert(t[j].1 >= 1);
    }
    assert forall|k: int| 0 <= k < n implies parsed_table(hb, n)[k] == t[k] by {
        lemma_entry_bytes_index(t, k);
        assert(hb[4 + 9 * k] == entry_bytes(t)[9 * k]);
        assert(hb.subrange(4 + 9 * k + 1, 4 + 9 * k + 9) =~= entry_bytes(t).subrange(
            9 * k + 1,
            9 * k + 9,
        ));
        lemma_table_weight_element(t, k);
        assert(t[k].1 <= u64::MAX);
        lemma_be64_round_trip(t[k].1);
        assert(be64(hb.subrange(4 + 9 * k + 1, 4 + 9 * k + 9)) == t[k].1);
    }
    assert(parsed_table(hb, n) =~= t);
    // the padding byte reads back
    assert(hb[4 + 9 * n] == (pad as u8));
    assert((pad as u8) as int == pad);
    // the extension reads back
    match e {
        None => {
            assert(eb =~= seq![0u8]);
            assert(hb[4 + 9 * n + 1] == 0u8);
            assert(hb.len() == 4 + 9 * n + 2);
        },
        Some(s) => {
            assert(eb =~= seq![1u8] + be32_bytes(s.len() as int) + chars_bytes(s));
            assert(hb[4 + 9 * n + 1] == 1u8);
            assert(hb.len() == 4 + 9 * n + 6 + s.len());
            assert(hb.subrange(4 + 9 * n + 2, 4 + 9 * n + 6) =~= be32_bytes(s.len() as int));
            lemma_be32_round_trip(s.len() as int);
            let ebs = hb.subrange(4 + 9 * n + 6, hb.len() as int);
            assert(ebs =~= chars_bytes(s));
            assert forall|i: int| 0 <= i < ebs.len() implies (#[trigger] ebs[i]) < 128 by {
                assert(ebs[i] == s[i] as u8);
                assert('\0' <= s[i] <= '\u{7f}');
            }
            assert(Seq::new(ebs.len(), |i: int| ebs[i] as char) =~= s) by {
                assert forall|i: int| 0 <= i < s.len() implies (ebs[i] as char) == s[i] by {
                    assert(ebs[i] == s[i] as u8);
                    assert('\0' <= s[i] <= '\u{7f}');
                }
            }
        },
    }
}

/// The full output stream of one encode run: the header length as four
/// big-endian bytes, the header, and the packed payload.
pub open spec fn spec_compress(input: Seq<u8>, e: Option<Seq<char>>) -> Seq<u8> {
    let t = spec_frequencies(input);
    let tree = spec_build(t);
    let bits = coded_bits(tree, input);
    let pad = spec_padding(bits.len());
    let hb = header_bytes(t, pad, e);
    be32_bytes(hb.len() as int) + hb + pack_bytes(bits)
}

/// What decoding a stream yields: the original bytes and the stored
/// extension, or the error the stream deserves.
pub open spec fn spec_decompress(s: Seq<u8>) -> Result<
    (Seq<u8>, Option<Seq<char>>),
    HuffmanError,
> {
    if s.len() < 4 {
        Err(HuffmanError::MalformedHeader)
    } else {
        let hl = be32(s.subrange(0, 4));
        if s.len() < 4 + hl {
            Err(HuffmanError::MalformedHeader)
        } else {
            match spec_parse_header(s.subrange(4, 4 + hl)) {
                Err(e) => Err(e),
                Ok(trip) => {
                    let payload = s.skip(4 + hl);
                    if trip.1 > 0 && payload.len() == 0 {
                        Err(HuffmanError::TruncatedPayload)
                    } else {
                        match spec_decode(spec_build(trip.0), payload, trip.1) {
                            Ok(out) => Ok((out, trip.2)),
                            Err(er) => Err(er),
                        }
                    }
                },
            }
        }
    }
}

/// Round trip: decoding an encoded stream gives back the input bytes and
/// the stored extension, for every non-empty input.
#[verifier::rlimit(100)]
pub proof fn lemma_round_trip(input: Seq<u8>, e: Option<Seq<char>>)
    requires
        1 <= input.len() <= usize::MAX,
        e matches Some(s) ==> is_ascii_chars(s) && s.len() <= 0xFFFF,
    ensures
        spec_decompress(spec_compress(input, e)) == Ok::<
            (Seq<u8>, Option<Seq<char>>),
            HuffmanError,
        >((input, e)),
{
    let t = spec_frequencies(input);
    lemma_spec_frequencies_props(input);
    lemma_distinct_symbols_bound(t);
    let tree = spec_build(t);
    lemma_build_props(t);
    let bits = coded_bits(tree, input);
    let pad = spec_padding(bits.len());
    let hb = header_bytes(t, pad, e);
    lemma_entry_bytes_len(t);
    let pb = pack_bytes(bits);
    crate::bits::lemma_pack_len(bits);
    let s = spec_compress(input, e);
    assert(s == be32_bytes(hb.len() as int) + hb + pb);
    assert(hb.len() < 0x100000000) by {
        assert(ext_bytes(e).len() <= 5 + 0xFFFF);
    }
    assert(s.len() == 4 + hb.len() + pb.len());
    assert(s.subrange(0, 4) =~= be32_bytes(hb.len() as int));
    lemma_be32_round_trip(hb.len() as int);
    let hl = hb.len() as int;
    assert(s.len() >= 4 + hl);
    assert(s.subrange(4, 4 + hl) =~= hb);
    lemma_header_round_trip(t, pad, e);
    let payload = s.skip(4 + hl);
    assert(payload =~= pb);
    crate::bits::lemma_unpack_pack(bits);
    assert(payload_bits(pb, pad) =~= bits);
    if pad > 0 {
        assert(bits.len() % 8 != 0);
        assert(bits.len() > 0);
        assert(8 * pb.len() == bits.len() + pad);
        assert(pb.len() > 0);
    }
    assert(table_sym_set(t) =~= input.to_set());
    if t.len() == 1 {
        let sym = t[0].0;
        assert(tree == Tree::Leaf(sym));
        crate::tree::lemma_coded_bits_leaf_len(sym, input);
        assert(bits.len() == input.len());
        assert(pb.len() * 8 - pad == bits.len());
        let out = Seq::new((pb.len() * 8 - pad) as nat, |i: int| sym);
        assert(out =~= input) by {
            assert forall|i: int| 0 <= i < input.len() implies input[i] == sym by {
                assert(input.contains(input[i]));
                assert(input.to_set().contains(input[i]));
                assert(table_sym_set(t).contains(input[i]));
                let k = choose|k: int| 0 <= k < t.len() && (#[trigger] t[k]).0 == input[i];
                assert(k == 0);
            }
        }
        assert(spec_decode(tree, pb, pad) == Ok::<Seq<u8>, HuffmanError>(out));
    } else {
        assert(tree is Fork);
        assert(tree.distinct());
        assert forall|i: int| 0 <= i < input.len() implies tree.syms().contains(
            #[trigger] input[i],
        ) by {
            assert(input.contains(input[i]));
            assert(input.to_set().contains(input[i]));
        }
        lemma_walk_coded(tree, input);
        assert(crate::tree::walk_bits(tree, tree, payload_bits(pb, pad)) == Some(input));
        assert(spec_decode(tree, pb, pad) == Ok::<Seq<u8>, HuffmanError>(input));
    }
}

/// Encodes the input into one self-describing stream: frequency analysis,
/// tree and code table construction, bit packing, and the framed header.
/// An empty input surfaces `EmptyInput` and nothing is produced.
pub fn compress(input: &Vec<u8>, extension: Option<String>) -> (r: Result<Vec<u8>, HuffmanError>)
    requires
        extension matches Some(ex) ==> is_ascii_chars(ex@) && ex@.len() <= 0xFFFF,
    ensures
        input@.len() == 0 <==> r == Err::<Vec<u8>, HuffmanError>(HuffmanError::EmptyInput),
        input@.len() >= 1 ==> (r matches Ok(v) && v@ =~= spec_compress(
            input@,
            opt_view(extension),
        )),
{
    let ghost t = spec_frequencies(input@);
    let in_len = input.len();
    proof {
        assert(in_len == input@.len());
    }
    match frequency_counter(input) {
        None => Err(HuffmanError::EmptyInput),
        Some(freq) => {
            proof {
                lemma_spec_frequencies_props(input@);
                lemma_distinct_symbols_bound(t);
                assert(char_view(freq.data@) =~= chars_of(t));
                assert(bytes_view(freq.data@) =~= t) by {
                    assert(char_view(freq.data@).len() == chars_of(t).len());
                    assert forall|k: int|
                        0 <= k < freq.data@.len() implies bytes_view(freq.data@)[k] == t[k] by {
                        assert(char_view(freq.data@)[k] == chars_of(t)[k]);
                        assert(freq.data@[k].0 == t[k].0 as char);
                        assert(freq.data@[k].1 as int == t[k].1);
                    }
                }
                assert(char_table_ok(freq.data@)) by {
                    assert(freq.data@.len() == t.len());
                    assert(t.len() >= 1);
                    assert(table_weight(t) == input@.len());
                    assert(input@.len() <= usize::MAX);
                    assert forall|k: int|
                        0 <= k < freq.data@.len() implies (((#[trigger] freq.data@[k]).0 as u32)
                        < 256 && freq.data@[k].1 >= 1) by {
                        assert(char_view(freq.data@)[k] == chars_of(t)[k]);
                        assert(freq.data@[k].0 == t[k].0 as char);
                        assert(freq.data@[k].1 as int == t[k].1);
                        assert(t[k].1 >= 1);
                    }
                    assert forall|k1: int, k2: int|
                        0 <= k1 < freq.data@.len() && 0 <= k2 < freq.data@.len() && k1
                            != k2 implies (#[trigger] freq.data@[k1]).0 != (
                    #[trigger] freq.data@[k2]).0 by {
                        assert(char_view(freq.data@)[k1] == chars_of(t)[k1]);
                        assert(char_view(freq.data@)[k2] == chars_of(t)[k2]);
                        assert(freq.data@[k1].0 == t[k1].0 as char);
                        assert(freq.data@[k2].0 == t[k2].0 as char);
                        assert(t[k1].0 != t[k2].0);
                    }
                    assert(table_weight(bytes_view(freq.data@)) == table_weight(t));
                }
            }
            let mut encoder = HuffmanEncoder::new(&freq.data);
            let ghost tree = encoder.tree();
            proof {
                assert(tree == spec_build(t));
                lemma_build_props(t);
                assert(tree.syms() =~= table_sym_set(t));
                assert(table_sym_set(t) =~= input@.to_set());
                assert forall|i: int| 0 <= i < input@.len() implies tree.syms().contains(
                    #[trigger] input@[i],
                ) by {
                    assert(input@.contains(input@[i]));
                    assert(input@.to_set().contains(input@[i]));
                }
            }
            match encoder.encode(input) {
                Ok(enc) => {
                    let ghost bits = coded_bits(tree, input@);
                    let ghost pad = spec_padding(bits.len());
                    let header = Header {
                        frequencies: freq.data,
                        extension,
                        padding: enc.padding,
                    };
                    proof {
                        assert(header_wf(header));
                    }
                    let mut hb = serialize_header(&header);
                    let ghost hbv = hb@;
                    proof {
                        assert(hbv =~= header_bytes(t, pad, opt_view(header.extension)));
                    }
                    let mut out: Vec<u8> = Vec::new();
                    let hlen = hb.len();
                    push_be32(&mut out, hlen as u32);
                    out.append(&mut hb);
                    let mut payload = enc.data;
                    let ghost pv = payload@;
                    out.append(&mut payload);
                    proof {
                        assert(pv =~= pack_bytes(bits));
                        assert(out@ =~= be32_bytes(hbv.len() as int) + hbv + pv);
                        assert(out@ =~= spec_compress(input@, opt_view(header.extension)));
                    }
                    Ok(out)
                },
                Err(_) => {
                    proof {
                        assert(false);
                    }
                    Err(HuffmanError::UnknownSymbol)
                },
            }
        },
    }
}

/// Decodes one self-describing stream: the framed header is read and
/// validated, the tree is rebuilt from the persisted frequency table, and
/// the payload is walked bit by bit.
pub fn decompress(stream: &Vec<u8>) -> (r: Result<(Vec<u8>, Option<String>), HuffmanError>)
    ensures
        spec_decompress(stream@) matches Ok(p) ==> (r matches Ok(pair) && pair.0@ =~= p.0
            && opt_view(pair.1) == p.1),
        spec_decompress(stream@) matches Err(e) ==> r == Err::<
            (Vec<u8>, Option<String>),
            HuffmanError,
        >(e),
{
    let slen = stream.len();
    if slen < 4 {
        return Err(HuffmanError::MalformedHeader);
    }
    let hl32 = read_be32(stream, 0);
    proof {
        assert(hl32 as int == be32(stream@.subrange(0, 4)));
    }
    let hl: usize = if hl32 as u64 > (usize::MAX as u64) {
        proof {
            assert(slen < 4 + hl32 as int);
        }
        return Err(HuffmanError::MalformedHeader);
    } else {
        hl32 as usize
    };
    if slen - 4 < hl {
        return Err(HuffmanError::MalformedHeader);
    }
    let mut hb: Vec<u8> = Vec::new();
    let mut q: usize = 0;
    proof {
        assert(hb@ =~= stream@.subrange(4, 4));
    }
    while q < hl
        invariant
            q <= hl,
            4 + hl <= slen,
            slen == stream@.len(),
            hb@ =~= stream@.subrange(4, 4 + q),
        decreases hl - q,
    {
        hb.push(stream[4 + q]);
        proof {
            assert(stream@.subrange(4, 4 + q as int).push(stream@[4 + q as int]) =~= stream@.subrange(
                4,
                4 + q as int + 1,
            ));
        }
        q = q + 1;
    }
    let h = match parse_header(&hb) {
        Ok(h) => h,
        Err(er) => {
            return Err(er);
        },
    };
    let mut payload: Vec<u8> = Vec::new();
    let mut p: usize = 0;
    let plen = slen - (4 + hl);
    proof {
        assert(payload@ =~= stream@.subrange(4 + hl as int, 4 + hl as int));
    }
    while p < plen
        invariant
            p <= plen,
            4 + hl + plen == slen,
            slen == stream@.len(),
            payload@ =~= stream@.subrange(4 + hl as int, 4 + hl as int + p),
        decreases plen - p,
    {
        payload.push(stream[4 + hl + p]);
        proof {
            assert(stream@.subrange(4 + hl as int, 4 + hl as int + p as int).push(
                stream@[4 + hl as int + p as int],
            ) =~= stream@.subrange(4 + hl as int, 4 + hl as int + p as int + 1));
        }
        p = p + 1;
    }
    proof {
        assert(payload@ =~= stream@.skip(4 + hl as int));
    }
    let padv: u8 = match h.padding {
        Some(pp) => pp,
        None => 0,
    };
    if padv > 0 && payload.len() == 0 {
        return Err(HuffmanError::TruncatedPayload);
    }
    let encoder = HuffmanEncoder::new(&h.frequencies);
    proof {
        assert(spec_parse_header(stream@.subrange(4, 4 + hl as int)) matches Ok(trip) ==> (
        encoder.tree() == spec_build(trip.0) && pad_of(h.padding) == trip.1));
    }
    let encd = Encoded { data: payload, padding: h.padding };
    match encoder.decode(encd) {
        Ok(v) => Ok((v, h.extension)),
        Err(er) => Err(er),
    }
}

} // verus!
