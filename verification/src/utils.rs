//! Small helpers around the engine: the options record the surrounding
//! program fills in, the header record the container persists, and a
//! bit-string view of text (a string of `'0'`/`'1'` characters packed into
//! bytes).

use vstd::prelude::*;
use crate::bits::{BitCursor, pack_bytes, spec_padding};
use crate::frequency::Frequencies;
use vstd::utf8::is_ascii_chars;

verus! {

/// The resolved command-line options. Parsing the command line and
/// checking paths stay with the surrounding program; the engine only ever
/// sees this plain record.
pub struct AppOptions {
    pub input: String,
    pub output_folder: Option<String>,
    pub filename: Option<String>,
    pub decode: bool,
}

/// The persisted header: the frequency table the decoder rebuilds the
/// tree from, the padding count of the payload's final byte, and the
/// original file extension, if any.
pub struct Header {
    pub frequencies: Frequencies,
    pub extension: Option<String>,
    pub padding: Option<u8>,
}

/// Why a bit string could not be packed into bytes.
#[derive(Clone, Copy, Debug, PartialEq, Eq, Structural)]
pub enum BitStringError {
    /// The length is not a multiple of eight.
    Incomplete,
    /// A character other than `'0'` or `'1'` occurred.
    InvalidBit,
}

/// Every character is `'0'` or `'1'`.
pub open spec fn is_bit_string(s: Seq<char>) -> bool {
    forall|i: int| 0 <= i < s.len() ==> (#[trigger] s[i]) == '0' || s[i] == '1'
}

/// The bits a string of `'0'`/`'1'` characters denotes.
pub open spec fn char_bits(s: Seq<char>) -> Seq<bool> {
    Seq::new(s.len(), |i: int| s[i] == '1')
}

/// A value that can be read as a string of bit characters and packed into
/// bytes.
pub trait BitString {
    /// The characters this value holds.
    spec fn bits_view(&self) -> Seq<char>;

    fn len(&self) -> (r: usize)
        ensures
            r == self.bits_view().len(),
    ;

    /// Converts the input string to `Vec`.
    fn to_vec(&self) -> (r: Result<Vec<u8>, BitStringError>)
        ensures
            is_bit_string(self.bits_view()) && self.bits_view().len() % 8 == 0 ==> (r matches Ok(v)
                && v@ =~= pack_bytes(char_bits(self.bits_view()))),
            is_bit_string(self.bits_view()) && self.bits_view().len() % 8 != 0 ==> r == Err::<
                Vec<u8>,
                BitStringError,
            >(BitStringError::Incomplete),
    ;

    /// Checks if the string can be converted to `Vec`.
    fn is_complete(&self) -> (r: bool)
        ensures
            r == (self.bits_view().len() % 8 == 0),
    {
        self.len() % 8 == 0
    }

    /// Length of bytes to be derived from the string.
    fn byte_len(&self) -> (r: usize)
        ensures
            r == self.bits_view().len() / 8,
    {
        self.len() / 8
    }
}

impl BitString for String {
    open spec fn bits_view(&self) -> Seq<char> {
        self@
    }

    fn len(&self) -> (r: usize)
        ensures
            r == self.bits_view().len(),
    {
        self.as_str().unicode_len()
    }

    fn to_vec(&self) -> (r: Result<Vec<u8>, BitStringError>)
        ensures
            is_bit_string(self.bits_view()) && self.bits_view().len() % 8 == 0 ==> (r matches Ok(v)
                && v@ =~= pack_bytes(char_bits(self.bits_view()))),
            is_bit_string(self.bits_view()) && self.bits_view().len() % 8 != 0 ==> r == Err::<
                Vec<u8>,
                BitStringError,
            >(BitStringError::Incomplete),
    {
        let ghost chars = self@;
        proof {
            if is_bit_string(chars) {
                assert(is_ascii_chars(chars)) by {
                    assert forall|i: int| 0 <= i < chars.len() implies '\0' <= #[trigger] chars[i]
                        <= '\u{7f}' by {
                        assert(chars[i] == '0' || chars[i] == '1');
                    }
                }
                vstd::utf8::is_ascii_chars_encode_utf8(chars);
            }
        }
        let bv = self.as_str().as_bytes_vec();
        if bv.len() % 8 != 0 {
            return Err(BitStringError::Incomplete);
        }
        let mut cursor = BitCursor::new();
        let mut i: usize = 0;
        proof {
            if is_bit_string(chars) {
                assert(char_bits(chars).take(0) =~= Seq::<bool>::empty());
            }
        }
        while i < bv.len()
            invariant
                i <= bv@.len(),
                cursor.wf(),
                bv@.len() % 8 == 0,
                chars == self@,
                bv@ == vstd::utf8::encode_utf8(chars),
                is_bit_string(chars) ==> (bv@.len() == chars.len() && (forall|k: int|
                    0 <= k < chars.len() ==> chars[k] as u8 == bv@[k]) && cursor.bits()
                    =~= char_bits(chars).take(i as int)),
            decreases bv@.len() - i,
        {
            let b = bv[i];
            if b == 48u8 {
                cursor.push_bit(false);
            } else if b == 49u8 {
                cursor.push_bit(true);
            } else {
                proof {
                    if is_bit_string(chars) {
                        assert(chars[i as int] == '0' || chars[i as int] == '1');
                        assert(chars[i as int] as u8 == bv@[i as int]);
                    }
                }
                return Err(BitStringError::InvalidBit);
            }
            proof {
                if is_bit_string(chars) {
                    assert(chars[i as int] as u8 == bv@[i as int]);
                    assert((chars[i as int] == '1') == (b == 49u8));
                    assert(char_bits(chars).take(i as int).push(char_bits(chars)[i as int])
                        =~= char_bits(chars).take(i as int + 1));
                }
            }
            i = i + 1;
        }
        let ghost allbits = cursor.bits();
        let packed = cursor.finish();
        proof {
            if is_bit_string(chars) {
                assert(allbits =~= char_bits(chars).take(chars.len() as int));
                assert(char_bits(chars).take(chars.len() as int) =~= char_bits(chars));
                assert(chars.len() % 8 == 0);
                assert(spec_padding(char_bits(chars).len()) == 0);
            }
        }
        Ok(packed.0)
    }
}

/// Generates a repeated character string.
///
/// Relies on std's `iter::repeat` and `collect`: the result is `len`
/// copies of `c`.
#[verifier::external_body]
pub fn str_generator(c: char, len: usize) -> (r: String)
    ensures
        r@ =~= Seq::new(len as nat, |i: int| c),
{
    std::iter::repeat(c).take(len).collect()
}

} // verus!
