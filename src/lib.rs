//! LZO1X: a byte-oriented LZ77 compressor family and its decompressor.
//!
//! The wire grammar is modelled by [`format::decode`]. The decompressor is
//! proved to compute exactly that model, every compression level is proved to
//! produce a stream that decodes back to its input, and the optimizer is
//! proved to keep what a stream decodes to.
use vstd::prelude::*;

pub mod format;
pub mod decompress;
pub mod emit;
pub mod stream;
pub mod compress_1;
pub mod swd;
pub mod compress_999;
pub mod optimize;

pub use compress_1::compress_1;
pub use compress_999::compress_999;
pub use decompress::decompress;
pub use optimize::optimize;

use crate::compress_1::{fast_output, fast_rules};
use crate::compress_999::{opening_run, slow_rules};
use crate::emit::{encode, Token};
use crate::format::decode;

verus! {

/// A vector of `n` copies of `x`.
pub(crate) fn filled<T: Copy>(x: T, n: usize) -> (r: Vec<T>)
    ensures
        r@ == Seq::new(n as nat, |i: int| x),
{
    let mut r: Vec<T> = Vec::new();
    let mut i: usize = 0;
    while i < n
        invariant
            i <= n,
            r@ == Seq::new(i as nat, |j: int| x),
        decreases n - i,
    {
        r.push(x);
        i += 1;
        assert(r@ =~= Seq::new(i as nat, |j: int| x));
    }
    r
}

/// Error that occurred during decompression.
#[derive(Clone, Copy, Debug, PartialEq, Eq, Structural)]
pub enum DecompressError {
    /// The stream is malformed or truncated.
    InvalidInput,
    /// The stream does not decode to exactly the length of the output buffer.
    OutputLength,
}

/// Compression level, from 1 (fastest) to 13 (smallest output).
#[derive(Clone, Copy)]
pub struct CompressLevel(u8);

impl View for CompressLevel {
    type V = u8;

    closed spec fn view(&self) -> u8 {
        self.0
    }
}

impl CompressLevel {
    #[verifier::type_invariant]
    spec fn inv(&self) -> bool {
        1 <= self.0 <= 13
    }

    /// The level `level`, or `None` unless it lies in `1..=13`.
    pub fn new(level: u8) -> (r: Option<Self>)
        ensures
            r is Some <==> 1 <= level <= 13,
            r matches Some(l) ==> l@ == level,
    {
        if level < 1 || level > 13 {
            return None;
        }
        Some(CompressLevel(level))
    }

    /// The level as a number in `1..=13`.
    pub fn get(&self) -> (r: u8)
        ensures
            r == self@,
            1 <= r <= 13,
    {
        proof {
            use_type_invariant(self);
        }
        self.0
    }
}

impl Default for CompressLevel {
    /// Level 3, the fast compressor with its default table.
    fn default() -> (r: Self)
        ensures
            r@ == 3,
    {
        CompressLevel(3)
    }
}

/// The hash table bits of a fast level: 11, 12, 14 and 15 for levels 1 to 4.
pub open spec fn level_bits(level: u8) -> u32 {
    if level == 1 {
        11
    } else if level == 2 {
        12
    } else if level == 3 {
        14
    } else {
        15
    }
}

/// Compresses `src` at `level`: levels 1 to 4 use the fast compressor with
/// growing hash tables, 5 to 13 the slow one with a growing search effort.
///
/// Whatever the level, the result decodes back to `src` and ends with the
/// end-of-stream instruction `0x11, 0, 0`. Like any slice, `src` holds at most
/// `isize::MAX` bytes.
pub fn compress(src: &[u8], level: CompressLevel) -> (r: Vec<u8>)
    requires
        src@.len() <= isize::MAX,
    ensures
        decode(r@, src@.len() as nat) == Ok::<Seq<u8>, DecompressError>(src@),
        r@.len() >= 3,
        r@.subrange(r@.len() - 3, r@.len() as int) == seq![0x11u8, 0u8, 0u8],
        src@.len() == 0 ==> r@ == seq![0x11u8, 0u8, 0u8],
        r@.len() <= src@.len() + src@.len() / 16 + 67,
        level@ <= 4 ==> r@ == fast_output(src@, level_bits(level@)),
        level@ <= 4 ==> exists|toks: Seq<Token>|
            r@ == #[trigger] encode(toks) + seq![0x11u8, 0u8, 0u8] && fast_rules(toks),
        level@ >= 5 ==> exists|toks: Seq<Token>|
            r@ == #[trigger] encode(toks) + seq![0x11u8, 0u8, 0u8] && slow_rules(toks),
        level@ >= 5 && src@.len() > 0 ==> exists|k: int|
            1 <= k <= src@.len() && opening_run(src@, k).len() <= r@.len() && r@.subrange(
                0,
                opening_run(src@, k).len() as int,
            )
                == #[trigger] opening_run(src@, k),
        level@ <= 4 && src@.len() <= 20 ==> r@ == (if src@.len() == 0 {
            Seq::<u8>::empty()
        } else {
            seq![(17 + src@.len()) as u8]
        }) + src@ + seq![0x11u8, 0u8, 0u8],
{
    let l = level.get();
    if l == 1 {
        compress_1::compress(src, 11)
    } else if l == 2 {
        compress_1::compress(src, 12)
    } else if l == 3 {
        compress_1::compress(src, 14)
    } else if l == 4 {
        compress_1::compress(src, 15)
    } else if l == 5 {
        compress_999::compress_internal(src, 0, 0, 0, 8, 4, false)
    } else if l == 6 {
        compress_999::compress_internal(src, 0, 0, 0, 16, 8, false)
    } else if l == 7 {
        compress_999::compress_internal(src, 0, 0, 0, 32, 16, false)
    } else if l == 8 {
        compress_999::compress_internal(src, 1, 5, 5, 16, 16, false)
    } else if l == 9 {
        compress_999::compress_internal(src, 1, 8, 16, 32, 32, false)
    } else if l == 10 {
        compress_999::compress_internal(src, 1, 8, 16, 128, 128, false)
    } else if l == 11 {
        compress_999::compress_internal(src, 1, 8, 32, 128, 256, false)
    } else if l == 12 {
        compress_999::compress_internal(src, 2, 32, 128, 2048, 2048, true)
    } else {
        compress_999::compress_internal(src, 2, 2048, 2048, 2048, 4096, true)
    }
}

/// The outputs of any two levels for one input decompress to the same bytes:
/// `compress` promises of each that it decodes to the input.
pub proof fn levels_agree(x: Seq<u8>, a: Seq<u8>, b: Seq<u8>)
    requires
        decode(a, x.len()) == Ok::<Seq<u8>, DecompressError>(x),
        decode(b, x.len()) == Ok::<Seq<u8>, DecompressError>(x),
    ensures
        decode(a, x.len()) == decode(b, x.len()),
{
}

/// A compressed input that `optimize` has rewritten still decompresses to the
/// input: the optimizer keeps what a stream decodes to.
pub proof fn optimized_round_trip(x: Seq<u8>, c: Seq<u8>, optimized: Seq<u8>)
    requires
        decode(c, x.len()) == Ok::<Seq<u8>, DecompressError>(x),
        decode(optimized, x.len()) == decode(c, x.len()),
    ensures
        decode(optimized, x.len()) == Ok::<Seq<u8>, DecompressError>(x),
{
}

} // verus!
