//! How the payload of a block is compressed.

use vstd::bytes::u32_from_le_bytes;
use vstd::prelude::*;

use crate::error::StoreError;

verus! {

/// Declares the error that `lz4_flex` reports for malformed input.
#[verifier::external_type_specification]
#[verifier::external_body]
pub struct ExDecompressError(lz4_flex::block::DecompressError);

/// What `lz4_flex::block::decompress_size_prepended` returns for `payload`, `None` standing for
/// an error.
pub uninterp spec fn lz4_decompressed(payload: Seq<u8>) -> Option<Seq<u8>>;

/// The length of the data that `payload` announces in its first four bytes.
pub open spec fn lz4_announced_len(payload: Seq<u8>) -> nat {
    if payload.len() < 4 {
        0
    } else {
        vstd::bytes::spec_u32_from_le_bytes(payload.take(4)) as nat
    }
}

/// Whether `len` bytes can be compressed at once: the length is kept in four bytes, and the
/// buffers are sized by it and by a multiple of it.
pub open spec fn lz4_accepts(len: nat) -> bool {
    len <= u32::MAX && len <= isize::MAX && 110 * len <= usize::MAX - 100
}

/// How many bytes of 255 follow each other from `at` on.
pub open spec fn run_len(payload: Seq<u8>, at: int) -> nat
    decreases payload.len() - at,
{
    if 0 <= at < payload.len() && payload[at] == 255 {
        1 + run_len(payload, at + 1)
    } else {
        0
    }
}

/// What the bytes from `at` on add to a length of which `nibble` is kept in the token: nothing
/// below 15, else bytes of 255 and a smaller one.
pub open spec fn extra_len(payload: Seq<u8>, at: int, nibble: int) -> nat {
    if nibble < 15 {
        0
    } else {
        let end = at + run_len(payload, at);
        255 * run_len(payload, at) + (if end < payload.len() {
            payload[end] as nat
        } else {
            0
        })
    }
}

/// Where these bytes end.
pub open spec fn extra_end(payload: Seq<u8>, at: int, nibble: int) -> int {
    if nibble < 15 {
        at
    } else {
        at + run_len(payload, at) + 1
    }
}

/// The sum of such bytes fits its type, and so does the end of a sequence of this length in data of
/// `announced` bytes.
pub open spec fn can_count(extra: nat, announced: nat) -> bool {
    extra <= u32::MAX && announced + extra + 19 <= usize::MAX
}

/// All lengths of sequences from `at` on can be counted. A sequence is a token, the length of its
/// literals, these, an offset of two bytes and the length of its match.
pub open spec fn sequences_fit(payload: Seq<u8>, at: int, announced: nat) -> bool
    decreases payload.len() - at,
{
    if at < 0 || at >= payload.len() {
        true
    } else {
        let literal_nibble = payload[at] as int / 16;
        let match_nibble = payload[at] as int % 16;
        let literal_extra = extra_len(payload, at + 1, literal_nibble);
        let match_at = extra_end(payload, at + 1, literal_nibble) + literal_nibble + literal_extra
            + 2;
        &&& can_count(literal_extra, announced)
        &&& match_at <= payload.len() ==> {
            let next = extra_end(payload, match_at, match_nibble);
            &&& can_count(extra_len(payload, match_at, match_nibble), announced)
            &&& next < payload.len() ==> sequences_fit(payload, next, announced)
        }
    }
}

/// The buffer for the data can be allocated, and all lengths in `payload` can be counted.
pub open spec fn lz4_lengths_fit(payload: Seq<u8>) -> bool {
    &&& lz4_announced_len(payload) <= isize::MAX
    &&& sequences_fit(payload, 4, lz4_announced_len(payload))
}

/// A payload that is not very long has only lengths that can be counted, whatever it holds.
pub proof fn lemma_short_payloads_are_accepted(payload: Seq<u8>)
    requires
        255 * payload.len() <= u32::MAX,
        lz4_announced_len(payload) <= isize::MAX,
        lz4_announced_len(payload) + 255 * payload.len() + 19 <= usize::MAX,
    ensures
        Decompressor::Lz4.data_of(payload) == (match lz4_decompressed(payload) {
            Some(data) => Ok::<Seq<u8>, StoreError>(data),
            None => Err(StoreError::Decompression),
        }),
{
    lemma_short_sequences(payload, 4, lz4_announced_len(payload));
}

proof fn lemma_run_bounded(payload: Seq<u8>, at: int)
    requires
        0 <= at,
    ensures
        at <= payload.len() ==> at + run_len(payload, at) <= payload.len(),
        at > payload.len() ==> run_len(payload, at) == 0,
    decreases payload.len() - at,
{
    if at < payload.len() && payload[at] == 255 {
        lemma_run_bounded(payload, at + 1);
    }
}

proof fn lemma_short_extra(payload: Seq<u8>, at: int, nibble: int)
    requires
        0 <= at,
    ensures
        extra_len(payload, at, nibble) <= 255 * payload.len(),
{
    lemma_run_bounded(payload, at);
}

proof fn lemma_short_sequences(payload: Seq<u8>, at: int, announced: nat)
    requires
        255 * payload.len() <= u32::MAX,
        announced + 255 * payload.len() + 19 <= usize::MAX,
    ensures
        sequences_fit(payload, at, announced),
    decreases payload.len() - at,
{
    if 0 <= at < payload.len() {
        let literal_nibble = payload[at] as int / 16;
        let match_nibble = payload[at] as int % 16;
        let literal_extra = extra_len(payload, at + 1, literal_nibble);
        let match_at = extra_end(payload, at + 1, literal_nibble) + literal_nibble + literal_extra
            + 2;
        lemma_short_extra(payload, at + 1, literal_nibble);
        lemma_short_extra(payload, match_at, match_nibble);
        let next = extra_end(payload, match_at, match_nibble);
        if next < payload.len() {
            lemma_short_sequences(payload, next, announced);
        }
    }
}

/// Calls `lz4_flex::block::compress_prepend_size`. Its result starts with the length of `data` in
/// four bytes, and `lz4_flex::block::decompress_size_prepended` is documented to undo it. The lengths
/// in it are those of parts of `data`, so that they can be counted. Which of the possible encodings
/// of `data` it is depends on the machine and is left open.
#[verifier::external_body]
fn lz4_compress(data: &[u8]) -> (payload: Vec<u8>)
    requires
        lz4_accepts(data@.len()),
    ensures
        payload@.len() >= 4,
        lz4_announced_len(payload@) == data@.len(),
        lz4_lengths_fit(payload@),
        lz4_decompressed(payload@) == Some(data@),
{
    lz4_flex::block::compress_prepend_size(data)
}

/// Calls `lz4_flex::block::decompress_size_prepended`. Its result depends on `payload` alone. The
/// buffer for the data is allocated with the length that `payload` announces, and the lengths of
/// sequences are summed in four bytes without a check: both have to fit.
#[verifier::external_body]
fn lz4_decompress(payload: &[u8]) -> (result: Result<Vec<u8>, lz4_flex::block::DecompressError>)
    requires
        lz4_lengths_fit(payload@),
    ensures
        match result {
            Ok(data) => lz4_decompressed(payload@) == Some(data@),
            Err(_) => lz4_decompressed(payload@) is None,
        },
{
    lz4_flex::block::decompress_size_prepended(payload)
}

/// The length of the data that `payload` announces.
fn announced_len(payload: &[u8]) -> (len: u32)
    ensures
        len == lz4_announced_len(payload@),
{
    if payload.len() < 4 {
        return 0;
    }
    let head: &[u8] = vstd::slice::slice_subrange(payload, 0, 4);
    assert(head@ =~= payload@.take(4));
    u32_from_le_bytes(head)
}

/// How many bytes of 255 follow each other from `at` on.
fn count_run(payload: &[u8], at: usize) -> (count: usize)
    requires
        at <= payload@.len(),
    ensures
        count == run_len(payload@, at as int),
        at + count <= payload@.len(),
{
    let mut end: usize = at;
    while end < payload.len() && payload[end] == 255
        invariant
            at <= end <= payload@.len(),
            run_len(payload@, at as int) == (end - at) + run_len(payload@, end as int),
        decreases payload@.len() - end,
    {
        end = end + 1;
    }
    end - at
}

/// What the bytes from `at` on add to a length, and where they end.
fn read_extra(payload: &[u8], at: usize, nibble: u8) -> (result: (u128, u128))
    requires
        at <= payload@.len(),
    ensures
        result.0 == extra_len(payload@, at as int, nibble as int),
        result.1 == extra_end(payload@, at as int, nibble as int),
        at <= result.1 <= payload@.len() + 1,
{
    if nibble < 15 {
        return (0, at as u128);
    }
    let len: usize = payload.len();
    let end: usize = at + count_run(payload, at);
    let last: u128 = if end < len {
        payload[end] as u128
    } else {
        0
    };
    (255 * (end - at) as u128 + last, end as u128 + 1)
}

/// Whether `payload` can be decompressed without a count that does not fit.
fn lengths_fit(payload: &[u8]) -> (fit: bool)
    ensures
        fit == lz4_lengths_fit(payload@),
{
    let announced: u128 = announced_len(payload) as u128;
    if announced > isize::MAX as u128 {
        return false;
    }
    let mut at: u128 = 4;
    while at < payload.len() as u128
        invariant
            4 <= at,
            announced == lz4_announced_len(payload@),
            announced <= isize::MAX,
            sequences_fit(payload@, 4, announced as nat) == sequences_fit(
                payload@,
                at as int,
                announced as nat,
            ),
        decreases payload@.len() + 1 - at,
    {
        let token: u8 = payload[at as usize];
        let (literal_extra, literals_at): (u128, u128) = read_extra(
            payload,
            at as usize + 1,
            token / 16,
        );
        if literal_extra > u32::MAX as u128 || announced + literal_extra + 19 > usize::MAX as u128 {
            return false;
        }
        let match_at: u128 = literals_at + (token / 16) as u128 + literal_extra + 2;
        if match_at > payload.len() as u128 {
            return true;
        }
        let (match_extra, next): (u128, u128) = read_extra(payload, match_at as usize, token % 16);
        if match_extra > u32::MAX as u128 || announced + match_extra + 19 > usize::MAX as u128 {
            return false;
        }
        at = next;
    }
    true
}

/// The compression of new blocks.
#[derive(Clone, Copy, Debug, PartialEq, Eq, Structural)]
pub enum Compressor {
    /// Blocks are stored as they are.
    Uncompressed,
    /// Blocks are compressed with LZ4.
    Lz4,
}

/// The compression that the blocks of a store were written with.
#[derive(Clone, Copy, Debug, PartialEq, Eq, Structural)]
pub enum Decompressor {
    /// Blocks are stored as they are.
    Uncompressed,
    /// Blocks are compressed with LZ4.
    Lz4,
}

impl Default for Compressor {
    fn default() -> (compressor: Self)
        ensures
            compressor is Lz4,
    {
        Compressor::Lz4
    }
}

impl vstd::std_specs::convert::FromSpecImpl<Compressor> for Decompressor {
    open spec fn obeys_from_spec() -> bool {
        true
    }

    open spec fn from_spec(compressor: Compressor) -> Self {
        match compressor {
            Compressor::Uncompressed => Decompressor::Uncompressed,
            Compressor::Lz4 => Decompressor::Lz4,
        }
    }
}

impl From<Compressor> for Decompressor {
    fn from(compressor: Compressor) -> Self {
        match compressor {
            Compressor::Uncompressed => Decompressor::Uncompressed,
            Compressor::Lz4 => Decompressor::Lz4,
        }
    }
}

impl Compressor {
    /// Whether a block of `len` bytes can be compressed.
    pub open spec fn accepts(self, len: nat) -> bool {
        self is Lz4 ==> lz4_accepts(len)
    }

    /// Whether a block of `len` bytes can be compressed.
    pub fn fits(&self, len: usize) -> (fits: bool)
        ensures
            fits == self.accepts(len as nat),
    {
        match self {
            Compressor::Uncompressed => true,
            Compressor::Lz4 => len as u64 <= u32::MAX as u64 && len <= isize::MAX as usize && 110
                * len as u128 <= usize::MAX as u128 - 100,
        }
    }

    /// `payload` is a payload for a block that holds `data`: decompressing gives `data` back.
    pub open spec fn is_payload(self, payload: Seq<u8>, data: Seq<u8>) -> bool {
        &&& self.spec_decompressor().data_of(payload) == Ok::<Seq<u8>, StoreError>(data)
        &&& data.len() > 0 ==> payload.len() > 0
    }

    /// The decompressor that undoes this compressor.
    pub open spec fn spec_decompressor(self) -> Decompressor {
        match self {
            Compressor::Uncompressed => Decompressor::Uncompressed,
            Compressor::Lz4 => Decompressor::Lz4,
        }
    }

    /// Compresses `data` into `compressed`, whose earlier contents are dropped.
    pub fn compress_into(&self, data: &[u8], compressed: &mut Vec<u8>)
        requires
            self.accepts(data@.len()),
        ensures
            self.is_payload(final(compressed)@, data@),
    {
        match self {
            Compressor::Uncompressed => {
                *compressed = vstd::slice::slice_to_vec(data);
            },
            Compressor::Lz4 => {
                *compressed = lz4_compress(data);
            },
        }
    }
}

impl Decompressor {
    /// The data that `payload` stands for.
    pub open spec fn data_of(self, payload: Seq<u8>) -> Result<Seq<u8>, StoreError> {
        match self {
            Decompressor::Uncompressed => Ok(payload),
            Decompressor::Lz4 => if !lz4_lengths_fit(payload) {
                Err(StoreError::Decompression)
            } else {
                match lz4_decompressed(payload) {
                    Some(data) => Ok(data),
                    None => Err(StoreError::Decompression),
                }
            },
        }
    }

    /// Decompresses a payload.
    pub fn decompress(&self, payload: &[u8]) -> (result: Result<Vec<u8>, StoreError>)
        ensures
            match result {
                Ok(data) => self.data_of(payload@) == Ok::<Seq<u8>, StoreError>(data@),
                Err(error) => self.data_of(payload@) == Err::<Seq<u8>, StoreError>(error),
            },
    {
        match self {
            Decompressor::Uncompressed => Ok(vstd::slice::slice_to_vec(payload)),
            Decompressor::Lz4 => {
                if !lengths_fit(payload) {
                    return Err(StoreError::Decompression);
                }
                match lz4_decompress(payload) {
                    Ok(data) => Ok(data),
                    Err(_) => Err(StoreError::Decompression),
                }
            },
        }
    }
}

} // verus!
