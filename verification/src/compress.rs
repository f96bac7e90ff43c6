//! Outside compressors.
use vstd::prelude::*;

verus! {

/// What zstd compresses `data` to at a level, or the text of its failure.
pub uninterp spec fn zstd_compressed(data: Seq<u8>, level: i32) -> Result<Seq<u8>, Seq<char>>;

/// What zstd decompresses a block to within `capacity` bytes, or the text of its failure.
pub uninterp spec fn zstd_decompressed(block: Seq<u8>, capacity: usize) -> Result<
    Seq<u8>,
    Seq<char>,
>;

/// What Pco decompresses into `count` numbers: the numbers, how many of them were
/// written, and whether the data ended there.
pub uninterp spec fn pco_decompressed(block: Seq<u8>, count: usize) -> Option<
    (Seq<u64>, usize, bool),
>;

/// Compresses a block of data.
///
/// Calls `zstd::bulk::compress`, whose result, the text of its error with it, depends on the
/// data and the level alone. The result decompresses to the data within any capacity that
/// can hold the data.
#[verifier::external_body]
pub(crate) fn zstd_compress(data: &[u8], level: i32) -> (block: Result<Vec<u8>, String>)
    ensures
        match block {
            Ok(bytes) => zstd_compressed(data@, level) == Ok::<_, Seq<char>>(bytes@),
            Err(text) => zstd_compressed(data@, level) == Err::<Seq<u8>, _>(text@),
        },
        block matches Ok(bytes) ==> forall|capacity: usize|
            data@.len() <= capacity <= isize::MAX ==> {
                &&& #[trigger] zstd_decompressed(bytes@, capacity) is Ok
                &&& zstd_decompressed(bytes@, capacity)->Ok_0 == data@
            },
{
    zstd::bulk::compress(data, level).map_err(|error| error.to_string())
}

/// Decompresses a block of at most `capacity` bytes of data.
///
/// Calls `zstd::bulk::decompress`, whose result, the text of its error with it, depends on
/// the block and the capacity alone and is never longer than the capacity. It reserves the
/// capacity, which must be one that a vector can have.
#[verifier::external_body]
pub(crate) fn zstd_decompress(block: &[u8], capacity: usize) -> (data: Result<Vec<u8>, String>)
    requires
        capacity <= isize::MAX,
    ensures
        match data {
            Ok(bytes) => zstd_decompressed(block@, capacity) == Ok::<_, Seq<char>>(bytes@)
                && bytes@.len() <= capacity,
            Err(text) => zstd_decompressed(block@, capacity) == Err::<Seq<u8>, _>(text@),
        },
{
    zstd::bulk::decompress(block, capacity).map_err(|error| error.to_string())
}

/// Compresses numbers at a compression level.
///
/// Calls `pco::standalone::simple_compress`, which fails on an invalid configuration
/// alone; the default one is valid at the levels up to 12. It is lossless: its result
/// decompresses to the numbers. The size that `pco::standalone::guarantee::file_size`
/// gives for it, eight bytes per number and less than a hundred for the file and for each
/// of its pages, is below the one stated. Which bytes it chooses is left open, since its
/// search uses floating point; the level only bears on their number.
#[verifier::external_body]
pub(crate) fn pco_compress(values: &[u64], level: usize) -> (block: Result<Vec<u8>, String>)
    requires
        values@.len() > 0,
        level <= 12,
    ensures
        block is Ok,
        block matches Ok(bytes) ==> pco_decompressed(bytes@, values@.len() as usize) == Some(
            (values@, values@.len() as usize, true),
        ),
        block matches Ok(bytes) ==> bytes@.len() <= 16 * values@.len() + 4096,
{
    let config = pco::ChunkConfig::default().with_compression_level(level);
    pco::standalone::simple_compress(values, &config).map_err(|error| error.to_string())
}

/// Decompresses into `count` numbers.
///
/// Calls `pco::standalone::simple_decompress_into` on a buffer of `count` zeros
/// and gives the buffer with the reported progress, all of which depend on the
/// block and the count alone. The buffer must be one that a vector can have.
#[verifier::external_body]
pub(crate) fn pco_decompress(block: &[u8], count: usize) -> (data: Option<(Vec<u64>, usize, bool)>)
    requires
        8 * count <= isize::MAX,
    ensures
        match data {
            Some((values, processed, finished)) => pco_decompressed(block@, count) == Some(
                (values@, processed, finished),
            ) && values@.len() == count,
            None => pco_decompressed(block@, count) is None,
        },
{
    let mut values = vec![0u64; count];
    match pco::standalone::simple_decompress_into(block, &mut values) {
        Ok(progress) => Some((values, progress.n_processed, progress.finished)),
        Err(_) => None,
    }
}

/// What zstd compresses `data` to at a level with a dictionary, or the text of its failure.
pub uninterp spec fn zstd_dictionary_compressed(
    data: Seq<u8>,
    level: i32,
    dictionary: Seq<u8>,
) -> Result<Seq<u8>, Seq<char>>;

/// Compresses a block of data with a dictionary; an empty one stands for none.
///
/// Calls `zstd::bulk::Compressor::with_dictionary` and `compress`, whose result, the text of
/// an error with it, depends on the data, the level and the dictionary alone.
#[verifier::external_body]
pub(crate) fn zstd_compress_with_dictionary(data: &[u8], level: i32, dictionary: &[u8]) -> (block:
    Result<Vec<u8>, String>)
    ensures
        match block {
            Ok(bytes) => zstd_dictionary_compressed(data@, level, dictionary@) == Ok::<
                _,
                Seq<char>,
            >(bytes@),
            Err(text) => zstd_dictionary_compressed(data@, level, dictionary@) == Err::<
                Seq<u8>,
                _,
            >(text@),
        },
{
    zstd::bulk::Compressor::with_dictionary(level, dictionary)
        .and_then(|mut compressor| compressor.compress(data))
        .map_err(|error| error.to_string())
}

/// Lowest compression level of zstd.
pub const ZSTD_MIN_LEVEL: i32 = -131072;

/// Highest compression level of zstd.
pub const ZSTD_MAX_LEVEL: i32 = 22;

/// Whether zstd has a compression level.
pub open spec fn zstd_level(level: i32) -> bool {
    ZSTD_MIN_LEVEL <= level <= ZSTD_MAX_LEVEL
}

/// Lowest and highest compression level.
///
/// Calls `zstd::compression_level_range`. Its ends are fixed in the C library: the lowest
/// level is the negated longest target length, a block of 128 KiB, and the highest is 22.
#[verifier::external_body]
fn zstd_level_range() -> (range: (i32, i32))
    ensures
        range.0 == ZSTD_MIN_LEVEL,
        range.1 == ZSTD_MAX_LEVEL,
{
    let range = zstd::compression_level_range();
    (*range.start(), *range.end())
}

/// Whether zstd has a compression level.
pub fn zstd_has_level(level: i32) -> (has: bool)
    ensures
        has == zstd_level(level),
{
    let (lowest, highest) = zstd_level_range();
    lowest <= level && level <= highest
}

} // verus!
