use vstd::prelude::*;
use std::io::Read;
use crate::error::ArchiveError;

verus! {

/// Brotli quality used for every chunk.
pub const BROTLI_QUALITY: u32 = 11;
/// Brotli window size (log2) used for every chunk.
pub const BROTLI_WINDOW: u32 = 22;
/// Buffer size of the brotli encoder and decoder streams.
pub const BROTLI_BUFFER: usize = 4096;
/// xz preset used for every chunk.
pub const LZMA_PRESET: u32 = 6;
/// zstd level used for every chunk.
pub const ZSTD_LEVEL: i32 = 3;
/// Chunks longer than this many bytes are compressed with brotli, the others with zstd.
pub const BROTLI_THRESHOLD: usize = 1048576;

/// The compression algorithm of one chunk.
#[derive(Debug, Clone, Copy, PartialEq, Eq, Structural)]
pub enum Algo {
    Brotli,
    Lzma,
    Zstd,
}

/// The tag that names an algorithm in an archive header.
pub open spec fn tag_of(a: Algo) -> Seq<char> {
    match a {
        Algo::Brotli => "brotli"@,
        Algo::Lzma => "lzma"@,
        Algo::Zstd => "zstd"@,
    }
}

/// The algorithm chosen for a chunk of `len` bytes.
pub open spec fn select_spec(len: nat) -> Algo {
    if len > BROTLI_THRESHOLD {
        Algo::Brotli
    } else {
        Algo::Zstd
    }
}

/// What `brotli::CompressorReader` produces for `data` with the given buffer, quality and
/// window, or `None` where it reports an error.
pub uninterp spec fn brotli_stream_of(data: Seq<u8>, buffer: usize, quality: u32, window: u32) -> Option<Seq<u8>>;

/// What `lzma::compress` produces for `data` at the given preset, or `None` on an error.
pub uninterp spec fn xz_stream_of(data: Seq<u8>, preset: u32) -> Option<Seq<u8>>;

/// What `zstd::stream::encode_all` produces for `data` at the given level, or `None` on an error.
pub uninterp spec fn zstd_frame_of(data: Seq<u8>, level: i32) -> Option<Seq<u8>>;

/// The bytes that the library's compressor settings give for `data` under `algo`, if the
/// compressor succeeds.
pub open spec fn compressed_of(algo: Algo, data: Seq<u8>) -> Option<Seq<u8>> {
    match algo {
        Algo::Brotli => brotli_stream_of(data, BROTLI_BUFFER, BROTLI_QUALITY, BROTLI_WINDOW),
        Algo::Lzma => xz_stream_of(data, LZMA_PRESET),
        Algo::Zstd => zstd_frame_of(data, ZSTD_LEVEL),
    }
}

/// Relies on `brotli::CompressorReader`: reading it to the end yields the compressed stream.
#[verifier::external_body]
fn brotli_compress(data: &[u8], buffer: usize, quality: u32, window: u32) -> (r: Option<Vec<u8>>)
    ensures
        match r {
            Some(v) => brotli_stream_of(data@, buffer, quality, window) == Some(v@),
            None => brotli_stream_of(data@, buffer, quality, window) is None,
        },
{
    let mut out = Vec::new();
    let mut reader = brotli::CompressorReader::new(data, buffer, quality, window);
    reader.read_to_end(&mut out).ok().map(|_| out)
}

/// Relies on `brotli::Decompressor`: a stream that the encoder made decodes to its input.
#[verifier::external_body]
fn brotli_decompress(data: &[u8], buffer: usize) -> (r: Option<Vec<u8>>)
    ensures
        match r {
            Some(v) => forall|x: Seq<u8>, b: usize|
                #[trigger] brotli_stream_of(x, b, BROTLI_QUALITY, BROTLI_WINDOW) == Some(data@) ==> v@ == x,
            None => forall|x: Seq<u8>, b: usize|
                #[trigger] brotli_stream_of(x, b, BROTLI_QUALITY, BROTLI_WINDOW) != Some(data@),
        },
{
    let mut out = Vec::new();
    let mut reader = brotli::Decompressor::new(data, buffer);
    reader.read_to_end(&mut out).ok().map(|_| out)
}

/// Relies on `lzma::compress` (package rust-lzma): the xz stream of `data`.
#[verifier::external_body]
fn xz_compress(data: &[u8], preset: u32) -> (r: Option<Vec<u8>>)
    ensures
        match r {
            Some(v) => xz_stream_of(data@, preset) == Some(v@),
            None => xz_stream_of(data@, preset) is None,
        },
{
    lzma::compress(data, preset).ok()
}

/// Relies on `lzma::decompress` (package rust-lzma): an xz stream decodes to its input.
#[verifier::external_body]
fn xz_decompress(data: &[u8]) -> (r: Option<Vec<u8>>)
    ensures
        match r {
            Some(v) => forall|x: Seq<u8>, p: u32| #[trigger] xz_stream_of(x, p) == Some(data@) ==> v@ == x,
            None => forall|x: Seq<u8>, p: u32| #[trigger] xz_stream_of(x, p) != Some(data@),
        },
{
    lzma::decompress(data).ok()
}

/// Relies on `zstd::stream::encode_all`: one zstd frame holding `data`.
#[verifier::external_body]
fn zstd_compress(data: &[u8], level: i32) -> (r: Option<Vec<u8>>)
    ensures
        match r {
            Some(v) => zstd_frame_of(data@, level) == Some(v@),
            None => zstd_frame_of(data@, level) is None,
        },
{
    zstd::stream::encode_all(data, level).ok()
}

/// Relies on `zstd::stream::decode_all`: a zstd frame decodes to its input.
#[verifier::external_body]
fn zstd_decompress(data: &[u8]) -> (r: Option<Vec<u8>>)
    ensures
        match r {
            Some(v) => forall|x: Seq<u8>, l: i32| #[trigger] zstd_frame_of(x, l) == Some(data@) ==> v@ == x,
            None => forall|x: Seq<u8>, l: i32| #[trigger] zstd_frame_of(x, l) != Some(data@),
        },
{
    zstd::stream::decode_all(data).ok()
}

impl Algo {
    /// The header tag of this algorithm.
    pub fn tag(&self) -> (r: String)
        ensures
            r@ == tag_of(*self),
    {
        match self {
            Algo::Brotli => "brotli".to_owned(),
            Algo::Lzma => "lzma".to_owned(),
            Algo::Zstd => "zstd".to_owned(),
        }
    }

    /// The algorithm that a header tag names; an unknown tag means a corrupt archive.
    pub fn from_tag(tag: &str) -> (r: Result<Algo, ArchiveError>)
        ensures
            r matches Ok(a) ==> tag_of(a) == tag@,
            r is Err ==> r == Err::<Algo, ArchiveError>(ArchiveError::CorruptArchive)
                && tag@ != "brotli"@ && tag@ != "lzma"@ && tag@ != "zstd"@,
    {
        let t = tag.to_owned();
        if t == "brotli".to_owned() {
            Ok(Algo::Brotli)
        } else if t == "lzma".to_owned() {
            Ok(Algo::Lzma)
        } else if t == "zstd".to_owned() {
            Ok(Algo::Zstd)
        } else {
            Err(ArchiveError::CorruptArchive)
        }
    }
}

/// Chooses the algorithm of a chunk from its length: brotli above one MiB, zstd otherwise.
pub fn select_algo(chunk: &[u8]) -> (r: Algo)
    ensures
        r == select_spec(chunk@.len()),
{
    if chunk.len() > BROTLI_THRESHOLD {
        Algo::Brotli
    } else {
        Algo::Zstd
    }
}

/// Compresses `data` with `algo` at the library's settings.
pub fn compress(algo: Algo, data: &[u8]) -> (r: Result<Vec<u8>, ArchiveError>)
    ensures
        r matches Ok(v) ==> compressed_of(algo, data@) == Some(v@),
        r is Ok <==> compressed_of(algo, data@) is Some,
        r is Err ==> r == Err::<Vec<u8>, ArchiveError>(ArchiveError::Codec),
{
    let out = match algo {
        Algo::Brotli => brotli_compress(data, BROTLI_BUFFER, BROTLI_QUALITY, BROTLI_WINDOW),
        Algo::Lzma => xz_compress(data, LZMA_PRESET),
        Algo::Zstd => zstd_compress(data, ZSTD_LEVEL),
    };
    match out {
        Some(v) => Ok(v),
        None => Err(ArchiveError::Codec),
    }
}

/// Decompresses a payload made by `compress` with `algo`; any failure means a corrupt archive.
pub fn decompress(algo: Algo, data: &[u8]) -> (r: Result<Vec<u8>, ArchiveError>)
    ensures
        forall|x: Seq<u8>| #![trigger compressed_of(algo, x)]
            compressed_of(algo, x) == Some(data@) ==> (r matches Ok(v) && v@ == x),
        r is Err ==> r == Err::<Vec<u8>, ArchiveError>(ArchiveError::CorruptArchive),
{
    let out = match algo {
        Algo::Brotli => brotli_decompress(data, BROTLI_BUFFER),
        Algo::Lzma => xz_decompress(data),
        Algo::Zstd => zstd_decompress(data),
    };
    match out {
        Some(v) => Ok(v),
        None => Err(ArchiveError::CorruptArchive),
    }
}

} // verus!
