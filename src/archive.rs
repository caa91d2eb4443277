use vstd::prelude::*;
use crate::chunker::{chunks_from, concat_all, split_chunks, lemma_concat_push, lemma_concat_skip};
use crate::cipher::{store, unstore, stored_as};
use crate::codec::{Algo, compress, compressed_of, decompress, select_algo, select_spec};
use crate::error::ArchiveError;
use crate::bytes::{be_bytes, be_value, lemma_be_round_trip, push_be_u64, read_be_u64};
use crate::totp::{accepted, base32_decode_of, check_otp};

verus! {

/// Default chunk size: 5 MiB.
pub const DEFAULT_CHUNK_SIZE: usize = 5242880;
/// The byte that ends the archive header.
pub const HEADER_END: u8 = 10;

/// What a builder or a reader is configured with.
#[derive(Debug, Clone)]
pub struct ArchiveConfig {
    /// Bytes per chunk; must be positive.
    pub chunk_size: usize,
    /// Whether header, payloads and footer are sealed.
    pub encryption_enabled: bool,
    /// Base32 TOTP secret; extraction asks for a code exactly when it is present.
    pub secret_key: Option<String>,
    /// Passphrase from which each sealed blob's key is derived.
    pub passphrase: Vec<u8>,
}

/// What the header records of one chunk.
#[derive(Debug, Clone, PartialEq, Eq)]
pub struct ChunkMetadata {
    pub file_name: String,
    pub chunk_id: usize,
    pub original_size: usize,
    pub compressed_size: usize,
    pub compression_algo: Algo,
}

/// The archive header.
#[derive(Debug, Clone, PartialEq, Eq)]
pub struct ArchiveMetadata {
    pub chunks: Vec<ChunkMetadata>,
    pub encryption_enabled: bool,
    pub requires_2fa: bool,
    pub secret_key: Option<String>,
}

/// The plaintext of one chunk, as extraction returns it, with the file it belongs to.
#[derive(Debug, Clone, PartialEq, Eq)]
pub struct ExtractedChunk {
    pub file_name: String,
    pub data: Vec<u8>,
}

/// An archive being built, or a reader configured to extract one.
pub struct MoonBallArchive {
    metadata: ArchiveMetadata,
    payloads: Vec<Vec<u8>>,
    chunk_size: usize,
    passphrase: Vec<u8>,
    originals: Ghost<Seq<Seq<u8>>>,
}

/// `payload` is how the archive stores chunk `c`, whose original bytes are `plain`.
pub open spec fn chunk_stored(pass: Seq<u8>, encrypted: bool, c: ChunkMetadata, payload: Seq<u8>, plain: Seq<u8>) -> bool {
    &&& payload.len() == c.compressed_size
    &&& plain.len() == c.original_size
    &&& compressed_of(c.compression_algo, plain) matches Some(z)
    &&& stored_as(pass, encrypted, payload, z)
}

/// The archive bytes: the header length as eight big-endian bytes, the stored header,
/// a line feed, the payloads with no framing, and the stored footer.
pub open spec fn layout(hb: Seq<u8>, payloads: Seq<Seq<u8>>, fb: Seq<u8>) -> Seq<u8> {
    be_bytes(hb.len() as u64) + hb + seq![HEADER_END] + concat_all(payloads) + fb
}

/// What `md5::compute` gives, printed as 32 lowercase hex digits.
pub uninterp spec fn md5_hex_of(data: Seq<u8>) -> Seq<u8>;

/// Relies on `md5::compute` and the digest's `LowerHex` format: 32 hex digits.
#[verifier::external_body]
fn md5_hex(data: &[u8]) -> (r: Vec<u8>)
    ensures
        r@ == md5_hex_of(data@),
        r@.len() == 32,
{
    format!("{:x}", md5::compute(data)).into_bytes()
}

/// `ar` is laid out from the stored header `hb` of plaintext `h`, the payloads of the
/// given chunk entries and originals, and some footer `fb`.
pub open spec fn intact_parts(
    pass: Seq<u8>,
    encrypted: bool,
    ar: Seq<u8>,
    h: Seq<u8>,
    chunks: Seq<ChunkMetadata>,
    plain: Seq<Seq<u8>>,
    hb: Seq<u8>,
    payloads: Seq<Seq<u8>>,
    fb: Seq<u8>,
) -> bool {
    &&& ar == layout(hb, payloads, fb)
    &&& hb.len() <= u64::MAX
    &&& stored_as(pass, encrypted, hb, h)
    &&& payloads.len() == chunks.len()
    &&& plain.len() == chunks.len()
    &&& forall|i: int| 0 <= i < chunks.len() ==>
        #[trigger] chunk_stored(pass, encrypted, chunks[i], payloads[i], plain[i])
}

/// `ar` is an archive with header plaintext `h`, the given chunk entries and chunk
/// originals, cut into its parts `hb`, `payloads` and `fb`; the footer stores the MD5
/// hex of `h`.
pub open spec fn archive_parts(
    pass: Seq<u8>,
    encrypted: bool,
    ar: Seq<u8>,
    h: Seq<u8>,
    chunks: Seq<ChunkMetadata>,
    plain: Seq<Seq<u8>>,
    hb: Seq<u8>,
    payloads: Seq<Seq<u8>>,
    fb: Seq<u8>,
) -> bool {
    &&& intact_parts(pass, encrypted, ar, h, chunks, plain, hb, payloads, fb)
    &&& stored_as(pass, encrypted, fb, md5_hex_of(h))
}

/// The errors that reading an archive's layout and chunks can give.
pub open spec fn read_error(e: ArchiveError) -> bool {
    e == ArchiveError::CorruptArchive || e == ArchiveError::DecryptionFailed
}

/// `ar` is an archive with header plaintext `h` whose chunks hold `plain`.
pub open spec fn archive_holds(
    pass: Seq<u8>,
    encrypted: bool,
    ar: Seq<u8>,
    h: Seq<u8>,
    chunks: Seq<ChunkMetadata>,
    plain: Seq<Seq<u8>>,
) -> bool {
    exists|hb: Seq<u8>, payloads: Seq<Seq<u8>>, fb: Seq<u8>|
        #[trigger] archive_parts(pass, encrypted, ar, h, chunks, plain, hb, payloads, fb)
}

/// The OTP gate lets an extraction through.
pub open spec fn gate_open(meta: ArchiveMetadata, otp: Option<&str>, now: u64) -> bool {
    !meta.requires_2fa || (otp matches Some(c) && meta.secret_key matches Some(s)
        && base32_decode_of(s@) matches Some(k) && accepted(k, now, c@))
}

/// The extracted chunks are the header's entries, in order, with the given plaintexts.
pub open spec fn pieces_match(out: Seq<ExtractedChunk>, chunks: Seq<ChunkMetadata>, plain: Seq<Seq<u8>>) -> bool {
    &&& out.len() == chunks.len()
    &&& forall|k: int| 0 <= k < out.len() ==>
        (#[trigger] out[k]).file_name@ == chunks[k].file_name@ && out[k].data@ == plain[k]
}

/// The entry that a builder records for chunk `id` of `path`, with original `plain`
/// and stored payload `payload`.
pub open spec fn entry_for(c: ChunkMetadata, path: Seq<char>, id: int, plain: Seq<u8>) -> bool {
    &&& c.file_name@ == path
    &&& c.chunk_id == id
    &&& c.compression_algo == select_spec(plain.len())
    &&& c.original_size == plain.len()
}

/// Every chunk of `pieces` compresses under the algorithm the selector picks for it.
pub open spec fn all_compress(pieces: Seq<Seq<u8>>) -> bool {
    forall|j: int| 0 <= j < pieces.len() ==>
        (#[trigger] compressed_of(select_spec(pieces[j].len()), pieces[j])) is Some
}

/// The total of the stored sizes of a sequence of entries.
pub open spec fn sum_sizes(chunks: Seq<ChunkMetadata>) -> nat
    decreases chunks.len(),
{
    if chunks.len() == 0 {
        0
    } else {
        sum_sizes(chunks.drop_last()) + chunks.last().compressed_size as nat
    }
}

/// A prefix never totals more than the whole.
proof fn lemma_sum_prefix(chunks: Seq<ChunkMetadata>, i: int)
    requires
        0 <= i <= chunks.len(),
    ensures
        sum_sizes(chunks.subrange(0, i)) <= sum_sizes(chunks),
    decreases chunks.len() - i,
{
    if i < chunks.len() {
        lemma_sum_prefix(chunks, i + 1);
        assert(chunks.subrange(0, i + 1).drop_last() =~= chunks.subrange(0, i));
    } else {
        assert(chunks.subrange(0, i) =~= chunks);
    }
}

/// Length of the stored footer: 32 hex digits, sealed when encryption is on.
pub open spec fn footer_len(encrypted: bool) -> nat {
    if encrypted { crate::cipher::sealed_len(32) } else { 32 }
}

/// The header length that the first eight bytes announce, when a line feed follows a
/// header of that length.
pub open spec fn header_span_of(ar: Seq<u8>) -> Option<nat> {
    if ar.len() < 9 {
        None
    } else {
        let n = be_value(ar[0], ar[1], ar[2], ar[3], ar[4], ar[5], ar[6], ar[7]) as nat;
        if n + 9 <= ar.len() && ar[8 + n as int] == HEADER_END { Some(n) } else { None }
    }
}

/// `ar` starts with the length of `hb`, `hb` itself and a line feed.
pub open spec fn header_prefix(ar: Seq<u8>, hb: Seq<u8>) -> bool {
    &&& hb.len() <= u64::MAX
    &&& 9 + hb.len() <= ar.len()
    &&& ar.subrange(0, 8) == be_bytes(hb.len() as u64)
    &&& ar.subrange(8, 8 + hb.len() as int) == hb
    &&& ar[8 + hb.len() as int] == HEADER_END
}

/// The header length, read from the first eight bytes, when a line feed follows the
/// header it announces.
fn header_span(ar: &[u8]) -> (r: Option<usize>)
    ensures
        r matches Some(n) ==> n + 9 <= ar@.len() && n + 9 <= ar.len(),
        r matches Some(n) ==> header_span_of(ar@) == Some(n as nat),
        r is None ==> header_span_of(ar@) is None,
        forall|hb: Seq<u8>| #[trigger] header_prefix(ar@, hb) ==> r == Some(hb.len() as usize),
{
    if ar.len() < 9 {
        return None;
    }
    let n64 = read_be_u64(ar, 0);
    proof {
        assert forall|hb: Seq<u8>| #[trigger] header_prefix(ar@, hb) implies n64 == hb.len() by {
            let b = be_bytes(hb.len() as u64);
            assert forall|k: int| 0 <= k < 8 implies ar@[k] == b[k] by {
                assert(ar@.subrange(0, 8)[k] == ar@[k]);
            }
            lemma_be_round_trip(hb.len() as u64);
        }
    }
    if n64 > (ar.len() - 9) as u64 {
        return None;
    }
    let n = n64 as usize;
    if ar[8 + n] != HEADER_END {
        return None;
    }
    Some(n)
}

/// From offset `pos` the archive holds the payloads from index `i` on, then the footer.
pub open spec fn rest_from(ar: Seq<u8>, pos: int, payloads: Seq<Seq<u8>>, i: int, fb: Seq<u8>) -> bool {
    ar.subrange(pos, ar.len() as int) == concat_all(payloads.subrange(i, payloads.len() as int)) + fb
}

/// Reading payload `i` at `pos` leaves the archive at payload `i + 1`.
proof fn lemma_step(ar: Seq<u8>, pos: int, payloads: Seq<Seq<u8>>, i: int, fb: Seq<u8>)
    requires
        0 <= pos <= ar.len(),
        0 <= i < payloads.len(),
        rest_from(ar, pos, payloads, i, fb),
    ensures
        pos + payloads[i].len() <= ar.len(),
        ar.subrange(pos, pos + payloads[i].len()) == payloads[i],
        rest_from(ar, pos + payloads[i].len(), payloads, i + 1, fb),
{
    lemma_concat_skip(payloads, i);
    let tail = concat_all(payloads.subrange(i + 1, payloads.len() as int)) + fb;
    let r = ar.subrange(pos, ar.len() as int);
    assert(r =~= payloads[i] + tail);
    assert(r.len() == payloads[i].len() + tail.len());
    assert(ar.subrange(pos, pos + payloads[i].len()) =~= r.subrange(0, payloads[i].len() as int));
    assert(ar.subrange(pos + payloads[i].len(), ar.len() as int) =~= r.subrange(payloads[i].len() as int, r.len() as int));
    assert(r.subrange(payloads[i].len() as int, r.len() as int) =~= tail);
}

/// After the header the archive holds all payloads, then the footer.
proof fn lemma_body_start(hb: Seq<u8>, payloads: Seq<Seq<u8>>, fb: Seq<u8>)
    ensures
        layout(hb, payloads, fb).subrange(0, 8) == be_bytes(hb.len() as u64),
        layout(hb, payloads, fb).subrange(8, 8 + hb.len() as int) == hb,
        rest_from(layout(hb, payloads, fb), 9 + hb.len() as int, payloads, 0, fb),
        hb.len() <= u64::MAX ==> header_prefix(layout(hb, payloads, fb), hb),
{
    let b = be_bytes(hb.len() as u64);
    let l = layout(hb, payloads, fb);
    let c = concat_all(payloads);
    assert(l =~= b + (hb + (seq![HEADER_END] + (c + fb))));
    assert(l.subrange(0, 8) =~= b);
    assert(l.subrange(8, 8 + hb.len() as int) =~= hb);
    assert(payloads.subrange(0, payloads.len() as int) =~= payloads);
    assert(l.subrange(9 + hb.len() as int, l.len() as int) =~= c + fb);
    assert(l[8 + hb.len() as int] == HEADER_END);
}

/// The concatenated payloads are as long as the sizes their entries record.
proof fn lemma_concat_len(payloads: Seq<Seq<u8>>, chunks: Seq<ChunkMetadata>)
    requires
        payloads.len() == chunks.len(),
        forall|i: int| 0 <= i < chunks.len() ==> (#[trigger] payloads[i]).len() == chunks[i].compressed_size,
    ensures
        concat_all(payloads).len() == sum_sizes(chunks),
    decreases payloads.len(),
{
    if payloads.len() > 0 {
        let k = payloads.len() - 1;
        assert(payloads.drop_last().push(payloads.last()) =~= payloads);
        lemma_concat_push(payloads.drop_last(), payloads.last());
        assert forall|i: int| 0 <= i < chunks.drop_last().len() implies
            (#[trigger] payloads.drop_last()[i]).len() == chunks.drop_last()[i].compressed_size by {
            assert(payloads.drop_last()[i] == payloads[i]);
        }
        lemma_concat_len(payloads.drop_last(), chunks.drop_last());
        assert(payloads[k].len() == chunks[k].compressed_size);
    } else {
        assert(concat_all(payloads) == Seq::<u8>::empty());
    }
}

/// At the end of the payloads the archive holds only the footer.
proof fn lemma_footer(ar: Seq<u8>, pos: int, payloads: Seq<Seq<u8>>, fb: Seq<u8>)
    requires
        rest_from(ar, pos, payloads, payloads.len() as int, fb),
    ensures
        ar.subrange(pos, ar.len() as int) == fb,
{
    assert(payloads.subrange(payloads.len() as int, payloads.len() as int) =~= Seq::<Seq<u8>>::empty());
    assert(concat_all(Seq::<Seq<u8>>::empty()) == Seq::<u8>::empty());
    assert(Seq::<u8>::empty() + fb =~= fb);
}

impl MoonBallArchive {
    /// The chunk entries recorded so far, in body order.
    pub closed spec fn chunks(&self) -> Seq<ChunkMetadata> {
        self.metadata.chunks@
    }

    /// The original bytes of each recorded chunk.
    pub closed spec fn originals(&self) -> Seq<Seq<u8>> {
        self.originals@
    }

    /// The stored payload of each recorded chunk.
    pub closed spec fn payload_views(&self) -> Seq<Seq<u8>> {
        Seq::new(self.payloads@.len(), |i: int| self.payloads@[i]@)
    }

    pub closed spec fn pass(&self) -> Seq<u8> {
        self.passphrase@
    }

    pub closed spec fn encrypted(&self) -> bool {
        self.metadata.encryption_enabled
    }

    pub closed spec fn requires_2fa(&self) -> bool {
        self.metadata.requires_2fa
    }

    /// The base32 OTP secret recorded in the header, if any.
    pub closed spec fn secret(&self) -> Option<String> {
        self.metadata.secret_key
    }

    /// Each recorded entry, payload and original agree: the payload stores the
    /// compressed original, at the sizes the entry records.
    pub open spec fn contents_stored(&self) -> bool {
        &&& self.payload_views().len() == self.chunks().len()
        &&& self.originals().len() == self.chunks().len()
        &&& forall|i: int| 0 <= i < self.chunks().len() ==>
            #[trigger] chunk_stored(self.pass(), self.encrypted(), self.chunks()[i],
                self.payload_views()[i], self.originals()[i])
    }

    proof fn lemma_wf_contents(&self)
        requires
            self.wf(),
        ensures
            self.contents_stored(),
            self.requires_2fa() == (self.secret() is Some),
            self.secret() matches Some(s) ==> s@.len() > 0,
    {
        assert forall|i: int| 0 <= i < self.chunks().len() implies
            #[trigger] chunk_stored(self.pass(), self.encrypted(), self.chunks()[i],
                self.payload_views()[i], self.originals()[i]) by {
            assert(chunk_stored(self.passphrase@, self.metadata.encryption_enabled,
                self.metadata.chunks@[i], self.payloads@[i]@, self.originals@[i]));
        }
    }

    pub closed spec fn chunk_size_spec(&self) -> nat {
        self.chunk_size as nat
    }

    /// Every recorded payload stores its chunk, and the OTP settings agree.
    pub closed spec fn wf(&self) -> bool {
        &&& self.chunk_size > 0
        &&& self.payloads@.len() == self.metadata.chunks@.len()
        &&& self.originals@.len() == self.metadata.chunks@.len()
        &&& forall|i: int| 0 <= i < self.metadata.chunks@.len() ==>
            #[trigger] chunk_stored(self.passphrase@, self.metadata.encryption_enabled,
                self.metadata.chunks@[i], self.payloads@[i]@, self.originals@[i])
        &&& self.metadata.requires_2fa == (self.metadata.secret_key is Some)
        &&& (self.metadata.secret_key matches Some(s) ==> s@.len() > 0)
    }

    /// A builder with no chunks. A zero chunk size, or an empty OTP secret, is a
    /// configuration error.
    pub fn new(config: ArchiveConfig) -> (r: Result<MoonBallArchive, ArchiveError>)
        ensures
            (config.chunk_size == 0 || (config.secret_key matches Some(s) && s@.len() == 0))
                <==> r == Err::<MoonBallArchive, ArchiveError>(ArchiveError::Config),
            r is Err ==> r == Err::<MoonBallArchive, ArchiveError>(ArchiveError::Config),
            r matches Ok(a) ==> {
                &&& a.wf()
                &&& a.contents_stored()
                &&& a.chunks().len() == 0
                &&& a.payload_views().len() == 0
                &&& a.originals().len() == 0
                &&& a.secret() == config.secret_key
                &&& a.pass() == config.passphrase@
                &&& a.encrypted() == config.encryption_enabled
                &&& a.requires_2fa() == (config.secret_key is Some)
                &&& a.chunk_size_spec() == config.chunk_size
            },
    {
        if config.chunk_size == 0 {
            return Err(ArchiveError::Config);
        }
        let requires_2fa = match &config.secret_key {
            Some(s) => {
                if s.as_str().is_empty() {
                    return Err(ArchiveError::Config);
                }
                true
            },
            None => false,
        };
        let a = MoonBallArchive {
            metadata: ArchiveMetadata {
                chunks: Vec::new(),
                encryption_enabled: config.encryption_enabled,
                requires_2fa,
                secret_key: config.secret_key,
            },
            payloads: Vec::new(),
            chunk_size: config.chunk_size,
            passphrase: config.passphrase,
            originals: Ghost(Seq::empty()),
        };
        proof { a.lemma_wf_contents(); }
        Ok(a)
    }

    /// The header as built so far.
    pub fn metadata(&self) -> (r: &ArchiveMetadata)
        ensures
            r.chunks@ == self.chunks(),
            r.encryption_enabled == self.encrypted(),
            r.requires_2fa == self.requires_2fa(),
            r.secret_key == self.secret(),
    {
        &self.metadata
    }

    /// Runs the chunk pipeline on one chunk: picks the algorithm, compresses, and seals
    /// when encryption is on. Returns the entry and the payload.
    pub fn compress_chunk(&self, chunk: &[u8], file_path: &str, chunk_id: usize) -> (r: Result<(ChunkMetadata, Vec<u8>), ArchiveError>)
        ensures
            r matches Ok((c, p)) ==> {
                &&& entry_for(c, file_path@, chunk_id as int, chunk@)
                &&& chunk_stored(self.pass(), self.encrypted(), c, p@, chunk@)
            },
            compressed_of(select_spec(chunk@.len()), chunk@) is Some <==> r is Ok,
            r is Err ==> r == Err::<(ChunkMetadata, Vec<u8>), ArchiveError>(ArchiveError::Codec),
    {
        let algo = select_algo(chunk);
        let compressed = match compress(algo, chunk) {
            Ok(v) => v,
            Err(e) => return Err(e),
        };
        let payload = store(self.passphrase.as_slice(), self.metadata.encryption_enabled, compressed.as_slice());
        let c = ChunkMetadata {
            file_name: file_path.to_owned(),
            chunk_id,
            original_size: chunk.len(),
            compressed_size: payload.len(),
            compression_algo: algo,
        };
        Ok((c, payload))
    }

    /// Splits `data`, the contents of `file_path`, into chunks of the configured size
    /// and runs each through the chunk pipeline, appending entries and payloads in chunk
    /// order. An empty file is refused; on any error the archive is left as it was.
    pub fn add_file(&mut self, file_path: &str, data: &[u8]) -> (r: Result<(), ArchiveError>)
        requires
            old(self).wf(),
        ensures
            final(self).wf(),
            final(self).pass() == old(self).pass(),
            final(self).encrypted() == old(self).encrypted(),
            final(self).requires_2fa() == old(self).requires_2fa(),
            final(self).chunk_size_spec() == old(self).chunk_size_spec(),
            data@.len() == 0 ==> r == Err::<(), ArchiveError>(ArchiveError::Usage),
            r is Err ==> (r == Err::<(), ArchiveError>(ArchiveError::Usage)
                || r == Err::<(), ArchiveError>(ArchiveError::Codec)),
            final(self).secret() == old(self).secret(),
            final(self).contents_stored(),
            data@.len() > 0 && all_compress(split_chunks(data@, old(self).chunk_size_spec())) ==> r is Ok,
            r == Err::<(), ArchiveError>(ArchiveError::Codec)
                ==> !all_compress(split_chunks(data@, old(self).chunk_size_spec())),
            r is Err ==> final(self).chunks() == old(self).chunks()
                && final(self).originals() == old(self).originals()
                && final(self).payload_views() == old(self).payload_views(),
            r is Ok ==> {
                let n = old(self).chunks().len();
                let pieces = split_chunks(data@, old(self).chunk_size_spec());
                &&& final(self).originals() == old(self).originals() + pieces
                &&& final(self).chunks().len() == n + pieces.len()
                &&& final(self).chunks().subrange(0, n as int) == old(self).chunks()
                &&& final(self).payload_views().subrange(0, n as int) == old(self).payload_views()
                &&& forall|j: int| 0 <= j < pieces.len() ==>
                    #[trigger] entry_for(final(self).chunks()[n + j], file_path@, j, pieces[j])
            },
    {
        if data.len() == 0 {
            proof { self.lemma_wf_contents(); }
            return Err(ArchiveError::Usage);
        }
        let size = self.chunk_size;
        let mut entries: Vec<ChunkMetadata> = Vec::new();
        let mut payloads: Vec<Vec<u8>> = Vec::new();
        let ghost mut pieces: Seq<Seq<u8>> = Seq::empty();
        let mut pos: usize = 0;
        let mut id: usize = 0;
        while pos < data.len()
            invariant
                *self == *old(self),
                self.wf(),
                size == self.chunk_size,
                id <= pos,
                size > 0,
                pos <= data@.len(),
                id == entries@.len(),
                entries@.len() == payloads@.len(),
                entries@.len() == pieces.len(),
                split_chunks(data@, size as nat) == pieces + chunks_from(data@, size as nat, pos as nat),
                forall|j: int| 0 <= j < entries@.len() ==>
                    #[trigger] entry_for(entries@[j], file_path@, j, pieces[j])
                    && chunk_stored(self.passphrase@, self.metadata.encryption_enabled, entries@[j],
                        payloads@[j]@, pieces[j]),
            decreases data@.len() - pos,
        {
            let end: usize = if data.len() - pos > size { pos + size } else { data.len() };
            let chunk = &data[pos..end];
            proof {
                let rest = chunks_from(data@, size as nat, pos as nat);
                assert(rest == seq![chunk@] + chunks_from(data@, size as nat, end as nat));
                assert(split_chunks(data@, size as nat)[id as int] == chunk@);
            }
            let (c, p) = match self.compress_chunk(chunk, file_path, id) {
                Ok(cp) => cp,
                Err(e) => {
                    proof { self.lemma_wf_contents(); }
                    return Err(e);
                },
            };
            proof {
                let rest = chunks_from(data@, size as nat, pos as nat);
                assert(pieces.push(chunk@) + chunks_from(data@, size as nat, end as nat)
                    =~= pieces + rest);
                pieces = pieces.push(chunk@);
            }
            entries.push(c);
            payloads.push(p);
            pos = end;
            id = id + 1;
        }
        proof {
            assert(chunks_from(data@, size as nat, pos as nat) =~= Seq::<Seq<u8>>::empty());
            assert(pieces =~= split_chunks(data@, size as nat));
        }
        let ghost n = self.metadata.chunks@.len();
        let ghost old_entries = self.metadata.chunks@;
        let ghost new_entries = entries@;
        let ghost old_payloads = self.payloads@;
        let ghost new_payloads = payloads@;
        let ghost old_originals = self.originals@;
        self.metadata.chunks.append(&mut entries);
        self.payloads.append(&mut payloads);
        self.originals = Ghost(self.originals@ + pieces);
        proof {
            assert(self.metadata.chunks@.subrange(0, n as int) =~= old_entries);
            assert forall|i: int| 0 <= i < self.metadata.chunks@.len() implies
                #[trigger] chunk_stored(self.passphrase@, self.metadata.encryption_enabled,
                    self.metadata.chunks@[i], self.payloads@[i]@, self.originals@[i]) by {
                if i >= n {
                    let j = i - n;
                    assert(self.metadata.chunks@[i] == new_entries[j]);
                    assert(self.payloads@[i] == new_payloads[j]);
                    assert(self.originals@[i] == pieces[j]);
                    assert(entry_for(new_entries[j], file_path@, j, pieces[j]));
                } else {
                    assert(old_entries == old(self).metadata.chunks@);
                    assert(chunk_stored(old(self).passphrase@, old(self).metadata.encryption_enabled,
                        old(self).metadata.chunks@[i], old(self).payloads@[i]@, old(self).originals@[i]));
                    assert(self.metadata.chunks@[i] == old_entries[i]);
                    assert(self.payloads@[i] == old_payloads[i]);
                    assert(self.originals@[i] == old_originals[i]);
                }
            }
            assert forall|j: int| 0 <= j < pieces.len() implies
                #[trigger] entry_for(self.metadata.chunks@[n + j], file_path@, j, pieces[j]) by {
                assert(self.metadata.chunks@[n + j] == new_entries[j]);
            }
            assert(self.payload_views().subrange(0, n as int) =~= old(self).payload_views());
            self.lemma_wf_contents();
        }
        Ok(())
    }

    /// Lays out the archive: the header length, the header (sealed when encryption is on),
    /// a line feed, every payload in entry order, and the footer, which is the MD5 hex of
    /// the plaintext header (sealed when encryption is on). `header_json` is the header's
    /// serialised form.
    pub fn save_archive(&self, header_json: &[u8]) -> (r: Vec<u8>)
        requires
            self.wf(),
        ensures
            exists|hb: Seq<u8>, fb: Seq<u8>| #[trigger] archive_parts(self.pass(), self.encrypted(), r@,
                header_json@, self.chunks(), self.originals(), hb, self.payload_views(), fb),
            archive_holds(self.pass(), self.encrypted(), r@, header_json@, self.chunks(), self.originals()),
            exists|hb: Seq<u8>| #[trigger] header_prefix(r@, hb)
                && stored_as(self.pass(), self.encrypted(), hb, header_json@)
                && r@.len() == 9 + hb.len() + sum_sizes(self.chunks()) + footer_len(self.encrypted()),
    {
        let pass = self.passphrase.as_slice();
        let enc = self.metadata.encryption_enabled;
        let hb = store(pass, enc, header_json);
        let mut out: Vec<u8> = Vec::new();
        push_be_u64(&mut out, hb.len() as u64);
        out.extend_from_slice(hb.as_slice());
        out.push(HEADER_END);
        let ghost start = out@;
        let n = self.payloads.len();
        let mut i: usize = 0;
        while i < n
            invariant
                n == self.payloads@.len(),
                i <= n,
                out@ == start + concat_all(self.payload_views().subrange(0, i as int)),
            decreases n - i,
        {
            out.extend_from_slice(self.payloads[i].as_slice());
            proof {
                let pv = self.payload_views();
                assert(pv.subrange(0, i + 1) =~= pv.subrange(0, i as int).push(pv[i as int]));
                lemma_concat_push(pv.subrange(0, i as int), pv[i as int]);
            }
            i = i + 1;
        }
        let digest = md5_hex(header_json);
        let fb = store(pass, enc, digest.as_slice());
        out.extend_from_slice(fb.as_slice());
        proof {
            let pv = self.payload_views();
            assert(pv.subrange(0, n as int) =~= pv);
            assert(out@ =~= layout(hb@, pv, fb@));
            assert forall|k: int| 0 <= k < self.chunks().len() implies
                #[trigger] chunk_stored(self.pass(), self.encrypted(), self.chunks()[k], pv[k], self.originals()[k]) by {
                assert(chunk_stored(self.passphrase@, self.metadata.encryption_enabled,
                    self.metadata.chunks@[k], self.payloads@[k]@, self.originals@[k]));
            }
            assert(archive_parts(self.pass(), self.encrypted(), out@, header_json@, self.chunks(),
                self.originals(), hb@, pv, fb@));
            lemma_body_start(hb@, pv, fb@);
            assert forall|i: int| 0 <= i < self.chunks().len() implies (#[trigger] pv[i]).len() == self.chunks()[i].compressed_size by {
                assert(chunk_stored(self.pass(), self.encrypted(), self.chunks()[i], pv[i], self.originals()[i]));
            }
            lemma_concat_len(pv, self.chunks());
            assert(header_prefix(out@, hb@));
        }
        out
    }

    /// Reads the header out of an archive and opens it. A layout that announces no
    /// header followed by a line feed is `CorruptArchive`; a header that does not open is
    /// `DecryptionFailed`.
    pub fn read_header(&self, ar: &[u8]) -> (r: Result<Vec<u8>, ArchiveError>)
        ensures
            forall|hb: Seq<u8>, h: Seq<u8>|
                #[trigger] header_prefix(ar@, hb) && #[trigger] stored_as(self.pass(), self.encrypted(), hb, h)
                ==> (r matches Ok(v) && v@ == h),
            header_span_of(ar@) is None ==> r == Err::<Vec<u8>, ArchiveError>(ArchiveError::CorruptArchive),
            header_span_of(ar@) is Some && r is Err ==> r == Err::<Vec<u8>, ArchiveError>(ArchiveError::DecryptionFailed),
            header_span_of(ar@) is Some && !self.encrypted() ==> r is Ok,
    {
        let n = match header_span(ar) {
            Some(n) => n,
            None => return Err(ArchiveError::CorruptArchive),
        };
        let blob = &ar[8..8 + n];
        proof {
            assert forall|hb: Seq<u8>| #[trigger] header_prefix(ar@, hb) implies blob@ == hb by {
                assert(blob@ =~= ar@.subrange(8, 8 + n as int));
            }
        }
        unstore(self.passphrase.as_slice(), self.metadata.encryption_enabled, blob)
    }

    /// Reads the chunk that starts at `pos`, opens and decompresses it, and checks its
    /// original size.
    fn read_chunk(&self, ar: &[u8], pos: usize, c: &ChunkMetadata) -> (r: Result<Vec<u8>, ArchiveError>)
        requires
            pos <= ar@.len(),
        ensures
            r is Ok ==> pos + c.compressed_size <= ar@.len() && pos + c.compressed_size <= ar.len(),
            forall|payload: Seq<u8>, x: Seq<u8>|
                #[trigger] chunk_stored(self.pass(), self.encrypted(), *c, payload, x)
                && pos + payload.len() <= ar@.len()
                && ar@.subrange(pos as int, pos + payload.len()) == payload
                ==> (r matches Ok(v) && v@ == x),
            r matches Err(e) ==> read_error(e),
            !self.encrypted() && r is Err ==> r == Err::<Vec<u8>, ArchiveError>(ArchiveError::CorruptArchive),
    {
        if c.compressed_size > ar.len() - pos {
            proof {
                assert forall|payload: Seq<u8>, x: Seq<u8>|
                    #[trigger] chunk_stored(self.pass(), self.encrypted(), *c, payload, x)
                    && pos + payload.len() <= ar@.len()
                    && ar@.subrange(pos as int, pos + payload.len()) == payload implies false by {
                }
            }
            return Err(ArchiveError::CorruptArchive);
        }
        let blob = &ar[pos..pos + c.compressed_size];
        proof {
            assert forall|payload: Seq<u8>, x: Seq<u8>|
                #[trigger] chunk_stored(self.pass(), self.encrypted(), *c, payload, x)
                && pos + payload.len() <= ar@.len()
                && ar@.subrange(pos as int, pos + payload.len()) == payload implies blob@ == payload by {
                assert(blob@ =~= ar@.subrange(pos as int, pos + payload.len()));
            }
        }
        let packed = match unstore(self.passphrase.as_slice(), self.metadata.encryption_enabled, blob) {
            Ok(v) => v,
            Err(e) => return Err(e),
        };
        let plain = match decompress(c.compression_algo, packed.as_slice()) {
            Ok(v) => v,
            Err(e) => return Err(e),
        };
        if plain.len() != c.original_size {
            return Err(ArchiveError::CorruptArchive);
        }
        Ok(plain)
    }

    /// Opens the header, checks that the archive is exactly as long as the header, the
    /// recorded payload sizes and the footer, reads every chunk of the body in entry
    /// order, then checks the footer against the MD5 hex of the plaintext header.
    fn read_body(&self, ar: &[u8], chunks: &Vec<ChunkMetadata>) -> (r: Result<Vec<ExtractedChunk>, ArchiveError>)
        ensures
            forall|h: Seq<u8>, plain: Seq<Seq<u8>>, hb: Seq<u8>, pl: Seq<Seq<u8>>, fb: Seq<u8>|
                #[trigger] intact_parts(self.pass(), self.encrypted(), ar@, h, chunks@, plain, hb, pl, fb) ==> {
                    &&& stored_as(self.pass(), self.encrypted(), fb, md5_hex_of(h))
                        ==> (r matches Ok(v) && pieces_match(v@, chunks@, plain))
                    &&& !stored_as(self.pass(), self.encrypted(), fb, md5_hex_of(h))
                        ==> r == Err::<Vec<ExtractedChunk>, ArchiveError>(ArchiveError::CorruptArchive)
                },
            forall|hb: Seq<u8>, h: Seq<u8>|
                #[trigger] header_prefix(ar@, hb) && #[trigger] stored_as(self.pass(), self.encrypted(), hb, h)
                && ar@.len() != 9 + hb.len() + sum_sizes(chunks@) + footer_len(self.encrypted())
                ==> r == Err::<Vec<ExtractedChunk>, ArchiveError>(ArchiveError::CorruptArchive),
            r is Ok ==> (header_span_of(ar@) matches Some(n)
                && ar@.len() == 9 + n + sum_sizes(chunks@) + footer_len(self.encrypted())),
            r matches Err(e) ==> read_error(e),
            !self.encrypted() && r is Err ==> r == Err::<Vec<ExtractedChunk>, ArchiveError>(ArchiveError::CorruptArchive),
    {
        let pass = self.passphrase.as_slice();
        let enc = self.metadata.encryption_enabled;
        let n = match header_span(ar) {
            Some(n) => n,
            None => {
                proof {
                    assert forall|h2: Seq<u8>, plain2: Seq<Seq<u8>>, hb: Seq<u8>, pl: Seq<Seq<u8>>, fb: Seq<u8>|
                        #[trigger] intact_parts(pass@, enc, ar@, h2, chunks@, plain2, hb, pl, fb) implies false by {
                        lemma_body_start(hb, pl, fb);
                    }
                }
                return Err(ArchiveError::CorruptArchive);
            },
        };
        let hblob = &ar[8..8 + n];
        proof {
            assert forall|hb: Seq<u8>| #[trigger] header_prefix(ar@, hb) implies hblob@ == hb by {
                assert(hblob@ =~= ar@.subrange(8, 8 + n as int));
            }
            assert forall|h2: Seq<u8>, plain2: Seq<Seq<u8>>, hb: Seq<u8>, pl: Seq<Seq<u8>>, fb: Seq<u8>|
                #[trigger] intact_parts(pass@, enc, ar@, h2, chunks@, plain2, hb, pl, fb)
                implies hblob@ == hb && rest_from(ar@, 9 + n, pl, 0, fb) && header_prefix(ar@, hb)
                    && ar@.len() == 9 + hb.len() + sum_sizes(chunks@) + fb.len() by {
                lemma_body_start(hb, pl, fb);
                assert forall|i: int| 0 <= i < chunks@.len() implies (#[trigger] pl[i]).len() == chunks@[i].compressed_size by {
                    assert(chunk_stored(pass@, enc, chunks@[i], pl[i], plain2[i]));
                }
                lemma_concat_len(pl, chunks@);
            }
        }
        let h = match unstore(pass, enc, hblob) {
            Ok(h) => h,
            Err(e) => return Err(e),
        };
        let expected = md5_hex(h.as_slice());
        let flen: usize = if enc { 80 } else { 32 };
        proof {
            assert(flen == footer_len(enc));
            assert forall|h2: Seq<u8>, plain2: Seq<Seq<u8>>, hb: Seq<u8>, pl: Seq<Seq<u8>>, fb: Seq<u8>|
                #[trigger] intact_parts(pass@, enc, ar@, h2, chunks@, plain2, hb, pl, fb)
                && stored_as(pass@, enc, fb, md5_hex_of(h2))
                implies ar@.len() == 9 + n + sum_sizes(chunks@) + flen by {
                assert(h@ == h2);
            }
        }
        let avail: usize = ar.len() - 9 - n;
        let mut total: usize = 0;
        let mut j: usize = 0;
        while j < chunks.len()
            invariant
                total == sum_sizes(chunks@.subrange(0, j as int)),
                total <= avail,
                j <= chunks@.len(),
                pass@ == self.pass(),
                enc == self.encrypted(),
                flen == footer_len(enc),
                expected@ == md5_hex_of(h@),
                forall|hb: Seq<u8>| #[trigger] header_prefix(ar@, hb) ==> hb.len() == n,
                avail == ar@.len() - 9 - n,
                forall|h2: Seq<u8>, plain2: Seq<Seq<u8>>, hb: Seq<u8>, pl: Seq<Seq<u8>>, fb: Seq<u8>|
                    #[trigger] intact_parts(pass@, enc, ar@, h2, chunks@, plain2, hb, pl, fb)
                    && stored_as(pass@, enc, fb, md5_hex_of(h2))
                    ==> ar@.len() == 9 + n + sum_sizes(chunks@) + flen,
            decreases chunks@.len() - j,
        {
            if chunks[j].compressed_size > avail - total {
                proof {
                    lemma_sum_prefix(chunks@, j + 1);
                    assert(chunks@.subrange(0, j + 1).drop_last() =~= chunks@.subrange(0, j as int));
                    assert(sum_sizes(chunks@.subrange(0, j + 1)) > avail);
                    assert forall|h2: Seq<u8>, plain2: Seq<Seq<u8>>, hb: Seq<u8>, pl: Seq<Seq<u8>>, fb: Seq<u8>|
                        #[trigger] intact_parts(pass@, enc, ar@, h2, chunks@, plain2, hb, pl, fb)
                        implies !stored_as(pass@, enc, fb, md5_hex_of(h2)) by {
                        if stored_as(pass@, enc, fb, md5_hex_of(h2)) {
                            assert(ar@.len() == 9 + n + sum_sizes(chunks@) + flen);
                        }
                    }
                }
                return Err(ArchiveError::CorruptArchive);
            }
            proof {
                assert(chunks@.subrange(0, j + 1).drop_last() =~= chunks@.subrange(0, j as int));
            }
            total = total + chunks[j].compressed_size;
            j = j + 1;
        }
        proof {
            assert(chunks@.subrange(0, j as int) =~= chunks@);
        }
        if avail - total != flen {
            return Err(ArchiveError::CorruptArchive);
        }
        let mut out: Vec<ExtractedChunk> = Vec::new();
        let mut pos: usize = 9 + n;
        let mut i: usize = 0;
        while i < chunks.len()
            invariant
                pass@ == self.pass(),
                enc == self.encrypted(),
                pos <= ar@.len(),
                i <= chunks@.len(),
                out@.len() == i,
                pos == 9 + n + sum_sizes(chunks@.subrange(0, i as int)),
                ar@.len() == 9 + n + sum_sizes(chunks@) + flen,
                flen == footer_len(enc),
                expected@ == md5_hex_of(h@),
                forall|hb: Seq<u8>| #[trigger] header_prefix(ar@, hb) ==> hb.len() == n,
                forall|k: int| 0 <= k < i ==> (#[trigger] out@[k]).file_name@ == chunks@[k].file_name@,
                forall|h2: Seq<u8>, plain2: Seq<Seq<u8>>, hb: Seq<u8>, pl: Seq<Seq<u8>>, fb: Seq<u8>|
                    #[trigger] intact_parts(pass@, enc, ar@, h2, chunks@, plain2, hb, pl, fb) ==> {
                        &&& h@ == h2
                        &&& rest_from(ar@, pos as int, pl, i as int, fb)
                        &&& forall|k: int| 0 <= k < i ==> (#[trigger] out@[k]).data@ == plain2[k]
                    },
                !enc ==> out@.len() == i,
            decreases chunks@.len() - i,
        {
            let c = &chunks[i];
            let res = self.read_chunk(ar, pos, c);
            proof {
                assert forall|h2: Seq<u8>, plain2: Seq<Seq<u8>>, hb: Seq<u8>, pl: Seq<Seq<u8>>, fb: Seq<u8>|
                    #[trigger] intact_parts(pass@, enc, ar@, h2, chunks@, plain2, hb, pl, fb) implies
                    (res matches Ok(v) && v@ == plain2[i as int])
                    && rest_from(ar@, pos + pl[i as int].len(), pl, i + 1, fb)
                    && pl[i as int].len() == c.compressed_size by {
                    lemma_step(ar@, pos as int, pl, i as int, fb);
                    assert(chunk_stored(pass@, enc, chunks@[i as int], pl[i as int], plain2[i as int]));
                }
            }
            let data = match res {
                Ok(d) => d,
                Err(e) => {
                    proof {
                        assert forall|h2: Seq<u8>, plain2: Seq<Seq<u8>>, hb: Seq<u8>, pl: Seq<Seq<u8>>, fb: Seq<u8>|
                            #[trigger] intact_parts(pass@, enc, ar@, h2, chunks@, plain2, hb, pl, fb) implies false by {}
                    }
                    return Err(e);
                },
            };
            let ghost old_out = out@;
            out.push(ExtractedChunk { file_name: c.file_name.clone(), data });
            proof {
                assert(chunks@.subrange(0, i + 1).drop_last() =~= chunks@.subrange(0, i as int));
            }
            pos = pos + c.compressed_size;
            i = i + 1;
            proof {
                assert forall|h2: Seq<u8>, plain2: Seq<Seq<u8>>, hb: Seq<u8>, pl: Seq<Seq<u8>>, fb: Seq<u8>|
                    #[trigger] intact_parts(pass@, enc, ar@, h2, chunks@, plain2, hb, pl, fb) implies
                    forall|k: int| 0 <= k < i ==> (#[trigger] out@[k]).data@ == plain2[k] by {
                    assert forall|k: int| 0 <= k < i implies (#[trigger] out@[k]).data@ == plain2[k] by {
                        if k < i - 1 {
                            assert(out@[k] == old_out[k]);
                        }
                    }
                }
            }
        }
        proof {
            assert(chunks@.subrange(0, i as int) =~= chunks@);
        }
        let fblob = &ar[pos..ar.len()];
        proof {
            assert forall|h2: Seq<u8>, plain2: Seq<Seq<u8>>, hb: Seq<u8>, pl: Seq<Seq<u8>>, fb: Seq<u8>|
                #[trigger] intact_parts(pass@, enc, ar@, h2, chunks@, plain2, hb, pl, fb) implies fblob@ == fb by {
                lemma_footer(ar@, pos as int, pl, fb);
            }
        }
        let footer = match unstore(pass, enc, fblob) {
            Ok(f) => f,
            Err(_) => {
                proof {
                    assert forall|h2: Seq<u8>, plain2: Seq<Seq<u8>>, hb: Seq<u8>, pl: Seq<Seq<u8>>, fb: Seq<u8>|
                        #[trigger] intact_parts(pass@, enc, ar@, h2, chunks@, plain2, hb, pl, fb)
                        implies !stored_as(pass@, enc, fb, md5_hex_of(h2)) by {}
                }
                return Err(ArchiveError::CorruptArchive);
            },
        };
        if !(footer == expected) {
            proof {
                assert forall|h2: Seq<u8>, plain2: Seq<Seq<u8>>, hb: Seq<u8>, pl: Seq<Seq<u8>>, fb: Seq<u8>|
                    #[trigger] intact_parts(pass@, enc, ar@, h2, chunks@, plain2, hb, pl, fb)
                    implies !stored_as(pass@, enc, fb, md5_hex_of(h2)) by {
                    if stored_as(pass@, enc, fb, md5_hex_of(h2)) {
                        assert(footer@ =~= expected@);
                    }
                }
            }
            return Err(ArchiveError::CorruptArchive);
        }
        proof {
            assert forall|h2: Seq<u8>, plain2: Seq<Seq<u8>>, hb: Seq<u8>, pl: Seq<Seq<u8>>, fb: Seq<u8>|
                #[trigger] intact_parts(pass@, enc, ar@, h2, chunks@, plain2, hb, pl, fb) implies
                pieces_match(out@, chunks@, plain2) && stored_as(pass@, enc, fb, md5_hex_of(h2)) by {
                assert(footer@ =~= expected@);
                if enc {
                    let x = choose|x: Seq<u8>| #[trigger] crate::cipher::opens_to(pass@, fblob@, x)
                        && crate::cipher::pkcs7_valid(x) && footer@ == crate::cipher::pkcs7_unpad(x);
                    assert(fblob@.len() == 80);
                    crate::cipher::lemma_unpad_determines(x, md5_hex_of(h2));
                    assert(fb =~= crate::cipher::sealed_spec(pass@, fb.subrange(0, 16), fb.subrange(16, 32), md5_hex_of(h2)));
                }
            }
        }
        Ok(out)
    }

    /// Extracts an archive whose header `meta` was parsed from what `read_header`
    /// returned. When the header asks for 2FA, the code `otp` is checked at time `now`
    /// (seconds since the Unix epoch) before anything else is read. Returns each chunk's
    /// plaintext with its file name, in entry order; the caller appends them to files.
    pub fn extract(&self, ar: &[u8], meta: &ArchiveMetadata, otp: Option<&str>, now: u64) -> (r: Result<Vec<ExtractedChunk>, ArchiveError>)
        ensures
            meta.requires_2fa && otp is None ==> r == Err::<Vec<ExtractedChunk>, ArchiveError>(ArchiveError::OtpMissing),
            meta.requires_2fa && otp is Some && meta.secret_key is None
                ==> r == Err::<Vec<ExtractedChunk>, ArchiveError>(ArchiveError::CorruptArchive),
            meta.requires_2fa ==> (otp matches Some(c) ==> (meta.secret_key matches Some(s) ==>
                match base32_decode_of(s@) {
                    None => r == Err::<Vec<ExtractedChunk>, ArchiveError>(ArchiveError::CorruptArchive),
                    Some(k) => !accepted(k, now, c@)
                        ==> r == Err::<Vec<ExtractedChunk>, ArchiveError>(ArchiveError::OtpInvalid),
                })),
            r is Ok ==> gate_open(*meta, otp, now),
            forall|h: Seq<u8>, plain: Seq<Seq<u8>>|
                #[trigger] archive_holds(self.pass(), self.encrypted(), ar@, h, meta.chunks@, plain)
                && gate_open(*meta, otp, now) ==> (r matches Ok(v) && pieces_match(v@, meta.chunks@, plain)),
            forall|h: Seq<u8>, plain: Seq<Seq<u8>>, hb: Seq<u8>, pl: Seq<Seq<u8>>, fb: Seq<u8>|
                #[trigger] intact_parts(self.pass(), self.encrypted(), ar@, h, meta.chunks@, plain, hb, pl, fb)
                && gate_open(*meta, otp, now) && !stored_as(self.pass(), self.encrypted(), fb, md5_hex_of(h))
                ==> r == Err::<Vec<ExtractedChunk>, ArchiveError>(ArchiveError::CorruptArchive),
            forall|hb: Seq<u8>, h: Seq<u8>|
                #[trigger] header_prefix(ar@, hb) && #[trigger] stored_as(self.pass(), self.encrypted(), hb, h)
                && gate_open(*meta, otp, now)
                && ar@.len() != 9 + hb.len() + sum_sizes(meta.chunks@) + footer_len(self.encrypted())
                ==> r == Err::<Vec<ExtractedChunk>, ArchiveError>(ArchiveError::CorruptArchive),
            r is Ok ==> (header_span_of(ar@) matches Some(n)
                && ar@.len() == 9 + n + sum_sizes(meta.chunks@) + footer_len(self.encrypted())),
            !self.encrypted() && gate_open(*meta, otp, now) && r is Err
                ==> r == Err::<Vec<ExtractedChunk>, ArchiveError>(ArchiveError::CorruptArchive),
            r matches Err(e) ==> read_error(e) || e == ArchiveError::OtpMissing || e == ArchiveError::OtpInvalid,
    {
        if meta.requires_2fa {
            if otp.is_none() {
                return Err(ArchiveError::OtpMissing);
            }
            let secret = match &meta.secret_key {
                Some(s) => s,
                None => return Err(ArchiveError::CorruptArchive),
            };
            match check_otp(secret.as_str(), otp, now) {
                Ok(()) => {},
                Err(e) => return Err(e),
            }
        }
        let r = self.read_body(ar, &meta.chunks);
        proof {
            assert forall|h: Seq<u8>, plain: Seq<Seq<u8>>|
                #[trigger] archive_holds(self.pass(), self.encrypted(), ar@, h, meta.chunks@, plain)
                implies (r matches Ok(v) && pieces_match(v@, meta.chunks@, plain)) by {
                let (hb, pl, fb) = choose|hb: Seq<u8>, pl: Seq<Seq<u8>>, fb: Seq<u8>|
                    archive_parts(self.pass(), self.encrypted(), ar@, h, meta.chunks@, plain, hb, pl, fb);
                assert(intact_parts(self.pass(), self.encrypted(), ar@, h, meta.chunks@, plain, hb, pl, fb));
            }
        }
        r
    }
}

/// Building then extracting gives every chunk back: when a reader with the builder's
/// passphrase and encryption setting is handed the builder's archive and header, and the
/// OTP gate opens, extraction returns each chunk's original bytes under its file name.
pub proof fn lemma_build_extract_round_trip(
    builder: MoonBallArchive,
    reader: MoonBallArchive,
    header_json: Seq<u8>,
    ar: Seq<u8>,
    hb: Seq<u8>,
    fb: Seq<u8>,
)
    requires
        builder.wf(),
        reader.pass() == builder.pass(),
        reader.encrypted() == builder.encrypted(),
        archive_parts(builder.pass(), builder.encrypted(), ar, header_json, builder.chunks(),
            builder.originals(), hb, builder.payload_views(), fb),
    ensures
        archive_holds(reader.pass(), reader.encrypted(), ar, header_json, builder.chunks(), builder.originals()),
{
    assert(archive_parts(reader.pass(), reader.encrypted(), ar, header_json, builder.chunks(),
        builder.originals(), hb, builder.payload_views(), fb));
}

/// The chunks that `add_file` records for one file reassemble to that file, and each is
/// non-empty and no longer than the chunk size.
pub proof fn lemma_file_reassembles(a: MoonBallArchive, data: Seq<u8>)
    requires
        a.wf(),
    ensures
        concat_all(split_chunks(data, a.chunk_size_spec())) == data,
        forall|i: int| 0 <= i < split_chunks(data, a.chunk_size_spec()).len() ==>
            0 < #[trigger] split_chunks(data, a.chunk_size_spec())[i].len() <= a.chunk_size_spec(),
{
    crate::chunker::lemma_split_reassembles(data, a.chunk_size_spec());
}

/// Changing a byte of the footer of an archive that a builder saved is detected: the
/// changed archive is the same layout with a footer that does not store the MD5 hex of
/// the header, on which `extract` fails with `CorruptArchive`. Under encryption this holds
/// for any byte after the footer's salt and IV.
pub proof fn lemma_footer_change_detected(
    builder: MoonBallArchive,
    header_json: Seq<u8>,
    ar: Seq<u8>,
    hb: Seq<u8>,
    fb: Seq<u8>,
    idx: int,
    byte: u8,
)
    requires
        builder.wf(),
        archive_parts(builder.pass(), builder.encrypted(), ar, header_json, builder.chunks(),
            builder.originals(), hb, builder.payload_views(), fb),
        0 <= idx < fb.len(),
        builder.encrypted() ==> idx >= 32,
        byte != fb[idx],
    ensures
        ar.update(ar.len() - fb.len() + idx, byte) == layout(hb, builder.payload_views(), fb.update(idx, byte)),
        intact_parts(builder.pass(), builder.encrypted(), ar.update(ar.len() - fb.len() + idx, byte),
            header_json, builder.chunks(), builder.originals(), hb, builder.payload_views(), fb.update(idx, byte)),
        !stored_as(builder.pass(), builder.encrypted(), fb.update(idx, byte), md5_hex_of(header_json)),
{
    let pv = builder.payload_views();
    let front = be_bytes(hb.len() as u64) + hb + seq![HEADER_END] + concat_all(pv);
    let f2 = fb.update(idx, byte);
    assert(ar =~= front + fb);
    assert(ar.update(ar.len() - fb.len() + idx, byte) =~= front + f2);
    assert(f2[idx] != fb[idx]);
    if builder.encrypted() && stored_as(builder.pass(), true, f2, md5_hex_of(header_json)) {
        assert(f2.subrange(0, 16) =~= fb.subrange(0, 16));
        assert(f2.subrange(16, 32) =~= fb.subrange(16, 32));
        assert(f2 =~= fb);
    }
}

/// Removing a byte after the header of an archive that `extract` accepts leaves the same
/// header in front of an archive of the wrong length, on which `extract` fails with
/// `CorruptArchive`.
pub proof fn lemma_shortened_archive_detected(
    ar: Seq<u8>,
    hb: Seq<u8>,
    chunks: Seq<ChunkMetadata>,
    encrypted: bool,
    k: int,
)
    requires
        header_prefix(ar, hb),
        ar.len() == 9 + hb.len() + sum_sizes(chunks) + footer_len(encrypted),
        9 + hb.len() <= k < ar.len(),
    ensures
        header_prefix(ar.remove(k), hb),
        ar.remove(k).len() != 9 + hb.len() + sum_sizes(chunks) + footer_len(encrypted),
{
    let a2 = ar.remove(k);
    assert(a2.subrange(0, 8) =~= ar.subrange(0, 8));
    assert(a2.subrange(8, 8 + hb.len() as int) =~= ar.subrange(8, 8 + hb.len() as int));
    assert(a2[8 + hb.len() as int] == ar[8 + hb.len() as int]);
}

/// Without encryption an archive is a function of its entries, chunk bytes and header:
/// two builders that recorded the same entries for the same chunks, in whatever order
/// their work was done, save bit-identical archives.
pub proof fn lemma_unencrypted_archive_is_determined(
    a: MoonBallArchive,
    b: MoonBallArchive,
    header_json: Seq<u8>,
    ar1: Seq<u8>,
    hb1: Seq<u8>,
    fb1: Seq<u8>,
    ar2: Seq<u8>,
    hb2: Seq<u8>,
    fb2: Seq<u8>,
)
    requires
        a.wf(),
        b.wf(),
        !a.encrypted(),
        !b.encrypted(),
        a.chunks() == b.chunks(),
        a.originals() == b.originals(),
        archive_parts(a.pass(), a.encrypted(), ar1, header_json, a.chunks(), a.originals(), hb1, a.payload_views(), fb1),
        archive_parts(b.pass(), b.encrypted(), ar2, header_json, b.chunks(), b.originals(), hb2, b.payload_views(), fb2),
    ensures
        ar1 == ar2,
{
    let pa = a.payload_views();
    let pb = b.payload_views();
    assert forall|i: int| 0 <= i < pa.len() implies pa[i] == pb[i] by {
        assert(chunk_stored(a.passphrase@, a.metadata.encryption_enabled, a.metadata.chunks@[i],
            a.payloads@[i]@, a.originals@[i]));
        assert(chunk_stored(b.passphrase@, b.metadata.encryption_enabled, b.metadata.chunks@[i],
            b.payloads@[i]@, b.originals@[i]));
    }
    assert(pa =~= pb);
}

} // verus!
