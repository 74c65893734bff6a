//! Content-defined chunking: split a document at positions chosen by a
//! rolling hash of its bytes, so that local edits perturb only nearby
//! chunk boundaries. Each chunk is identified by the hex SHA-256 of its
//! exact byte content.

use vstd::prelude::*;

use sha2::Digest;
use vstd::utf8::encode_utf8;

verus! {

/// Default minimum chunk size in bytes.
pub const DEFAULT_MIN_CHUNK_SIZE: usize = 1000;

/// Default target chunk size in bytes.
pub const DEFAULT_TARGET_CHUNK_SIZE: usize = 4000;

/// Default maximum chunk size in bytes.
pub const DEFAULT_MAX_CHUNK_SIZE: usize = 8000;

/// Prime modulus of the rolling hash.
pub const POLYNOMIAL: u32 = 69997;

/// Mask that turns a rolling-hash value into a natural breakpoint with
/// probability about `2^-13`.
pub const CHUNK_MASK: u32 = 0x1FFF;

/// Content-defined chunker with three byte-size tunables.
#[derive(Debug, Clone)]
pub struct DocumentChunker {
    min_chunk_size: usize,
    target_chunk_size: usize,
    max_chunk_size: usize,
}

/// One chunk of a document: its content bytes and the hex SHA-256 of them.
#[derive(Debug, Clone)]
pub struct Chunk {
    /// Identifier of the chunk, derived from its content alone.
    pub id: String,
    /// The exact bytes of the chunk.
    pub content: Vec<u8>,
}

/// Name for the hex-rendered SHA-256 digest of a byte sequence, the result
/// of the outside hash call.
pub uninterp spec fn sha256_hex_of(bytes: Seq<u8>) -> Seq<char>;

/// Relies on `sha2::Sha256::digest`: the digest is a function of the input
/// bytes alone, 32 bytes long, rendered here as 64 lower-case hex digits.
#[verifier::external_body]
fn sha256_hex(bytes: &[u8]) -> (r: String)
    ensures
        r@ == sha256_hex_of(bytes@),
        r@.len() == 64,
{
    let digest = sha2::Sha256::digest(bytes);
    digest.iter().map(|b| format!("{:02x}", b)).collect()
}

/// One rolling-hash step: shift the hash left, or the byte in, reduce
/// modulo the polynomial.
pub open spec fn roll(h: u32, b: u8) -> u32 {
    ((h << 1u32) | (b as u32)) % POLYNOMIAL
}

impl DocumentChunker {
    /// Minimum chunk size, as a spec value.
    pub closed spec fn spec_min(self) -> usize {
        self.min_chunk_size
    }

    /// Target chunk size, as a spec value.
    pub closed spec fn spec_target(self) -> usize {
        self.target_chunk_size
    }

    /// Maximum chunk size, as a spec value.
    pub closed spec fn spec_max(self) -> usize {
        self.max_chunk_size
    }

    /// Well-formed tunables: at least one byte per chunk, and ordered
    /// minimum, target, maximum.
    pub open spec fn wf(self) -> bool {
        1 <= self.spec_min() && self.spec_min() <= self.spec_target() && self.spec_target()
            <= self.spec_max()
    }

    /// A boundary is emitted after reading the byte at `gap - 1` bytes past
    /// the chunk start exactly when the chunk is at least `min` long and
    /// the hash matches the breakpoint mask, or the chunk has reached the
    /// target or maximum size.
    pub open spec fn is_break(self, h: u32, gap: int) -> bool {
        gap >= self.spec_min() && (gap >= self.spec_max() || (h & CHUNK_MASK) == 0 || gap
            >= self.spec_target())
    }

    /// The boundary positions that the rolling-hash scan emits from
    /// position `i` on, with the current chunk starting at `s` and the
    /// rolling hash at `h`.
    pub open spec fn scan_boundaries(self, bytes: Seq<u8>, i: int, s: int, h: u32) -> Seq<int>
        decreases bytes.len() - i,
    {
        if i < 0 || i >= bytes.len() {
            Seq::empty()
        } else {
            let h2 = roll(h, bytes[i]);
            let i2 = i + 1;
            if self.is_break(h2, i2 - s) {
                seq![i2] + self.scan_boundaries(bytes, i2, i2, 0)
            } else {
                self.scan_boundaries(bytes, i2, s, h2)
            }
        }
    }

    /// All boundaries of a byte sequence, before the final position is
    /// appended.
    pub open spec fn raw_boundaries(self, bytes: Seq<u8>) -> Seq<int> {
        self.scan_boundaries(bytes, 0, 0, 0)
    }

    /// The boundary list that the chunker works from: the scan's output,
    /// with the end of the document appended when boundaries exist and the
    /// last one falls short of it.
    pub open spec fn boundaries_model(self, bytes: Seq<u8>) -> Seq<int> {
        let bs = self.raw_boundaries(bytes);
        if bs.len() > 0 && bs.last() != bytes.len() {
            bs.push(bytes.len() as int)
        } else {
            bs
        }
    }

    /// The byte contents of the chunks of `bytes`: a single whole-document
    /// chunk when the document is small or no boundary was found, else the
    /// slices between consecutive boundaries.
    pub open spec fn chunk_contents_model(self, bytes: Seq<u8>) -> Seq<Seq<u8>> {
        if bytes.len() <= self.spec_min() {
            seq![bytes]
        } else {
            let bs = self.boundaries_model(bytes);
            if bs.len() == 0 {
                seq![bytes]
            } else {
                Seq::new(
                    bs.len(),
                    |k: int|
                        bytes.subrange(
                            if k == 0 {
                                0
                            } else {
                                bs[k - 1]
                            },
                            bs[k],
                        ),
                )
            }
        }
    }

    /// A chunker with the default tunables.
    pub fn new() -> (r: Self)
        ensures
            r.spec_min() == DEFAULT_MIN_CHUNK_SIZE,
            r.spec_target() == DEFAULT_TARGET_CHUNK_SIZE,
            r.spec_max() == DEFAULT_MAX_CHUNK_SIZE,
            r.wf(),
    {
        Self {
            min_chunk_size: DEFAULT_MIN_CHUNK_SIZE,
            target_chunk_size: DEFAULT_TARGET_CHUNK_SIZE,
            max_chunk_size: DEFAULT_MAX_CHUNK_SIZE,
        }
    }

    /// The minimum chunk size.
    pub fn min_chunk_size(&self) -> (r: usize)
        ensures
            r == self.spec_min(),
    {
        self.min_chunk_size
    }

    /// The target chunk size.
    pub fn target_chunk_size(&self) -> (r: usize)
        ensures
            r == self.spec_target(),
    {
        self.target_chunk_size
    }

    /// The maximum chunk size.
    pub fn max_chunk_size(&self) -> (r: usize)
        ensures
            r == self.spec_max(),
    {
        self.max_chunk_size
    }

    /// A chunker with the given tunables.
    pub fn with_params(min_size: usize, target_size: usize, max_size: usize) -> (r: Self)
        ensures
            r.spec_min() == min_size,
            r.spec_target() == target_size,
            r.spec_max() == max_size,
    {
        Self {
            min_chunk_size: min_size,
            target_chunk_size: target_size,
            max_chunk_size: max_size,
        }
    }

    /// Build a chunk from content bytes; the identifier is the hex SHA-256
    /// of exactly those bytes.
    fn create_chunk(&self, content: &[u8]) -> (r: Chunk)
        ensures
            r.content@ == content@,
            r.id@ == sha256_hex_of(content@),
    {
        let id = sha256_hex(content);
        Chunk { id, content: vstd::slice::slice_to_vec(content) }
    }

    /// Scan the document bytes for chunk boundaries with the rolling hash.
    fn find_chunk_boundaries(&self, bytes: &[u8]) -> (r: Vec<usize>)
        ensures
            r@.len() == self.boundaries_model(bytes@).len(),
            forall|k: int|
                0 <= k < r@.len() ==> #[trigger] r@[k] as int == self.boundaries_model(bytes@)[k],
    {
        let n = bytes.len();
        let mut boundaries: Vec<usize> = Vec::new();
        let mut start_idx: usize = 0;
        let mut i: usize = 0;
        let mut rolling_hash: u32 = 0;
        while i < n
            invariant
                start_idx <= i <= n,
                n == bytes@.len(),
                boundaries@.map_values(|x: usize| x as int) + self.scan_boundaries(
                    bytes@,
                    i as int,
                    start_idx as int,
                    rolling_hash,
                ) == self.raw_boundaries(bytes@),
            decreases n - i,
        {
            let ghost prev = boundaries@.map_values(|x: usize| x as int);
            let ghost old_scan = self.scan_boundaries(
                bytes@,
                i as int,
                start_idx as int,
                rolling_hash,
            );
            let b = bytes[i];
            let ghost h0 = rolling_hash;
            rolling_hash = ((rolling_hash << 1u32) | (b as u32)) % POLYNOMIAL;
            proof {
                assert(rolling_hash == roll(h0, bytes@[i as int]));
            }
            i = i + 1;
            if i - start_idx < self.min_chunk_size {
                proof {
                    assert(!self.is_break(rolling_hash, i - start_idx));
                }
                continue;
            }
            if i - start_idx >= self.max_chunk_size || (rolling_hash & CHUNK_MASK) == 0 || i
                - start_idx >= self.target_chunk_size {
                proof {
                    assert(self.is_break(rolling_hash, i - start_idx));
                    assert(old_scan == seq![i as int] + self.scan_boundaries(
                        bytes@,
                        i as int,
                        i as int,
                        0,
                    ));
                }
                boundaries.push(i);
                start_idx = i;
                rolling_hash = 0;
                proof {
                    assert(boundaries@.map_values(|x: usize| x as int) =~= prev.push(i as int));
                    assert(prev.push(i as int) + self.scan_boundaries(bytes@, i as int, i as int, 0)
                        =~= prev + old_scan);
                }
            } else {
                proof {
                    assert(!self.is_break(rolling_hash, i - start_idx));
                }
            }
        }
        proof {
            assert(self.scan_boundaries(bytes@, n as int, start_idx as int, rolling_hash)
                == Seq::<int>::empty());
            assert(boundaries@.map_values(|x: usize| x as int) =~= self.raw_boundaries(bytes@));
        }
        let ghost raw = self.raw_boundaries(bytes@);
        if boundaries.len() > 0 {
            let last = boundaries[boundaries.len() - 1];
            proof {
                assert(last as int == raw.last());
            }
            if last != n {
                boundaries.push(n);
                proof {
                    assert(boundaries@.map_values(|x: usize| x as int) =~= raw.push(n as int));
                }
            }
        }
        proof {
            assert(forall|k: int|
                0 <= k < boundaries@.len() ==> #[trigger] boundaries@[k] as int
                    == boundaries@.map_values(|x: usize| x as int)[k]);
        }
        boundaries
    }

    /// Stable identifier for a chunk of text: the hex SHA-256 of its UTF-8
    /// bytes. Equal text always yields the equal identifier.
    pub fn generate_chunk_id(&self, content: &str) -> (r: String)
        ensures
            r@ == sha256_hex_of(encode_utf8(content@)),
            r@.len() == 64,
    {
        sha256_hex(content.as_bytes())
    }

    /// Split a document into content-defined chunks. The chunk contents,
    /// concatenated in order, are exactly the document's bytes; with
    /// well-formed tunables no chunk exceeds the maximum size and every
    /// chunk but the last reaches the minimum.
    #[verifier::rlimit(100)]
    pub fn chunk_document(&self, document: &str) -> (chunks: Vec<Chunk>)
        ensures
            chunks@.len() >= 1,
            chunks@.len() == self.chunk_contents_model(encode_utf8(document@)).len(),
            forall|k: int|
                0 <= k < chunks@.len() ==> #[trigger] chunks@[k].content@
                    == self.chunk_contents_model(encode_utf8(document@))[k],
            forall|k: int|
                0 <= k < chunks@.len() ==> #[trigger] chunks@[k].id@ == sha256_hex_of(
                    self.chunk_contents_model(encode_utf8(document@))[k],
                ),
            chunks_concat(chunks@) == encode_utf8(document@),
            self.wf() ==> forall|k: int|
                0 <= k < chunks@.len() ==> #[trigger] chunks@[k].content@.len() <= self.spec_max(),
            self.wf() ==> forall|k: int|
                0 <= k < chunks@.len() - 1 ==> self.spec_min() <= #[trigger] chunks@[k].content@.len(),
    {
        let bytes = document.as_bytes();
        let n = bytes.len();
        let ghost bseq = bytes@;
        let ghost model = self.chunk_contents_model(bseq);
        if n <= self.min_chunk_size {
            let c = self.create_chunk(bytes);
            let mut chunks: Vec<Chunk> = Vec::new();
            chunks.push(c);
            proof {
                assert(model == seq![bseq]);
                assert(chunks@.drop_last() =~= Seq::<Chunk>::empty());
                assert(chunks_concat(Seq::<Chunk>::empty()) == Seq::<u8>::empty());
                assert(chunks_concat(chunks@) == chunks_concat(chunks@.drop_last())
                    + chunks@.last().content@);
                assert(chunks_concat(chunks@) =~= bseq);
            }
            return chunks;
        }
        let boundaries = self.find_chunk_boundaries(bytes);
        let ghost bs = self.boundaries_model(bseq);
        if boundaries.len() == 0 {
            let c = self.create_chunk(bytes);
            let mut chunks: Vec<Chunk> = Vec::new();
            chunks.push(c);
            proof {
                assert(bs.len() == 0);
                assert(model == seq![bseq]);
                assert(chunks@.drop_last() =~= Seq::<Chunk>::empty());
                assert(chunks_concat(Seq::<Chunk>::empty()) == Seq::<u8>::empty());
                assert(chunks_concat(chunks@) == chunks_concat(chunks@.drop_last())
                    + chunks@.last().content@);
                assert(chunks_concat(chunks@) =~= bseq);
                if self.wf() {
                    lemma_boundaries_model_props(*self, bseq);
                }
            }
            return chunks;
        }
        proof {
            lemma_boundaries_model_shape(*self, bseq);
            if self.wf() {
                lemma_boundaries_model_props(*self, bseq);
            }
            assert(model == Seq::new(
                bs.len(),
                |k: int|
                    bseq.subrange(
                        if k == 0 {
                            0
                        } else {
                            bs[k - 1]
                        },
                        bs[k],
                    ),
            ));
        }
        let mut chunks: Vec<Chunk> = Vec::new();
        let mut start: usize = 0;
        let mut idx: usize = 0;
        let m = boundaries.len();
        while idx < m
            invariant
                idx <= m,
                m == boundaries@.len(),
                boundaries@.len() == bs.len(),
                forall|k: int| 0 <= k < bs.len() ==> #[trigger] boundaries@[k] as int == bs[k],
                forall|k: int| 0 <= k < bs.len() ==> 0 < #[trigger] bs[k] <= bseq.len(),
                forall|k: int| 0 < k < bs.len() ==> bs[k - 1] < #[trigger] bs[k],
                n == bseq.len(),
                bseq == bytes@,
                model == self.chunk_contents_model(bseq),
                model.len() == bs.len(),
                forall|k: int|
                    0 <= k < bs.len() ==> #[trigger] model[k] == bseq.subrange(
                        if k == 0 {
                            0int
                        } else {
                            bs[k - 1]
                        },
                        bs[k],
                    ),
                start as int == if idx == 0 {
                    0int
                } else {
                    bs[idx - 1]
                },
                start <= n,
                chunks@.len() == idx,
                forall|k: int| 0 <= k < idx ==> #[trigger] chunks@[k].content@ == model[k],
                forall|k: int|
                    0 <= k < idx ==> #[trigger] chunks@[k].id@ == sha256_hex_of(model[k]),
                chunks_concat(chunks@) == bseq.subrange(0, start as int),
            decreases m - idx,
        {
            let b = boundaries[idx];
            proof {
                assert(b as int == bs[idx as int]);
                if idx > 0 {
                    assert(bs[idx - 1] < bs[idx as int]);
                }
            }
            let piece = vstd::slice::slice_subrange(bytes, start, b);
            let c = self.create_chunk(piece);
            let ghost prev_chunks = chunks@;
            chunks.push(c);
            proof {
                assert(chunks@.drop_last() =~= prev_chunks);
                assert(chunks@.last() == c);
                assert(chunks_concat(chunks@) == chunks_concat(prev_chunks) + c.content@);
                assert(bseq.subrange(0, start as int) + bseq.subrange(start as int, b as int)
                    =~= bseq.subrange(0, b as int));
            }
            start = b;
            idx = idx + 1;
        }
        proof {
            assert(bs.last() == bseq.len());
            assert(start as int == bs[bs.len() - 1]);
            assert(bseq.subrange(0, n as int) =~= bseq);
            if self.wf() {
                assert forall|k: int| 0 <= k < chunks@.len() implies #[trigger] chunks@[k].content@.len()
                    <= self.spec_max() by {
                    assert(chunks@[k].content@ == model[k]);
                    if k == 0 {
                        assert(model[0] == bseq.subrange(0, bs[0]));
                    } else {
                        assert(model[k] == bseq.subrange(bs[k - 1], bs[k]));
                    }
                }
                assert forall|k: int| 0 <= k < chunks@.len() - 1 implies self.spec_min()
                    <= #[trigger] chunks@[k].content@.len() by {
                    assert(chunks@[k].content@ == model[k]);
                    if k == 0 {
                        assert(model[0] == bseq.subrange(0, bs[0]));
                        assert(bs.len() > 1);
                    } else {
                        assert(model[k] == bseq.subrange(bs[k - 1], bs[k]));
                    }
                }
            }
        }
        chunks
    }
}

impl Default for DocumentChunker {
    /// The chunker with the default tunables.
    fn default() -> (r: Self)
        ensures
            r.spec_min() == DEFAULT_MIN_CHUNK_SIZE,
            r.spec_target() == DEFAULT_TARGET_CHUNK_SIZE,
            r.spec_max() == DEFAULT_MAX_CHUNK_SIZE,
            r.wf(),
    {
        Self::new()
    }
}

/// The bytes of a chunk list, concatenated in order.
pub open spec fn chunks_concat(chunks: Seq<Chunk>) -> Seq<u8>
    decreases chunks.len(),
{
    if chunks.len() == 0 {
        Seq::empty()
    } else {
        chunks_concat(chunks.drop_last()) + chunks.last().content@
    }
}

/// Whatever the tunables, scan boundaries are strictly increasing
/// positions in `(i, len]`.
proof fn lemma_scan_shape(c: DocumentChunker, bytes: Seq<u8>, i: int, s: int, h: u32)
    requires
        0 <= i,
    ensures
        ({
            let r = c.scan_boundaries(bytes, i, s, h);
            &&& forall|k: int| 0 <= k < r.len() ==> i < #[trigger] r[k] <= bytes.len()
            &&& forall|k: int| 0 < k < r.len() ==> r[k - 1] < #[trigger] r[k]
        }),
    decreases bytes.len() - i,
{
    if i >= bytes.len() {
    } else {
        let h2 = roll(h, bytes[i]);
        let i2 = i + 1;
        let r = c.scan_boundaries(bytes, i, s, h);
        if c.is_break(h2, i2 - s) {
            lemma_scan_shape(c, bytes, i2, i2, 0);
            let rr = c.scan_boundaries(bytes, i2, i2, 0);
            assert(r == seq![i2] + rr);
            assert(forall|k: int| 0 < k < r.len() ==> r[k] == rr[k - 1]);
        } else {
            lemma_scan_shape(c, bytes, i2, s, h2);
            assert(r == c.scan_boundaries(bytes, i2, s, h2));
        }
    }
}

/// Whatever the tunables, the boundary list is strictly increasing within
/// `(0, len]` and ends at `len` when it is nonempty.
pub proof fn lemma_boundaries_model_shape(c: DocumentChunker, bytes: Seq<u8>)
    ensures
        ({
            let bs = c.boundaries_model(bytes);
            &&& forall|k: int| 0 <= k < bs.len() ==> 0 < #[trigger] bs[k] <= bytes.len()
            &&& forall|k: int| 0 < k < bs.len() ==> bs[k - 1] < #[trigger] bs[k]
            &&& bs.len() > 0 ==> bs.last() == bytes.len()
        }),
{
    lemma_scan_shape(c, bytes, 0, 0, 0);
    let raw = c.raw_boundaries(bytes);
    let bs = c.boundaries_model(bytes);
    if raw.len() > 0 && raw.last() != bytes.len() {
        assert(bs == raw.push(bytes.len() as int));
        assert(forall|k: int| 0 <= k < raw.len() ==> bs[k] == raw[k]);
        assert(raw.last() < bytes.len());
    }
}

/// Shape of the scan's output: boundaries are strictly increasing
/// positions in `(i, len]`, every gap between consecutive boundaries (and
/// from `s` to the first) lies in `[min, max]`, and whatever follows the
/// last boundary is shorter than `target`.
proof fn lemma_scan_props(c: DocumentChunker, bytes: Seq<u8>, i: int, s: int, h: u32)
    requires
        c.wf(),
        0 <= s <= i <= bytes.len(),
        i - s < c.spec_target(),
    ensures
        ({
            let r = c.scan_boundaries(bytes, i, s, h);
            &&& forall|k: int| 0 <= k < r.len() ==> i < #[trigger] r[k] <= bytes.len()
            &&& forall|k: int| 0 < k < r.len() ==> r[k - 1] < #[trigger] r[k]
            &&& r.len() > 0 ==> c.spec_min() <= r[0] - s <= c.spec_max()
            &&& forall|k: int|
                0 < k < r.len() ==> c.spec_min() <= #[trigger] r[k] - r[k - 1] <= c.spec_max()
            &&& r.len() > 0 ==> bytes.len() - r.last() < c.spec_target()
            &&& r.len() == 0 ==> bytes.len() - s < c.spec_target()
        }),
    decreases bytes.len() - i,
{
    if i >= bytes.len() {
    } else {
        let h2 = roll(h, bytes[i]);
        let i2 = i + 1;
        let r = c.scan_boundaries(bytes, i, s, h);
        if c.is_break(h2, i2 - s) {
            lemma_scan_props(c, bytes, i2, i2, 0);
            let rr = c.scan_boundaries(bytes, i2, i2, 0);
            assert(r == seq![i2] + rr);
            assert(r[0] == i2);
            assert(forall|k: int| 0 < k < r.len() ==> r[k] == rr[k - 1]);
            assert(c.spec_min() <= i2 - s <= c.spec_max());
            assert forall|k: int| 0 < k < r.len() implies c.spec_min() <= #[trigger] r[k] - r[k
                - 1] <= c.spec_max() by {
                if k == 1 {
                    assert(r[0] == i2 && r[1] == rr[0]);
                } else {
                    assert(r[k] == rr[k - 1] && r[k - 1] == rr[k - 2]);
                }
            }
            if r.len() > 0 {
                if rr.len() == 0 {
                    assert(r.last() == i2);
                } else {
                    assert(r.last() == rr.last());
                }
            }
        } else {
            assert(i2 - s < c.spec_target());
            lemma_scan_props(c, bytes, i2, s, h2);
            assert(r == c.scan_boundaries(bytes, i2, s, h2));
        }
    }
}

/// Shape of the final boundary list: strictly increasing positions in
/// `(0, len]`, ending at `len` when nonempty; every chunk the boundaries
/// induce is at most `max` long and every chunk but the last is at least
/// `min` long.
pub proof fn lemma_boundaries_model_props(c: DocumentChunker, bytes: Seq<u8>)
    requires
        c.wf(),
    ensures
        ({
            let bs = c.boundaries_model(bytes);
            &&& forall|k: int| 0 <= k < bs.len() ==> 0 < #[trigger] bs[k] <= bytes.len()
            &&& forall|k: int| 0 < k < bs.len() ==> bs[k - 1] < #[trigger] bs[k]
            &&& bs.len() > 0 ==> bs.last() == bytes.len()
            &&& bs.len() > 0 ==> bs[0] <= c.spec_max()
            &&& forall|k: int| 0 < k < bs.len() ==> #[trigger] bs[k] - bs[k - 1] <= c.spec_max()
            &&& bs.len() > 1 ==> c.spec_min() <= bs[0]
            &&& forall|k: int| 0 < k < bs.len() - 1 ==> c.spec_min() <= #[trigger] bs[k] - bs[k - 1]
            &&& bs.len() == 0 ==> bytes.len() < c.spec_target()
        }),
{
    lemma_scan_props(c, bytes, 0, 0, 0);
    let raw = c.raw_boundaries(bytes);
    let bs = c.boundaries_model(bytes);
    if raw.len() > 0 && raw.last() != bytes.len() {
        assert(bs == raw.push(bytes.len() as int));
        assert(forall|k: int| 0 <= k < raw.len() ==> bs[k] == raw[k]);
        assert(bs.last() == bytes.len());
        assert(bytes.len() - raw.last() < c.spec_target());
        assert forall|k: int| 0 < k < bs.len() implies #[trigger] bs[k] - bs[k - 1]
            <= c.spec_max() by {
            if k < raw.len() {
                assert(bs[k] == raw[k] && bs[k - 1] == raw[k - 1]);
            } else {
                assert(bs[k] == bytes.len() && bs[k - 1] == raw.last());
            }
        }
    }
}

/// Chunk identifiers are deterministic: chunks with equal bytes carry equal
/// identifiers.
pub proof fn lemma_chunk_id_deterministic(a: Seq<u8>, b: Seq<u8>)
    requires
        a == b,
    ensures
        sha256_hex_of(a) == sha256_hex_of(b),
{
}

/// The longest prefix of a boundary list whose positions stay at or below
/// `cut`.
pub open spec fn boundaries_upto(r: Seq<int>, cut: int) -> Seq<int>
    decreases r.len(),
{
    if r.len() > 0 && r[0] <= cut {
        seq![r[0]] + boundaries_upto(r.drop_first(), cut)
    } else {
        Seq::empty()
    }
}

proof fn lemma_boundaries_upto_is_prefix(r: Seq<int>, cut: int)
    ensures
        boundaries_upto(r, cut).len() <= r.len(),
        forall|j: int|
            0 <= j < boundaries_upto(r, cut).len() ==> #[trigger] boundaries_upto(r, cut)[j]
                == r[j] && r[j] <= cut,
    decreases r.len(),
{
    if r.len() > 0 && r[0] <= cut {
        lemma_boundaries_upto_is_prefix(r.drop_first(), cut);
        let u = boundaries_upto(r, cut);
        let uu = boundaries_upto(r.drop_first(), cut);
        assert forall|j: int| 0 <= j < u.len() implies #[trigger] u[j] == r[j] && r[j] <= cut by {
            if j > 0 {
                assert(u[j] == uu[j - 1]);
                assert(r.drop_first()[j - 1] == r[j]);
            }
        }
    }
}

proof fn lemma_scan_prefix_stable(
    c: DocumentChunker,
    b1: Seq<u8>,
    b2: Seq<u8>,
    cut: int,
    i: int,
    s: int,
    h: u32,
)
    requires
        0 <= i <= cut,
        cut <= b1.len(),
        cut <= b2.len(),
        b1.subrange(0, cut) == b2.subrange(0, cut),
    ensures
        boundaries_upto(c.scan_boundaries(b1, i, s, h), cut) == boundaries_upto(
            c.scan_boundaries(b2, i, s, h),
            cut,
        ),
    decreases cut - i,
{
    let r1 = c.scan_boundaries(b1, i, s, h);
    let r2 = c.scan_boundaries(b2, i, s, h);
    if i == cut {
        lemma_scan_shape(c, b1, i, s, h);
        lemma_scan_shape(c, b2, i, s, h);
        if r1.len() > 0 {
            assert(r1[0] > cut);
        }
        if r2.len() > 0 {
            assert(r2[0] > cut);
        }
    } else {
        assert(b1.subrange(0, cut)[i] == b1[i]);
        assert(b2.subrange(0, cut)[i] == b2[i]);
        assert(b1[i] == b2[i]);
        let h2 = roll(h, b1[i]);
        let i2 = i + 1;
        if c.is_break(h2, i2 - s) {
            lemma_scan_prefix_stable(c, b1, b2, cut, i2, i2, 0);
            assert(r1 == seq![i2] + c.scan_boundaries(b1, i2, i2, 0));
            assert(r2 == seq![i2] + c.scan_boundaries(b2, i2, i2, 0));
            assert(r1[0] == i2 && i2 <= cut);
            assert(r2[0] == i2);
            assert(r1.drop_first() =~= c.scan_boundaries(b1, i2, i2, 0));
            assert(r2.drop_first() =~= c.scan_boundaries(b2, i2, i2, 0));
        } else {
            lemma_scan_prefix_stable(c, b1, b2, cut, i2, s, h2);
            assert(r1 == c.scan_boundaries(b1, i2, s, h2));
            assert(r2 == c.scan_boundaries(b2, i2, s, h2));
        }
    }
}

/// Boundary locality on the unchanged side of an edit: two byte sequences
/// that agree before `cut` emit exactly the same boundaries at positions
/// up to `cut`. With identifiers a function of content alone, every chunk
/// that both its ends place inside the agreeing prefix therefore keeps its
/// identifier.
pub proof fn lemma_boundaries_prefix_stable(c: DocumentChunker, b1: Seq<u8>, b2: Seq<u8>, cut: int)
    requires
        0 <= cut <= b1.len(),
        cut <= b2.len(),
        b1.subrange(0, cut) == b2.subrange(0, cut),
    ensures
        boundaries_upto(c.raw_boundaries(b1), cut) == boundaries_upto(c.raw_boundaries(b2), cut),
{
    lemma_scan_prefix_stable(c, b1, b2, cut, 0, 0, 0);
}

/// Start position of the chunk that ends at boundary `k` of a boundary
/// list: the previous boundary, or the origin for the first chunk.
pub open spec fn chunk_start(r: Seq<int>, k: int) -> int {
    if k == 0 {
        0
    } else {
        r[k - 1]
    }
}

/// Boundary locality after re-synchronization: once both byte sequences
/// place a boundary at the same position and agree from there on, the
/// scans emit identical boundaries for the rest, so all later chunks
/// keep their identifiers.
pub proof fn lemma_boundaries_suffix_stable(
    c: DocumentChunker,
    b1: Seq<u8>,
    b2: Seq<u8>,
    q: int,
)
    requires
        0 <= q,
        b1.len() == b2.len(),
        forall|i: int| q <= i < b1.len() ==> b1[i] == #[trigger] b2[i],
    ensures
        c.scan_boundaries(b1, q, q, 0) == c.scan_boundaries(b2, q, q, 0),
{
    lemma_scan_suffix_stable(c, b1, b2, q, q, q, 0);
}

proof fn lemma_scan_suffix_stable(
    c: DocumentChunker,
    b1: Seq<u8>,
    b2: Seq<u8>,
    q: int,
    i: int,
    s: int,
    h: u32,
)
    requires
        0 <= q <= i,
        b1.len() == b2.len(),
        forall|k: int| q <= k < b1.len() ==> b1[k] == #[trigger] b2[k],
    ensures
        c.scan_boundaries(b1, i, s, h) == c.scan_boundaries(b2, i, s, h),
    decreases b1.len() - i,
{
    if i >= b1.len() {
    } else {
        assert(b1[i] == b2[i]);
        let h2 = roll(h, b1[i]);
        let i2 = i + 1;
        if c.is_break(h2, i2 - s) {
            lemma_scan_suffix_stable(c, b1, b2, q, i2, i2, 0);
            assert(c.scan_boundaries(b1, i, s, h) == seq![i2] + c.scan_boundaries(b1, i2, i2, 0));
            assert(c.scan_boundaries(b2, i, s, h) == seq![i2] + c.scan_boundaries(b2, i2, i2, 0));
        } else {
            lemma_scan_suffix_stable(c, b1, b2, q, i2, s, h2);
            assert(c.scan_boundaries(b1, i, s, h) == c.scan_boundaries(b1, i2, s, h2));
            assert(c.scan_boundaries(b2, i, s, h) == c.scan_boundaries(b2, i2, s, h2));
        }
    }
}

/// Chunk-content locality on the unchanged side of an edit: for every
/// boundary that falls inside the agreeing prefix, the chunk that ends at
/// it has identical bytes in both sequences, hence an identical chunk
/// identifier.
pub proof fn lemma_chunk_prefix_stable(c: DocumentChunker, b1: Seq<u8>, b2: Seq<u8>, cut: int)
    requires
        0 <= cut <= b1.len(),
        cut <= b2.len(),
        b1.subrange(0, cut) == b2.subrange(0, cut),
    ensures
        ({
            let raw1 = c.raw_boundaries(b1);
            let raw2 = c.raw_boundaries(b2);
            let m = boundaries_upto(raw1, cut).len();
            &&& m <= raw1.len() && m <= raw2.len()
            &&& forall|k: int| 0 <= k < m ==> #[trigger] raw1[k] == raw2[k]
            &&& forall|k: int|
                0 <= k < m ==> #[trigger] b1.subrange(chunk_start(raw1, k), raw1[k])
                    == b2.subrange(chunk_start(raw2, k), raw2[k])
        }),
{
    lemma_boundaries_prefix_stable(c, b1, b2, cut);
    lemma_scan_shape(c, b1, 0, 0, 0);
    let raw1 = c.raw_boundaries(b1);
    let raw2 = c.raw_boundaries(b2);
    let u = boundaries_upto(raw1, cut);
    let m = u.len();
    lemma_boundaries_upto_is_prefix(raw1, cut);
    lemma_boundaries_upto_is_prefix(raw2, cut);
    assert forall|k: int| 0 <= k < m implies #[trigger] raw1[k] == raw2[k] by {
        assert(u[k] == raw1[k]);
        assert(boundaries_upto(raw2, cut)[k] == raw2[k]);
    }
    assert forall|k: int| 0 <= k < m implies #[trigger] b1.subrange(chunk_start(raw1, k), raw1[k])
        == b2.subrange(chunk_start(raw2, k), raw2[k]) by {
        let lo = chunk_start(raw1, k);
        let hi = raw1[k];
        assert(u[k] == raw1[k] && raw1[k] <= cut);
        if k > 0 {
            assert(u[k - 1] == raw1[k - 1]);
            assert(raw1[k - 1] == raw2[k - 1]);
            assert(0 < raw1[k - 1]);
        }
        assert(chunk_start(raw2, k) == lo);
        assert(0 <= lo);
        assert(lo <= hi) by {
            if k > 0 {
                assert(raw1[k - 1] < raw1[k]);
            } else {
                assert(0 < raw1[0]);
            }
        }
        assert(b1.subrange(lo, hi) =~= b2.subrange(lo, hi)) by {
            assert forall|t: int| 0 <= t < hi - lo implies b1.subrange(lo, hi)[t] == b2.subrange(
                lo,
                hi,
            )[t] by {
                assert(b1.subrange(lo, hi)[t] == b1[lo + t]);
                assert(b1.subrange(0, cut)[lo + t] == b1[lo + t]);
                assert(b2.subrange(0, cut)[lo + t] == b2[lo + t]);
            }
        }
    }
}

} // verus!
