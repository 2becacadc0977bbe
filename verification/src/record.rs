//! Predictor-score records as they are laid out in a `.bin` dump, and the
//! decoding of that layout.
//!
//! A dump is a sequence of records, each a 16-byte little-endian header
//! `(token: i32, layer: i32, batch: i32, n_neurons: i32)` followed by
//! `n_neurons` little-endian IEEE-754 single-precision scores. Scores are
//! kept here exactly as stored, as their 32-bit patterns; whether a neuron
//! is active is decided by [`score_reaches`], which orders those patterns
//! the way IEEE-754 orders the values they encode.
use vstd::prelude::*;

verus! {

// ── IEEE-754 single precision, on bit patterns ───────────────────

/// The bit pattern encodes a NaN: all exponent bits set and a nonzero
/// mantissa.
pub open spec fn f32_bits_is_nan(b: u32) -> bool {
    (b / 0x80_0000) % 256 == 255 && b % 0x80_0000 != 0
}

/// The position of a non-NaN bit pattern on the real line: its magnitude
/// bits, negated when the sign bit is set. Both zeros map to 0, and for
/// non-NaN patterns `a`, `b` the encoded values satisfy `a < b` exactly when
/// `f32_bits_key(a) < f32_bits_key(b)`.
pub open spec fn f32_bits_key(b: u32) -> int {
    let magnitude = (b % 0x8000_0000) as int;
    if b >= 0x8000_0000 {
        -magnitude
    } else {
        magnitude
    }
}

/// `a >= b` on the single-precision values the two bit patterns encode:
/// false whenever either is NaN, and true for the two zeros in either order.
pub open spec fn f32_bits_ge(a: u32, b: u32) -> bool {
    !f32_bits_is_nan(a) && !f32_bits_is_nan(b) && f32_bits_key(a) >= f32_bits_key(b)
}

/// Whether a score (a stored bit pattern) reaches the activation threshold
/// (also a bit pattern), as `score >= threshold` on `f32` values: the
/// comparison the model's sparse kernels make.
pub fn score_reaches(score: u32, threshold: u32) -> (r: bool)
    ensures
        r == f32_bits_ge(score, threshold),
{
    let score_nan = (score / 0x80_0000) % 256 == 255 && score % 0x80_0000 != 0;
    let threshold_nan = (threshold / 0x80_0000) % 256 == 255 && threshold % 0x80_0000 != 0;
    if score_nan || threshold_nan {
        return false;
    }
    let score_mag = score % 0x8000_0000;
    let threshold_mag = threshold % 0x8000_0000;
    let score_neg = score >= 0x8000_0000;
    let threshold_neg = threshold >= 0x8000_0000;
    if !score_neg && !threshold_neg {
        score_mag >= threshold_mag
    } else if score_neg && threshold_neg {
        score_mag <= threshold_mag
    } else if !score_neg {
        // score >= +0 >= threshold
        true
    } else {
        // score <= -0, threshold >= +0: reached only by a zero against a zero
        score_mag == 0 && threshold_mag == 0
    }
}

// ── Little-endian decoding ───────────────────────────────────────

/// The unsigned 32-bit little-endian value stored at `off`.
pub open spec fn le_u32_at(b: Seq<u8>, off: int) -> int {
    b[off] + 256 * b[off + 1] + 65536 * b[off + 2] + 16777216 * b[off + 3]
}

/// The two's-complement reading of a 32-bit pattern.
pub open spec fn i32_of_bits(v: int) -> int {
    if v < 0x8000_0000 {
        v
    } else {
        v - 0x1_0000_0000
    }
}

/// The signed 32-bit little-endian value stored at `off`.
pub open spec fn le_i32_at(b: Seq<u8>, off: int) -> int {
    i32_of_bits(le_u32_at(b, off))
}

fn read_u32_le(b: &[u8], off: usize) -> (v: u32)
    requires
        off + 4 <= b@.len(),
    ensures
        v as int == le_u32_at(b@, off as int),
{
    let b0 = b[off] as u32;
    let b1 = b[off + 1] as u32;
    let b2 = b[off + 2] as u32;
    let b3 = b[off + 3] as u32;
    b0 + b1 * 256 + b2 * 65536 + b3 * 16777216
}

fn read_i32_le(b: &[u8], off: usize) -> (v: i32)
    requires
        off + 4 <= b@.len(),
    ensures
        v as int == le_i32_at(b@, off as int),
{
    let u = read_u32_le(b, off);
    if u < 0x8000_0000 {
        u as i32
    } else {
        let low = (u - 0x8000_0000) as i32;
        low - 0x7fff_ffff - 1
    }
}

// ── Records ──────────────────────────────────────────────────────

/// One (token, layer, batch) predictor-score record. `scores[i]` is the bit
/// pattern of neuron `i`'s raw pre-activation score; neuron `i` counts as
/// selected when that score is at least the model's own sparse
/// threshold (0.0 for plain-ReLU models; nonzero for models trained to be
/// sparser), which every counting function here takes explicitly.
#[derive(Debug, Clone)]
pub struct Record {
    pub token: i32,
    pub layer: i32,
    pub batch: i32,
    pub scores: Vec<u32>,
}

/// Whether neuron `i` of a score sequence is active under `threshold`.
pub open spec fn is_active(scores: Seq<u32>, i: int, threshold: u32) -> bool {
    f32_bits_ge(scores[i], threshold)
}

/// How many of the scores are active under `threshold`.
pub open spec fn active_count(scores: Seq<u32>, threshold: u32) -> nat
    decreases scores.len(),
{
    if scores.len() == 0 {
        0
    } else {
        active_count(scores.drop_last(), threshold) + if is_active(
            scores,
            scores.len() - 1,
            threshold,
        ) {
            1nat
        } else {
            0nat
        }
    }
}

/// The positions of the active scores, in increasing order.
pub open spec fn active_positions(scores: Seq<u32>, threshold: u32) -> Seq<usize>
    decreases scores.len(),
{
    if scores.len() == 0 {
        Seq::empty()
    } else {
        let prev = active_positions(scores.drop_last(), threshold);
        if is_active(scores, scores.len() - 1, threshold) {
            prev.push((scores.len() - 1) as usize)
        } else {
            prev
        }
    }
}

/// The active positions are exactly the active scores' indices, each once,
/// in increasing order, and there are `active_count` of them.
pub proof fn lemma_active_positions(scores: Seq<u32>, threshold: u32)
    requires
        scores.len() <= usize::MAX,
    ensures
        active_positions(scores, threshold).len() == active_count(scores, threshold),
        active_count(scores, threshold) <= scores.len(),
        forall|k: int|
            0 <= k < active_positions(scores, threshold).len() ==> {
                let p = #[trigger] active_positions(scores, threshold)[k];
                &&& p < scores.len()
                &&& is_active(scores, p as int, threshold)
            },
        forall|j: int, k: int|
            0 <= j < k < active_positions(scores, threshold).len() ==> active_positions(
                scores,
                threshold,
            )[j] < active_positions(scores, threshold)[k],
        forall|i: int|
            0 <= i < scores.len() && is_active(scores, i, threshold) ==> active_positions(
                scores,
                threshold,
            ).contains(i as usize),
    decreases scores.len(),
{
    if scores.len() > 0 {
        let prefix = scores.drop_last();
        lemma_active_positions(prefix, threshold);
        let prev = active_positions(prefix, threshold);
        assert forall|k: int| 0 <= k < prev.len() implies #[trigger] is_active(
            scores,
            prev[k] as int,
            threshold,
        ) by {
            assert(prefix[prev[k] as int] == scores[prev[k] as int]);
        }
        assert forall|i: int|
            0 <= i < scores.len() && is_active(scores, i, threshold) implies active_positions(
            scores,
            threshold,
        ).contains(i as usize) by {
            if i < scores.len() - 1 {
                assert(prefix[i] == scores[i]);
                assert(is_active(prefix, i, threshold));
                let w = choose|w: int| 0 <= w < prev.len() && prev[w] == i as usize;
                if is_active(scores, scores.len() - 1, threshold) {
                    assert(active_positions(scores, threshold)[w] == i as usize);
                }
            } else {
                let s = active_positions(scores, threshold);
                assert(s[s.len() - 1] == i as usize);
            }
        }
    }
}

impl Record {
    /// Number of neurons whose score is at least `threshold` (both
    /// given as bit patterns).
    pub fn activated_count(&self, threshold: u32) -> (n: usize)
        ensures
            n == active_count(self.scores@, threshold),
    {
        let mut n: usize = 0;
        let mut i: usize = 0;
        while i < self.scores.len()
            invariant
                i <= self.scores.len(),
                n == active_count(self.scores@.take(i as int), threshold),
                n <= i,
            decreases self.scores.len() - i,
        {
            assert(self.scores@.take(i + 1).drop_last() =~= self.scores@.take(i as int));
            if score_reaches(self.scores[i], threshold) {
                n = n + 1;
            }
            i = i + 1;
        }
        assert(self.scores@.take(i as int) =~= self.scores@);
        n
    }

    /// Positions of the neurons whose score is at least `threshold`,
    /// in increasing order.
    pub fn active_indices(&self, threshold: u32) -> (v: Vec<usize>)
        ensures
            v@ == active_positions(self.scores@, threshold),
    {
        let mut v: Vec<usize> = Vec::new();
        let mut i: usize = 0;
        while i < self.scores.len()
            invariant
                i <= self.scores.len(),
                v@ == active_positions(self.scores@.take(i as int), threshold),
            decreases self.scores.len() - i,
        {
            assert(self.scores@.take(i + 1).drop_last() =~= self.scores@.take(i as int));
            if score_reaches(self.scores[i], threshold) {
                v.push(i);
            }
            i = i + 1;
        }
        assert(self.scores@.take(i as int) =~= self.scores@);
        v
    }
}

// ── Streaming decode ─────────────────────────────────────────────

/// The fixed-size header that precedes every record's scores.
#[derive(Debug, Clone, Copy, PartialEq, Eq)]
pub struct RecordHeader {
    pub token: i32,
    pub layer: i32,
    pub batch: i32,
    pub n_neurons: i32,
}

/// Length in bytes of a record header.
pub const HEADER_LEN: usize = 16;

/// Why a record could not be decoded.
#[derive(Debug, Clone, Copy, PartialEq, Eq)]
pub enum RecordError {
    /// The header's neuron count is zero or negative; `index` is the
    /// 1-based position of the offending record in its stream.
    NonPositiveNeurons { index: u64, n_neurons: i32 },
}

/// The header whose 16 bytes are `b`.
pub open spec fn header_of(b: Seq<u8>) -> RecordHeader {
    RecordHeader {
        token: le_i32_at(b, 0) as i32,
        layer: le_i32_at(b, 4) as i32,
        batch: le_i32_at(b, 8) as i32,
        n_neurons: le_i32_at(b, 12) as i32,
    }
}

/// Decode a record header from its 16 stored bytes.
pub fn decode_header(b: &[u8]) -> (h: RecordHeader)
    requires
        b@.len() == HEADER_LEN,
    ensures
        h == header_of(b@),
        h.token == le_i32_at(b@, 0),
        h.layer == le_i32_at(b@, 4),
        h.batch == le_i32_at(b@, 8),
        h.n_neurons == le_i32_at(b@, 12),
{
    RecordHeader {
        token: read_i32_le(b, 0),
        layer: read_i32_le(b, 4),
        batch: read_i32_le(b, 8),
        n_neurons: read_i32_le(b, 12),
    }
}

impl RecordHeader {
    /// Number of score bytes that follow this header.
    pub fn data_len(&self) -> (n: u64)
        requires
            self.n_neurons > 0,
        ensures
            n == 4 * self.n_neurons,
    {
        (self.n_neurons as u64) * 4
    }
}

/// The scores stored little-endian, four bytes each, in `b`.
pub open spec fn scores_of(b: Seq<u8>) -> Seq<u32> {
    Seq::new(b.len() / 4, |i: int| le_u32_at(b, 4 * i) as u32)
}

/// Assemble a record from its decoded header and the score bytes that
/// followed it.
pub fn decode_record(header: &RecordHeader, data: &[u8]) -> (r: Record)
    requires
        header.n_neurons > 0,
        data@.len() == 4 * header.n_neurons,
    ensures
        r.token == header.token,
        r.layer == header.layer,
        r.batch == header.batch,
        r.scores@ == scores_of(data@),
        r.scores@.len() == header.n_neurons,
{
    let n = header.n_neurons as usize;
    let mut scores: Vec<u32> = Vec::new();
    let mut i: usize = 0;
    while i < n
        invariant
            n == header.n_neurons,
            data@.len() == 4 * n,
            data.len() == 4 * n,
            i <= n,
            scores@.len() == i,
            forall|k: int| 0 <= k < i ==> scores@[k] as int == le_u32_at(data@, 4 * k),
        decreases n - i,
    {
        let v = read_u32_le(data, 4 * i);
        scores.push(v);
        i = i + 1;
    }
    assert(scores@ =~= scores_of(data@));
    Record { token: header.token, layer: header.layer, batch: header.batch, scores }
}

/// The decoding state of one record stream: the reader it pulls bytes from,
/// how many headers have been read so far, and whether the stream has
/// ended.
///
/// Reading is done by the caller: it reads [`HEADER_LEN`] bytes and hands
/// them to [`RecordIter::begin_record`] (or reports a clean end of stream
/// with [`RecordIter::end_of_stream`]), then reads the header's
/// [`RecordHeader::data_len`] bytes and hands them to [`decode_record`].
pub struct RecordIter<R> {
    reader: R,
    index: u64,
    done: bool,
}

impl<R> RecordIter<R> {
    /// The reader this stream pulls from.
    pub closed spec fn reader_spec(&self) -> R {
        self.reader
    }

    /// Number of record headers read so far.
    pub closed spec fn index_spec(&self) -> u64 {
        self.index
    }

    /// Whether the stream has reached its end.
    pub closed spec fn done_spec(&self) -> bool {
        self.done
    }

    pub fn new(reader: R) -> (it: Self)
        ensures
            it.reader_spec() == reader,
            it.index_spec() == 0,
            !it.done_spec(),
    {
        RecordIter { reader, index: 0, done: false }
    }

    pub fn into_inner(self) -> (r: R)
        ensures
            r == self.reader_spec(),
    {
        self.reader
    }

    pub fn index(&self) -> (i: u64)
        ensures
            i == self.index_spec(),
    {
        self.index
    }

    pub fn is_done(&self) -> (d: bool)
        ensures
            d == self.done_spec(),
    {
        self.done
    }

    /// The reader, to pull the next bytes from.
    pub fn reader_mut(&mut self) -> (r: &mut R)
        ensures
            *r == old(self).reader_spec(),
            final(self).reader_spec() == *final(r),
            final(self).index_spec() == old(self).index_spec(),
            final(self).done_spec() == old(self).done_spec(),
    {
        &mut self.reader
    }

    /// The stream ended cleanly where a header was due: no more records.
    pub fn end_of_stream(&mut self)
        ensures
            final(self).done_spec(),
            final(self).index_spec() == old(self).index_spec(),
            final(self).reader_spec() == old(self).reader_spec(),
    {
        self.done = true;
    }

    /// A full header was read: count it and decode it. A header whose neuron
    /// count is not positive is an error naming the record's position.
    pub fn begin_record(&mut self, header: &[u8]) -> (res: Result<RecordHeader, RecordError>)
        requires
            header@.len() == HEADER_LEN,
            old(self).index_spec() < u64::MAX,
        ensures
            final(self).index_spec() == old(self).index_spec() + 1,
            final(self).done_spec() == old(self).done_spec(),
            final(self).reader_spec() == old(self).reader_spec(),
            header_of(header@).n_neurons > 0 ==> res == Ok::<RecordHeader, RecordError>(
                header_of(header@),
            ),
            header_of(header@).n_neurons <= 0 ==> res == Err::<RecordHeader, RecordError>(
                RecordError::NonPositiveNeurons {
                    index: final(self).index_spec(),
                    n_neurons: header_of(header@).n_neurons,
                },
            ),
    {
        self.index = self.index + 1;
        let h = decode_header(header);
        if h.n_neurons <= 0 {
            Err(RecordError::NonPositiveNeurons { index: self.index, n_neurons: h.n_neurons })
        } else {
            Ok(h)
        }
    }
}

// ── Filtering ────────────────────────────────────────────────────

/// Keeps only the records of a given layer and/or batch from an inner
/// record stream (`None` = no constraint on that field).
pub struct FilterIter<I> {
    inner: I,
    layer: Option<i32>,
    batch: Option<i32>,
}

/// Whether a record passes the layer/batch filter.
pub open spec fn filter_keeps(layer: Option<i32>, batch: Option<i32>, r: Record) -> bool {
    &&& (layer matches Some(l) ==> r.layer == l)
    &&& (batch matches Some(b) ==> r.batch == b)
}

impl<I> FilterIter<I> {
    pub closed spec fn inner_spec(&self) -> I {
        self.inner
    }

    pub closed spec fn layer_spec(&self) -> Option<i32> {
        self.layer
    }

    pub closed spec fn batch_spec(&self) -> Option<i32> {
        self.batch
    }

    pub fn new(inner: I, layer: Option<i32>, batch: Option<i32>) -> (f: Self)
        ensures
            f.inner_spec() == inner,
            f.layer_spec() == layer,
            f.batch_spec() == batch,
    {
        FilterIter { inner, layer, batch }
    }

    /// The inner stream, to pull the next record from.
    pub fn inner_mut(&mut self) -> (r: &mut I)
        ensures
            *r == old(self).inner_spec(),
            final(self).inner_spec() == *final(r),
            final(self).layer_spec() == old(self).layer_spec(),
            final(self).batch_spec() == old(self).batch_spec(),
    {
        &mut self.inner
    }

    /// Whether `record` passes this filter.
    pub fn keeps(&self, record: &Record) -> (k: bool)
        ensures
            k == filter_keeps(self.layer_spec(), self.batch_spec(), *record),
    {
        if let Some(l) = self.layer {
            if record.layer != l {
                return false;
            }
        }
        if let Some(b) = self.batch {
            if record.batch != b {
                return false;
            }
        }
        true
    }
}

// ── Encoding, and the round trip ─────────────────────────────────

/// The four little-endian bytes of a 32-bit pattern `v` (0 <= v < 2^32).
pub open spec fn le_bytes(v: int) -> Seq<u8> {
    seq![
        (v % 256) as u8,
        ((v / 256) % 256) as u8,
        ((v / 65536) % 256) as u8,
        ((v / 16777216) % 256) as u8,
    ]
}

/// The 32-bit two's-complement pattern of `x`.
pub open spec fn bits_of_i32(x: i32) -> int {
    if x >= 0 {
        x as int
    } else {
        x + 0x1_0000_0000
    }
}

/// The stored bytes of a sequence of scores, each as four little-endian
/// bytes.
pub open spec fn score_bytes(s: Seq<u32>) -> Seq<u8>
    decreases s.len(),
{
    if s.len() == 0 {
        Seq::empty()
    } else {
        score_bytes(s.drop_last()) + le_bytes(s.last() as int)
    }
}

/// The stored bytes of a record: its 16-byte header (token, layer, batch,
/// neuron count) and then its scores.
pub open spec fn encode_record(r: Record) -> Seq<u8> {
    le_bytes(bits_of_i32(r.token)) + le_bytes(bits_of_i32(r.layer)) + le_bytes(bits_of_i32(r.batch))
        + le_bytes(r.scores@.len() as int) + score_bytes(r.scores@)
}

proof fn lemma_le_bytes(v: int)
    requires
        0 <= v < 0x1_0000_0000,
    ensures
        le_u32_at(le_bytes(v), 0) == v,
        le_bytes(v).len() == 4,
{
    let b = le_bytes(v);
    let v1 = v / 256;
    let v2 = v1 / 256;
    let v3 = v2 / 256;
    assert(v == 256 * v1 + v % 256 && 0 <= v % 256 < 256) by (nonlinear_arith)
        requires
            v1 == v / 256,
            v >= 0,
    ;
    assert(v1 == 256 * v2 + v1 % 256 && 0 <= v1 % 256 < 256) by (nonlinear_arith)
        requires
            v2 == v1 / 256,
            v1 >= 0,
    ;
    assert(v2 == 256 * v3 + v2 % 256 && 0 <= v2 % 256 < 256) by (nonlinear_arith)
        requires
            v3 == v2 / 256,
            v2 >= 0,
    ;
    assert(v / 65536 == v2) by (nonlinear_arith)
        requires
            v1 == v / 256,
            v2 == v1 / 256,
            v >= 0,
    {
        vstd::arithmetic::div_mod::lemma_div_denominator(v, 256, 256);
    }
    assert(v / 16777216 == v3) by (nonlinear_arith)
        requires
            v3 == v2 / 256,
            v2 == v / 65536,
            v >= 0,
    {
        vstd::arithmetic::div_mod::lemma_div_denominator(v, 65536, 256);
    }
    assert(0 <= v3 < 256) by (nonlinear_arith)
        requires
            v3 == v / 16777216,
            0 <= v < 0x1_0000_0000,
    ;
    assert(v3 % 256 == v3);
    assert(b[0] == v % 256 && b[1] == v1 % 256 && b[2] == v2 % 256 && b[3] == v3);
}

proof fn lemma_score_bytes(s: Seq<u32>)
    ensures
        score_bytes(s).len() == 4 * s.len(),
        forall|i: int, j: int|
            0 <= i < s.len() && 0 <= j < 4 ==> #[trigger] score_bytes(s)[4 * i + j] == le_bytes(
                s[i] as int,
            )[j],
    decreases s.len(),
{
    if s.len() > 0 {
        let p = s.drop_last();
        lemma_score_bytes(p);
        assert forall|i: int, j: int| 0 <= i < s.len() && 0 <= j < 4 implies #[trigger] score_bytes(s)[4 * i
            + j] == le_bytes(s[i] as int)[j] by {
            if i < s.len() - 1 {
                assert(score_bytes(p)[4 * i + j] == le_bytes(p[i] as int)[j]);
            }
        }
    }
}

/// Decoding the stored bytes of a record gives the record back: its header
/// (with the neuron count) from the first 16 bytes, and its scores, bit
/// for bit, from the rest.
#[verifier::spinoff_prover]
pub proof fn law_decode_inverts_encode(r: Record)
    requires
        1 <= r.scores@.len() <= i32::MAX,
    ensures
        encode_record(r).len() == HEADER_LEN + 4 * r.scores@.len(),
        header_of(encode_record(r).take(HEADER_LEN as int)) == (RecordHeader {
            token: r.token,
            layer: r.layer,
            batch: r.batch,
            n_neurons: r.scores@.len() as i32,
        }),
        scores_of(encode_record(r).skip(HEADER_LEN as int)) == r.scores@,
{
    let e = encode_record(r);
    let n = r.scores@.len() as int;
    lemma_le_bytes(bits_of_i32(r.token));
    lemma_le_bytes(bits_of_i32(r.layer));
    lemma_le_bytes(bits_of_i32(r.batch));
    lemma_le_bytes(n);
    lemma_score_bytes(r.scores@);
    let h = e.take(16);
    let ht = le_bytes(bits_of_i32(r.token));
    let hl = le_bytes(bits_of_i32(r.layer));
    let hb = le_bytes(bits_of_i32(r.batch));
    let hn = le_bytes(n);
    assert(h =~= ht + hl + hb + hn);
    assert(le_u32_at(h, 0) == le_u32_at(ht, 0));
    assert(le_u32_at(h, 4) == le_u32_at(hl, 0));
    assert(le_u32_at(h, 8) == le_u32_at(hb, 0));
    assert(le_u32_at(h, 12) == le_u32_at(hn, 0));
    let d = e.skip(16);
    assert(d =~= score_bytes(r.scores@));
    assert forall|i: int| 0 <= i < n implies #[trigger] scores_of(d)[i] == r.scores@[i] by {
        lemma_le_bytes(r.scores@[i] as int);
        let lb = le_bytes(r.scores@[i] as int);
        let sb = score_bytes(r.scores@);
        assert(sb[4 * i + 0] == lb[0]);
        assert(sb[4 * i + 1] == lb[1]);
        assert(sb[4 * i + 2] == lb[2]);
        assert(sb[4 * i + 3] == lb[3]);
        assert(4 * i + 0 == 4 * i);
        assert(d[4 * i] == lb[0]);
        assert(d[4 * i + 1] == lb[1]);
        assert(d[4 * i + 2] == lb[2]);
        assert(d[4 * i + 3] == lb[3]);
        assert(le_u32_at(d, 4 * i) == le_u32_at(lb, 0));
    }
    assert(scores_of(d) =~= r.scores@);
}

} // verus!
