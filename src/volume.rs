//! Decoding of a subset's binary payload into a volume of 16-bit samples.
use vstd::prelude::*;

verus! {

/// Order of the two bytes of a stored sample.
#[derive(Debug, PartialEq, Eq, Structural, Clone, Copy)]
pub enum ByteOrder {
    BigEndian,
    LittleEndian,
}

/// The signed 16-bit integer whose two's-complement bytes are `hi`, `lo`.
pub open spec fn i16_of(hi: u8, lo: u8) -> i16 {
    if hi < 128 {
        (hi * 256 + lo) as i16
    } else {
        (hi * 256 + lo - 65536) as i16
    }
}

/// The sample stored in the bytes `b0`, `b1`, in that order in the stream.
pub open spec fn sample_value(b0: u8, b1: u8, order: ByteOrder) -> i16 {
    match order {
        ByteOrder::BigEndian => i16_of(b0, b1),
        ByteOrder::LittleEndian => i16_of(b1, b0),
    }
}

/// The samples of a span whose samples are `width` bytes wide; only the first
/// two bytes of each are read.
pub open spec fn decode_span(span: Seq<u8>, width: nat, order: ByteOrder) -> Seq<i16>
    recommends
        width >= 2,
{
    Seq::new(
        span.len() / width,
        |i: int| sample_value(span[i * width], span[i * width + 1], order),
    )
}

/// Numerator of a sample's normalized amplitude
/// `(raw - i16::MIN) / (i16::MAX - i16::MIN) * 2 - 1`, whose denominator is
/// `NORM_DENOMINATOR`.
pub open spec fn normalized_numerator(raw: i16) -> int {
    2 * raw + 1
}

/// Denominator of every normalized amplitude: `i16::MAX - i16::MIN`.
pub const NORM_DENOMINATOR: u32 = 65535;

/// The integer sample recovered from a normalized amplitude `num / 65535`:
/// `(num / 65535 + 1) / 2 * 65535 + i16::MIN`, rounded down.
pub open spec fn recovered_sample(num: int) -> int {
    (num + 65535) / 2 - 32768
}

/// The high and low byte of a sample's two's-complement form.
pub open spec fn bytes_of(raw: i16) -> (u8, u8) {
    let u: int = if raw < 0 {
        raw + 65536
    } else {
        raw as int
    };
    ((u / 256) as u8, (u % 256) as u8)
}

/// Every normalized amplitude lies in [-1, 1].
pub proof fn lemma_normalized_in_range(raw: i16)
    ensures
        -(NORM_DENOMINATOR as int) <= normalized_numerator(raw) <= NORM_DENOMINATOR as int,
{
}

/// Normalization can be undone: the amplitude gives back the stored integer,
/// and that integer gives back the two bytes it was read from.
pub proof fn lemma_normalization_invertible(b0: u8, b1: u8, order: ByteOrder)
    ensures
        recovered_sample(normalized_numerator(sample_value(b0, b1, order))) == sample_value(
            b0,
            b1,
            order,
        ),
        order == ByteOrder::BigEndian ==> bytes_of(sample_value(b0, b1, order)) == (b0, b1),
        order == ByteOrder::LittleEndian ==> bytes_of(sample_value(b0, b1, order)) == (b1, b0),
{
    let raw = sample_value(b0, b1, order);
    assert((2 * raw + 1 + 65535) / 2 == raw + 32768);
    let (hi, lo) = match order {
        ByteOrder::BigEndian => (b0, b1),
        ByteOrder::LittleEndian => (b1, b0),
    };
    assert(raw == i16_of(hi, lo));
    let u: int = hi * 256 + lo;
    assert(u / 256 == hi && u % 256 == lo) by (nonlinear_arith)
        requires
            u == hi * 256 + lo,
            0 <= lo < 256,
            0 <= hi,
    ;
}

/// Every sample of a decoded span has a normalized amplitude in [-1, 1], and
/// recovering the integer from that amplitude gives back the two bytes the
/// sample was read from.
pub proof fn lemma_decoded_samples_invertible(span: Seq<u8>, width: nat, order: ByteOrder, i: int)
    requires
        width >= 2,
        0 <= i < decode_span(span, width, order).len(),
    ensures
        -(NORM_DENOMINATOR as int) <= normalized_numerator(decode_span(span, width, order)[i])
            <= NORM_DENOMINATOR as int,
        recovered_sample(normalized_numerator(decode_span(span, width, order)[i]))
            == decode_span(span, width, order)[i],
        order == ByteOrder::BigEndian ==> bytes_of(decode_span(span, width, order)[i]) == (
            span[i * width],
            span[i * width + 1],
        ),
        order == ByteOrder::LittleEndian ==> bytes_of(decode_span(span, width, order)[i]) == (
            span[i * width + 1],
            span[i * width],
        ),
{
    assert(i * width + width <= span.len()) by (nonlinear_arith)
        requires
            0 <= i < span.len() / width,
            width >= 2,
    ;
    lemma_normalized_in_range(decode_span(span, width, order)[i]);
    lemma_normalization_invertible(span[i * width], span[i * width + 1], order);
}

/// Reads the sample stored in `b0`, `b1`.
pub fn read_sample(b0: u8, b1: u8, order: ByteOrder) -> (r: i16)
    ensures
        r == sample_value(b0, b1, order),
{
    let (hi, lo) = match order {
        ByteOrder::BigEndian => (b0, b1),
        ByteOrder::LittleEndian => (b1, b0),
    };
    let u: i32 = hi as i32 * 256 + lo as i32;
    if hi < 128 {
        u as i16
    } else {
        (u - 65536) as i16
    }
}

/// Decodes the span `payload[off..off + len]`, whose samples are `width` bytes wide.
pub fn decode_samples(payload: &[u8], off: usize, len: usize, width: usize, order: ByteOrder) -> (r:
    Vec<i16>)
    requires
        width >= 2,
        off + len <= payload@.len(),
    ensures
        r@ == decode_span(payload@.subrange(off as int, off + len), width as nat, order),
{
    let ghost span = payload@.subrange(off as int, off + len);
    let count: usize = len / width;
    let plen: usize = payload.len();
    let mut r: Vec<i16> = Vec::with_capacity(count);
    let mut i: usize = 0;
    while i < count
        invariant
            width >= 2,
            off + len <= payload@.len(),
            plen == payload@.len(),
            span == payload@.subrange(off as int, off + len),
            count == len / width,
            i <= count,
            r@.len() == i,
            forall|j: int|
                0 <= j < i ==> #[trigger] r@[j] == sample_value(
                    span[j * width],
                    span[j * width + 1],
                    order,
                ),
        decreases count - i,
    {
        assert(i * width + width <= len) by (nonlinear_arith)
            requires
                i < count,
                count == len / width,
                width >= 2,
        ;
        assert(i * width + 1 < len);
        let step: usize = i * width;
        let at: usize = off + step;
        assert(payload@[at as int] == span[i * width]);
        assert(payload@[at + 1] == span[i * width + 1]);
        let v = read_sample(payload[at], payload[at + 1], order);
        r.push(v);
        i = i + 1;
    }
    assert(r@ =~= decode_span(span, width as nat, order));
    r
}

/// One channel's samples, indexed `[row][column][depth]` and stored with the
/// depth index running fastest.
#[derive(Debug)]
pub struct Volume {
    pub rows: usize,
    pub cols: usize,
    pub depth: usize,
    pub samples: Vec<i16>,
}

pub struct VolumeModel {
    pub rows: nat,
    pub cols: nat,
    pub depth: nat,
    pub samples: Seq<i16>,
}

impl View for Volume {
    type V = VolumeModel;

    open spec fn view(&self) -> VolumeModel {
        VolumeModel {
            rows: self.rows as nat,
            cols: self.cols as nat,
            depth: self.depth as nat,
            samples: self.samples@,
        }
    }
}

impl VolumeModel {
    /// Position of sample `[row][col][d]` in `samples`.
    pub open spec fn index(self, row: int, col: int, d: int) -> int {
        (row * self.cols + col) * self.depth + d
    }

    pub open spec fn wf(self) -> bool {
        self.samples.len() == self.rows * self.cols * self.depth
    }
}

} // verus!
