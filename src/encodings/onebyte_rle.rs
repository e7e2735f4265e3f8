//! One byte per run colour RLE.
//!
//! Byte 0 is a header: the left column offset in its top 3 bits and the encoded
//! row width minus one in its low 5 bits. Every later byte is a run: a colour in
//! its top 3 bits and the run length minus one in its low 5 bits.

use crate::types::{dims_valid, flat_index, lemma_cell_in_grid, lemma_position_in_grid, ColorIndex, IndexedImage};
use vstd::prelude::*;

verus! {

/// Longest run one byte can describe.
const RUN_LENGTH_LIMIT: u8 = 0x20;

/// First offset that no longer fits the header's 3 bits.
const OFFSET_LIMIT: u8 = 0x08;

/// Low 5 bits of a header: the encoded width minus one.
const WIDTH_MASK: u8 = 0x1F;

/// Low 5 bits of a run byte: the run length minus one.
const RUN_LENGTH_MASK: u8 = 0x1F;

/// The header byte for a left offset (0..=7) and width field (0..=31).
pub open spec fn header_byte(offset: int, width: int) -> int {
    offset * 32 + width
}

/// The run byte for `len` (1..=32) pixels of colour `c`.
pub open spec fn run_byte(c: ColorIndex, len: int) -> int {
    c.value() * 32 + (len - 1)
}

/// The colour and length that a run byte stands for.
pub open spec fn run_of_byte(b: u8) -> (ColorIndex, int) {
    (ColorIndex::from_value(b / 32), b % 32 + 1)
}

/// Packing a header and reading it back gives the same offset and width field.
pub proof fn lemma_header_round_trip(offset: u8, width: u8)
    requires
        offset <= 7,
        width <= 31,
    ensures
        0 <= header_byte(offset as int, width as int) <= 255,
        (header_byte(offset as int, width as int) as u8) / 32 == offset,
        (header_byte(offset as int, width as int) as u8) % 32 == width,
{
}

/// Packing a run and reading it back gives the same colour and length.
pub proof fn lemma_run_byte_round_trip(c: ColorIndex, len: int)
    requires
        1 <= len <= 32,
    ensures
        0 <= run_byte(c, len) <= 255,
        run_of_byte(run_byte(c, len) as u8) == (c, len),
{
    crate::types::lemma_color_code_round_trip(c, 0);
}

/// One run: a colour repeated 1 to 32 times.
#[derive(Debug)]
pub struct RunByte {
    color: ColorIndex,
    run_length: u8,
}

impl View for RunByte {
    type V = (ColorIndex, int);

    closed spec fn view(&self) -> (ColorIndex, int) {
        (self.color, self.run_length as int)
    }
}

impl RunByte {
    #[verifier::type_invariant]
    spec fn inv(&self) -> bool {
        1 <= self.run_length <= 32
    }

    /// A run of `run_length` pixels of `color`.
    pub fn new(color: ColorIndex, run_length: u8) -> (r: Self)
        requires
            1 <= run_length <= 32,
        ensures
            r@ == (color, run_length as int),
    {
        RunByte { color, run_length }
    }

    /// The run's colour.
    pub fn color(&self) -> (r: ColorIndex)
        ensures
            r == self@.0,
    {
        self.color
    }

    /// The run's length, 1 to 32.
    pub fn run_length(&self) -> (r: u8)
        ensures
            r == self@.1,
            1 <= r <= 32,
    {
        proof {
            use_type_invariant(self);
        }
        self.run_length
    }

    /// The byte that stores this run.
    pub fn get(&self) -> (r: u8)
        ensures
            r == run_byte(self@.0, self@.1),
    {
        proof {
            use_type_invariant(self);
        }
        let c = self.color.as_u8();
        let l = self.run_length;
        assert((c << 5u8) | (((l - 1) as u8) & 0x1Fu8) == c * 32 + (l - 1)) by (bit_vector)
            requires
                c <= 7,
                1 <= l <= 32,
        ;
        (c << 5) | ((l - 1) & RUN_LENGTH_MASK)
    }

    /// The run that `byte` stores; every byte stores one, since every 3-bit
    /// value names a colour.
    pub fn from_byte(byte: u8) -> (r: Option<Self>)
        ensures
            r matches Some(rb) && rb@ == run_of_byte(byte),
    {
        assert(byte >> 5u8 == byte / 32 && byte >> 5u8 <= 7) by (bit_vector);
        assert(byte & 0x1Fu8 == byte % 32) by (bit_vector);
        if let Some(color) = ColorIndex::from_integer(byte >> 5) {
            Some(RunByte { color, run_length: (byte & RUN_LENGTH_MASK) + 1 })
        } else {
            None
        }
    }
}

impl Clone for RunByte {
    fn clone(&self) -> (r: Self)
        ensures
            r@ == self@,
    {
        proof {
            use_type_invariant(self);
        }
        RunByte { color: self.color, run_length: self.run_length }
    }
}

/// A marker for run-length codecs.
pub trait Rle {
    fn push();
}

/// An encoded grid: a header byte and then one byte per run, with the header's
/// two fields kept beside the bytes.
#[derive(Clone)]
pub struct OneByteRle {
    /// Left column offset, 0..=7.
    pub header_offset: u8,
    /// Encoded row width minus one, 0..=31.
    pub header_width: u8,
    /// The header byte followed by the run bytes.
    pub bytes: Vec<u8>,
}

impl OneByteRle {
    /// The header fields agree with byte 0, when there is one.
    pub open spec fn wf(&self) -> bool {
        self.bytes@.len() > 0 ==> {
            &&& self.header_offset == self.bytes@[0] / 32
            &&& self.header_width == self.bytes@[0] % 32
        }
    }

    /// No bytes, and both header fields zero.
    pub fn new() -> (r: Self)
        ensures
            r.wf(),
            r.header_offset == 0,
            r.header_width == 0,
            r.bytes@ == Seq::<u8>::empty(),
    {
        OneByteRle { header_offset: 0, header_width: 0, bytes: Vec::new() }
    }

    /// Takes `bytes` as an encoding and reads its header; `None` when there are
    /// no bytes.
    pub fn new_with_bytes(bytes: Vec<u8>) -> (r: Option<Self>)
        ensures
            r is None <==> bytes@.len() == 0,
            r matches Some(e) ==> {
                &&& e.wf()
                &&& e.bytes@ == bytes@
                &&& e.header_offset == bytes@[0] / 32
                &&& e.header_width == bytes@[0] % 32
            },
    {
        if bytes.len() == 0 {
            return None;
        }
        let header_byte = bytes[0];
        let (header_offset, header_width) = Self::get_header_from_byte(header_byte);
        Some(OneByteRle { header_offset, header_width, bytes })
    }

    /// Splits a header byte into its offset (top 3 bits) and width field (low 5 bits).
    pub fn get_header_from_byte(header_byte: u8) -> (r: (u8, u8))
        ensures
            r == (header_byte / 32, header_byte % 32),
    {
        assert(header_byte >> 5u8 == header_byte / 32) by (bit_vector);
        assert(header_byte & 0x1Fu8 == header_byte % 32) by (bit_vector);
        let header_offset = header_byte >> 5;
        let header_width = header_byte & WIDTH_MASK;
        (header_offset, header_width)
    }

    /// Offset and width field of byte 0; `None` when there are no bytes.
    pub fn get_header(&self) -> (r: Option<(u8, u8)>)
        ensures
            r is None <==> self.bytes@.len() == 0,
            r matches Some(h) ==> h == (self.bytes@[0] / 32, self.bytes@[0] % 32),
    {
        if self.bytes.len() == 0 {
            return None;
        }
        let header_byte = self.bytes[0];
        Some(Self::get_header_from_byte(header_byte))
    }

    /// The encoded bytes.
    pub fn bytes(self) -> (r: Vec<u8>)
        ensures
            r@ == self.bytes@,
    {
        self.bytes
    }

    /// Writes the header, which must be the first byte: offset (0..=7) in the top
    /// 3 bits and width field (0..=31) in the low 5.
    pub fn push_header(&mut self, offset: u8, encode_width: u8)
        requires
            old(self).bytes@.len() == 0,
            offset <= 7,
            encode_width <= 31,
        ensures
            final(self).wf(),
            final(self).header_offset == offset,
            final(self).header_width == encode_width,
            final(self).bytes@ == seq![header_byte(offset as int, encode_width as int) as u8],
    {
        self.header_offset = offset;
        self.header_width = encode_width;
        assert((offset << 5u8) | (encode_width & 0x1Fu8) == offset * 32 + encode_width) by (bit_vector)
            requires
                offset <= 7,
                encode_width <= 31,
        ;
        let packed: u8 = offset << 5 | (encode_width & WIDTH_MASK);
        self.bytes.push(packed);
        proof {
            lemma_header_round_trip(offset, encode_width);
        }
        assert(self.bytes@ =~= seq![header_byte(offset as int, encode_width as int) as u8]);
    }

    /// Appends the byte of one run after the header.
    pub fn push_pixel_run(&mut self, pixel_run: &RunByte)
        requires
            old(self).bytes@.len() > 0,
        ensures
            old(self).wf() ==> final(self).wf(),
            final(self).header_offset == old(self).header_offset,
            final(self).header_width == old(self).header_width,
            final(self).bytes@ == old(self).bytes@.push(
                run_byte(pixel_run@.0, pixel_run@.1) as u8,
            ),
    {
        self.bytes.push(pixel_run.get());
    }

    /// Appends the bytes of `new_pixel_bytes`, in order, after the header.
    pub fn append_pixel_runs(&mut self, new_pixel_bytes: &Vec<RunByte>)
        requires
            old(self).bytes@.len() > 0,
        ensures
            old(self).wf() ==> final(self).wf(),
            final(self).header_offset == old(self).header_offset,
            final(self).header_width == old(self).header_width,
            final(self).bytes@ == old(self).bytes@ + run_bytes(new_pixel_bytes@),
    {
        let mut i: usize = 0;
        while i < new_pixel_bytes.len()
            invariant
                i <= new_pixel_bytes@.len(),
                self.bytes@.len() > 0,
                old(self).wf() ==> self.wf(),
                self.header_offset == old(self).header_offset,
                self.header_width == old(self).header_width,
                self.bytes@ == old(self).bytes@ + run_bytes(new_pixel_bytes@.take(i as int)),
            decreases new_pixel_bytes@.len() - i,
        {
            self.push_pixel_run(&new_pixel_bytes[i]);
            assert(new_pixel_bytes@.take(i as int + 1) =~= new_pixel_bytes@.take(i as int).push(
                new_pixel_bytes@[i as int],
            ));
            assert(run_bytes(new_pixel_bytes@.take(i as int + 1)) =~= run_bytes(
                new_pixel_bytes@.take(i as int),
            ).push(run_byte(new_pixel_bytes@[i as int]@.0, new_pixel_bytes@[i as int]@.1) as u8));
            i = i + 1;
        }
        assert(new_pixel_bytes@.take(i as int) =~= new_pixel_bytes@);
    }
}

/// The bytes of a list of runs, one per run.
pub open spec fn run_bytes(runs: Seq<RunByte>) -> Seq<u8> {
    runs.map_values(|r: RunByte| run_byte(r@.0, r@.1) as u8)
}


/// A grid of `n` cells, all `Empty`.
pub open spec fn empty_grid(n: int) -> Seq<ColorIndex> {
    Seq::new(n as nat, |_i: int| ColorIndex::Empty)
}

/// One colour per pixel for a sequence of run bytes.
pub open spec fn expand_runs(runs: Seq<u8>) -> Seq<ColorIndex>
    decreases runs.len(),
{
    if runs.len() == 0 {
        Seq::empty()
    } else {
        let (c, len) = run_of_byte(runs.last());
        expand_runs(runs.drop_last()) + Seq::new(len as nat, |_i: int| c)
    }
}

/// The flat position of the `k`-th decoded pixel in a grid with rows of `w`:
/// decoded rows hold `header % 32 + 1` pixels and start at column `header / 32`,
/// the first of them at row `trim`.
pub open spec fn pixel_position(w: int, header: u8, trim: int, k: int) -> int {
    let rw = header % 32 + 1;
    flat_index(w, header / 32 + k % rw, trim + k / rw)
}

/// How many of `len` decoded pixels, counted from `k`, are written into an
/// `n`-cell grid: decoding stops at the first pixel whose position is at or past
/// the last cell.
pub open spec fn decode_stop(n: int, w: int, header: u8, trim: int, len: int, k: int) -> int
    decreases len - k,
{
    if k >= len {
        len
    } else if pixel_position(w, header, trim, k) >= n - 1 {
        k
    } else {
        decode_stop(n, w, header, trim, len, k + 1)
    }
}

/// The grid `px` after the first `k` pixels of `colors` were written; with
/// `overwrite` false an `Empty` pixel leaves its cell as it was.
pub open spec fn decode_writes(
    px: Seq<ColorIndex>,
    w: int,
    header: u8,
    trim: int,
    colors: Seq<ColorIndex>,
    overwrite: bool,
    k: int,
) -> Seq<ColorIndex>
    decreases k,
{
    if k <= 0 {
        px
    } else {
        let prev = decode_writes(px, w, header, trim, colors, overwrite, k - 1);
        let c = colors[k - 1];
        if overwrite || c != ColorIndex::Empty {
            prev.update(pixel_position(w, header, trim, k - 1), c)
        } else {
            prev
        }
    }
}

/// Why a decode stopped early.
#[derive(Debug, Clone, Copy, PartialEq, Eq, Structural)]
pub enum DecodeError {
    /// There was no header byte; nothing was written.
    EmptyBuffer,
    /// A run byte named no colour; what came before it was written.
    InvalidRunByte,
    /// A pixel fell at or past the grid's last cell; what came before it was written.
    DestinationOverrun,
}

/// The grid and the outcome of decoding `bytes` onto the `n`-cell grid `px` in
/// rows of `w`, from row `trim`.
pub open spec fn decode_outcome(
    px: Seq<ColorIndex>,
    n: int,
    w: int,
    bytes: Seq<u8>,
    trim: int,
    overwrite: bool,
) -> (Seq<ColorIndex>, Result<(), DecodeError>) {
    if bytes.len() == 0 {
        (px, Err(DecodeError::EmptyBuffer))
    } else {
        let colors = expand_runs(bytes.drop_first());
        let stop = decode_stop(n, w, bytes[0], trim, colors.len() as int, 0);
        (
            decode_writes(px, w, bytes[0], trim, colors, overwrite, stop),
            if stop < colors.len() {
                Err(DecodeError::DestinationOverrun)
            } else {
                Ok(())
            },
        )
    }
}

/// The pixels of two byte sequences one after the other are the pixels of both.
pub proof fn lemma_expand_append(a: Seq<u8>, b: Seq<u8>)
    ensures
        expand_runs(a + b) == expand_runs(a) + expand_runs(b),
    decreases b.len(),
{
    if b.len() == 0 {
        assert(a + b =~= a);
        assert(expand_runs(a) + expand_runs(b) =~= expand_runs(a));
    } else {
        lemma_expand_append(a, b.drop_last());
        assert((a + b).drop_last() =~= a + b.drop_last());
        assert(expand_runs(a + b) =~= expand_runs(a) + expand_runs(b));
    }
}

/// The run byte at `bytes[b]` gives the pixels of the decode right after those of
/// the run bytes before it.
proof fn lemma_run_in_expansion(bytes: Seq<u8>, b: int)
    requires
        1 <= b < bytes.len(),
    ensures
        ({
            let pre = expand_runs(bytes.subrange(1, b)).len();
            let colors = expand_runs(bytes.drop_first());
            let (c, len) = run_of_byte(bytes[b]);
            &&& expand_runs(bytes.subrange(1, b + 1)).len() == pre + len
            &&& pre + len <= colors.len()
            &&& forall|j: int| pre <= j < pre + len ==> colors[j] == c
        }),
{
    let head = bytes.subrange(1, b + 1);
    let tail = bytes.subrange(b + 1, bytes.len() as int);
    assert(head.drop_last() =~= bytes.subrange(1, b));
    assert(head.last() == bytes[b]);
    assert(bytes.drop_first() =~= head + tail);
    lemma_expand_append(head, tail);
    let pre = expand_runs(bytes.subrange(1, b)).len();
    let colors = expand_runs(bytes.drop_first());
    let (c, len) = run_of_byte(bytes[b]);
    assert forall|j: int| pre <= j < pre + len implies colors[j] == c by {
        assert(colors[j] == expand_runs(head)[j]);
    }
}

/// `decode_stop` from `k` finds `target` when every pixel in between is written
/// and `target` is either the end or the first pixel that is not.
pub(crate) proof fn lemma_decode_stop(n: int, w: int, header: u8, trim: int, len: int, k: int, target: int)
    requires
        0 <= k <= target <= len,
        forall|j: int| k <= j < target ==> #[trigger] pixel_position(w, header, trim, j) < n - 1,
        target < len ==> pixel_position(w, header, trim, target) >= n - 1,
    ensures
        decode_stop(n, w, header, trim, len, k) == target,
    decreases target - k,
{
    if k < target {
        lemma_decode_stop(n, w, header, trim, len, k + 1, target);
    }
}

/// The decoder's cursor `(offset + k % rw, trim + k / rw)` reaches the grid's
/// last cell exactly when `pixel_position` does, and before that `k` stays small.
proof fn lemma_cursor_guard(n: int, w: int, header: u8, trim: int, k: int)
    requires
        dims_valid(n, w),
        0 <= trim <= 255,
        0 <= k,
    ensures
        ({
            let rw = header % 32 + 1;
            let x = header / 32 + k % rw;
            let y = trim + k / rw;
            &&& 0 <= x <= 38
            &&& 0 <= y
            &&& (y >= n / w || w * y + x >= n - 1) <==> pixel_position(w, header, trim, k) >= n - 1
            &&& y < n / w ==> w * y + x <= 255 * 255 + 38 && k < 32 * 255
        }),
{
    let rw = header % 32 + 1;
    let h = n / w;
    let x = header / 32 + k % rw;
    let y = trim + k / rw;
    vstd::arithmetic::div_mod::lemma_fundamental_div_mod(n, w);
    vstd::arithmetic::div_mod::lemma_fundamental_div_mod(k, rw);
    assert(0 <= k / rw) by {
        vstd::arithmetic::div_mod::lemma_div_pos_is_pos(k, rw);
    }
    assert(y * w == w * y) by (nonlinear_arith);
    if y >= h {
        assert(w * y >= w * h) by (nonlinear_arith)
            requires
                y >= h,
                w >= 1,
        ;
    } else {
        assert(w * y <= 255 * 255) by (nonlinear_arith)
            requires
                0 <= y < h,
                h <= 255,
                1 <= w <= 255,
        ;
        assert(k < 32 * 255) by (nonlinear_arith)
            requires
                k == rw * (k / rw) + k % rw,
                0 <= k % rw < rw,
                1 <= rw <= 32,
                0 <= k / rw < 255,
        ;
    }
}

/// Decodes `rle` onto `image_out` from row `trim`: each run's pixels go left to
/// right over the encoded width from the header's offset, wrapping to the next
/// row. With `overwrite` false, `Empty` pixels leave the canvas as it was.
/// Decoding stops before the grid's last cell.
pub fn rle_on_indexed<const PIXELS: usize, const WIDTH: usize>(
    image_out: &mut IndexedImage<PIXELS, WIDTH>,
    rle: &OneByteRle,
    trim: u8,
    overwrite: bool,
) -> (r: Result<(), DecodeError>)
    requires
        old(image_out).wf(),
    ensures
        final(image_out).wf(),
        final(image_out).vertical_trim == old(image_out).vertical_trim,
        (final(image_out)@, r) == decode_outcome(
            old(image_out)@,
            PIXELS as int,
            WIDTH as int,
            rle.bytes@,
            trim as int,
            overwrite,
        ),
{
    let (header_offset, header_width) = match rle.get_header() {
        Some(h) => h,
        None => {
            return Err(DecodeError::EmptyBuffer);
        },
    };
    let ghost header = rle.bytes@[0];
    let ghost colors = expand_runs(rle.bytes@.drop_first());
    let ghost start = old(image_out)@;
    let offset: usize = header_offset as usize;
    let rw: usize = header_width as usize + 1;
    let h: usize = PIXELS / WIDTH;
    let mut consumed: usize = 0;
    let mut b: usize = 1;
    assert(rle.bytes@.subrange(1, 1) =~= Seq::<u8>::empty());
    while b < rle.bytes.len()
        invariant
            image_out.wf(),
            image_out.vertical_trim == old(image_out).vertical_trim,
            rle.bytes@.len() > 0,
            header == rle.bytes@[0],
            start == old(image_out)@,
            colors == expand_runs(rle.bytes@.drop_first()),
            offset == header / 32,
            rw == header % 32 + 1,
            h == PIXELS / WIDTH,
            1 <= b <= rle.bytes@.len(),
            consumed == expand_runs(rle.bytes@.subrange(1, b as int)).len(),
            consumed <= 32 * 255,
            forall|j: int|
                0 <= j < consumed ==> #[trigger] pixel_position(WIDTH as int, header, trim as int, j) < PIXELS
                    - 1,
            image_out@ == decode_writes(
                start,
                WIDTH as int,
                header,
                trim as int,
                colors,
                overwrite,
                consumed as int,
            ),
        decreases rle.bytes@.len() - b,
    {
        let run = match RunByte::from_byte(rle.bytes[b]) {
            Some(run) => run,
            None => {
                return Err(DecodeError::InvalidRunByte);
            },
        };
        let color = run.color();
        let len = run.run_length();
        proof {
            lemma_run_in_expansion(rle.bytes@, b as int);
        }
        let ghost first = consumed;
        let mut rep: u8 = 0;
        while rep < len
            invariant
                image_out.wf(),
                image_out.vertical_trim == old(image_out).vertical_trim,
                rle.bytes@.len() > 0,
                header == rle.bytes@[0],
                start == old(image_out)@,
                colors == expand_runs(rle.bytes@.drop_first()),
                offset == header / 32,
                rw == header % 32 + 1,
                h == PIXELS / WIDTH,
                rep <= len,
                consumed == first + rep,
                first + len <= colors.len(),
                forall|j: int| first <= j < first + len ==> colors[j] == color,
                consumed <= 32 * 255,
                forall|j: int|
                    0 <= j < consumed ==> #[trigger] pixel_position(WIDTH as int, header, trim as int, j)
                        < PIXELS - 1,
                image_out@ == decode_writes(
                    start,
                    WIDTH as int,
                    header,
                    trim as int,
                    colors,
                    overwrite,
                    consumed as int,
                ),
            decreases len - rep,
        {
            proof {
                lemma_cursor_guard(PIXELS as int, WIDTH as int, header, trim as int, consumed as int);
            }
            let x = offset + consumed % rw;
            let y = trim as usize + consumed / rw;
            if y >= h || WIDTH * y + x >= PIXELS - 1 {
                proof {
                    assert(pixel_position(WIDTH as int, header, trim as int, consumed as int)
                        >= PIXELS - 1);
                    lemma_decode_stop(
                        PIXELS as int,
                        WIDTH as int,
                        header,
                        trim as int,
                        colors.len() as int,
                        0,
                        consumed as int,
                    );
                    assert(consumed < colors.len());
                }
                return Err(DecodeError::DestinationOverrun);
            }
            if overwrite || color != ColorIndex::Empty {
                image_out.set_at(WIDTH * y + x, color);
            }
            consumed = consumed + 1;
            rep = rep + 1;
        }
        b = b + 1;
    }
    proof {
        assert(rle.bytes@.subrange(1, b as int) =~= rle.bytes@.drop_first());
        lemma_decode_stop(
            PIXELS as int,
            WIDTH as int,
            header,
            trim as int,
            colors.len() as int,
            0,
            consumed as int,
        );
    }
    Ok(())
}

/// Decodes `rle` from row `trim` onto a fresh all-`Empty` grid.
pub fn rle_to_indexed<const PIXELS: usize, const WIDTH: usize>(rle: &OneByteRle, trim: u8) -> (r:
    IndexedImage<PIXELS, WIDTH>)
    requires
        dims_valid(PIXELS as int, WIDTH as int),
    ensures
        r.wf(),
        r.vertical_trim == 0,
        r@ == decode_outcome(
            empty_grid(PIXELS as int),
            PIXELS as int,
            WIDTH as int,
            rle.bytes@,
            trim as int,
            true,
        ).0,
{
    let mut out = IndexedImage::<PIXELS, WIDTH>::blank();
    assert(out@ =~= empty_grid(PIXELS as int));
    let _ = rle_on_indexed(&mut out, rle, trim, true);
    out
}


/// Cell `i` of `px` (rows of `w`) holds a colour and lies in a row at or after `trim`.
pub open spec fn is_ink(px: Seq<ColorIndex>, w: int, trim: int, i: int) -> bool {
    0 <= i < px.len() && i / w >= trim && px[i] != ColorIndex::Empty
}

/// Some cell at or after row `trim` holds a colour.
pub open spec fn has_ink(px: Seq<ColorIndex>, w: int, trim: int) -> bool {
    exists|i: int| is_ink(px, w, trim, i)
}

/// Column `c` is the leftmost column that holds ink.
pub open spec fn is_left_edge(px: Seq<ColorIndex>, w: int, trim: int, c: int) -> bool {
    &&& exists|i: int| #[trigger] is_ink(px, w, trim, i) && i % w == c
    &&& forall|i: int| #[trigger] is_ink(px, w, trim, i) ==> c <= i % w
}

/// Column `c` is the rightmost column that holds ink.
pub open spec fn is_right_edge(px: Seq<ColorIndex>, w: int, trim: int, c: int) -> bool {
    &&& exists|i: int| #[trigger] is_ink(px, w, trim, i) && i % w == c
    &&& forall|i: int| #[trigger] is_ink(px, w, trim, i) ==> i % w <= c
}

/// The leftmost column with ink, or 0 when there is none.
pub open spec fn left_edge(px: Seq<ColorIndex>, w: int, trim: int) -> int {
    if has_ink(px, w, trim) {
        choose|c: int| is_left_edge(px, w, trim, c)
    } else {
        0
    }
}

/// The rightmost column with ink, or 0 when there is none.
pub open spec fn right_edge(px: Seq<ColorIndex>, w: int, trim: int) -> int {
    if has_ink(px, w, trim) {
        choose|c: int| is_right_edge(px, w, trim, c)
    } else {
        0
    }
}

/// The header's offset: the leftmost ink column, at most 7.
pub open spec fn encode_offset(px: Seq<ColorIndex>, w: int, trim: int) -> int {
    if left_edge(px, w, trim) < 7 {
        left_edge(px, w, trim)
    } else {
        7
    }
}

/// The header's width field: the rightmost ink column less the offset.
pub open spec fn encode_width(px: Seq<ColorIndex>, w: int, trim: int) -> int {
    right_edge(px, w, trim) - encode_offset(px, w, trim)
}

/// The cells of columns `offset ..= offset + width` in rows `trim .. h`, in
/// row-major order.
pub open spec fn scan(
    px: Seq<ColorIndex>,
    w: int,
    h: int,
    trim: int,
    offset: int,
    width: int,
) -> Seq<ColorIndex> {
    let cols = width + 1;
    let rows = if trim < h {
        h - trim
    } else {
        0
    };
    Seq::new((rows * cols) as nat, |k: int| px[flat_index(w, offset + k % cols, trim + k / cols)])
}

/// Runs of equal colours, read left to right: a pixel extends the last run when
/// it has the same colour and is shorter than 32, and opens a run of 1 otherwise.
pub open spec fn accumulate_runs(s: Seq<ColorIndex>) -> Seq<(ColorIndex, int)>
    decreases s.len(),
{
    if s.len() == 0 {
        Seq::empty()
    } else {
        let prev = accumulate_runs(s.drop_last());
        let c = s.last();
        if prev.len() > 0 && prev.last().0 == c && prev.last().1 < 32 {
            prev.update(prev.len() - 1, (c, prev.last().1 + 1))
        } else {
            prev.push((c, 1))
        }
    }
}

/// `runs` without the `Empty` runs at its end.
pub open spec fn drop_trailing_empty(runs: Seq<(ColorIndex, int)>) -> Seq<(ColorIndex, int)>
    decreases runs.len(),
{
    if runs.len() > 0 && runs.last().0 == ColorIndex::Empty {
        drop_trailing_empty(runs.drop_last())
    } else {
        runs
    }
}

/// The colour and length of each run.
pub open spec fn runs_view(runs: Seq<RunByte>) -> Seq<(ColorIndex, int)> {
    runs.map_values(|r: RunByte| r@)
}

/// Why a grid could not be encoded.
#[derive(Debug, Clone, Copy, PartialEq, Eq, Structural)]
pub enum EncodeError {
    /// The ink spans more columns after the offset than the header's 5 bits hold.
    WidthOverflow,
}

/// The encoding of the `w`-wide, `h`-tall grid `px` from row `trim`: the header,
/// then the runs of the scanned cells without the trailing `Empty` ones.
pub open spec fn rle_encoding(px: Seq<ColorIndex>, w: int, h: int, trim: int) -> Result<
    Seq<u8>,
    EncodeError,
> {
    let offset = encode_offset(px, w, trim);
    let width = encode_width(px, w, trim);
    if width > 31 {
        Err(EncodeError::WidthOverflow)
    } else {
        let runs = drop_trailing_empty(accumulate_runs(scan(px, w, h, trim, offset, width)));
        Ok(
            seq![header_byte(offset, width) as u8] + runs.map_values(
                |r: (ColorIndex, int)| run_byte(r.0, r.1) as u8,
            ),
        )
    }
}

/// A position `k` among `rows * cols` cells read row by row lies in row
/// `k / cols` and column `k % cols`.
proof fn lemma_scan_cell(rows: int, cols: int, k: int)
    requires
        1 <= cols,
        0 <= k < rows * cols,
    ensures
        0 <= k % cols < cols,
        0 <= k / cols < rows,
{
    vstd::arithmetic::div_mod::lemma_fundamental_div_mod(k, cols);
    assert(0 <= k % cols < cols);
    assert(0 <= k / cols < rows) by (nonlinear_arith)
        requires
            k == cols * (k / cols) + k % cols,
            0 <= k % cols < cols,
            0 <= k < rows * cols,
            1 <= cols,
    ;
}

/// The bounds that the encoder's scan finds are the ink edges, with 0 for both
/// when there is no ink.
proof fn lemma_edges(px: Seq<ColorIndex>, w: int, trim: int, found: bool, min_x: int, max_x: int)
    requires
        found <==> exists|j: int| 0 <= j < px.len() && #[trigger] is_ink(px, w, trim, j),
        found ==> exists|j: int|
            0 <= j < px.len() && #[trigger] is_ink(px, w, trim, j) && j % w == min_x,
        found ==> exists|j: int|
            0 <= j < px.len() && #[trigger] is_ink(px, w, trim, j) && j % w == max_x,
        forall|j: int|
            0 <= j < px.len() && #[trigger] is_ink(px, w, trim, j) ==> min_x <= j % w <= max_x,
        !found ==> min_x == w - 1 && max_x == 0,
        w >= 1,
    ensures
        (if min_x > max_x {
            0
        } else {
            min_x
        }) == left_edge(px, w, trim),
        (if min_x > max_x {
            0
        } else {
            max_x
        }) == right_edge(px, w, trim),
{
    if found {
        assert(has_ink(px, w, trim));
        assert(is_left_edge(px, w, trim, min_x));
        assert(is_right_edge(px, w, trim, max_x));
        let l = choose|c: int| is_left_edge(px, w, trim, c);
        let r = choose|c: int| is_right_edge(px, w, trim, c);
        let jl = choose|j: int| #[trigger] is_ink(px, w, trim, j) && j % w == l;
        let jr = choose|j: int| #[trigger] is_ink(px, w, trim, j) && j % w == r;
        let jmin = choose|j: int| 0 <= j < px.len() && #[trigger] is_ink(px, w, trim, j) && j % w == min_x;
        let jmax = choose|j: int| 0 <= j < px.len() && #[trigger] is_ink(px, w, trim, j) && j % w == max_x;
        assert(l == min_x);
        assert(r == max_x);
    } else {
        assert(!has_ink(px, w, trim));
    }
}

/// Encodes `image` from its `vertical_trim` row down: the header holds the
/// leftmost ink column (at most 7) and the width up to the rightmost; the cells
/// of those columns are read row by row into runs of up to 32, and trailing
/// `Empty` runs are dropped. `WidthOverflow` when that width does not fit 5 bits.
pub fn indexed_to_rle<const PIXELS: usize, const WIDTH: usize>(
    image: &IndexedImage<PIXELS, WIDTH>,
) -> (r: Result<OneByteRle, EncodeError>)
    requires
        image.wf(),
    ensures
        r matches Ok(e) ==> e.wf() && rle_encoding(
            image@,
            WIDTH as int,
            IndexedImage::<PIXELS, WIDTH>::rows(),
            image.vertical_trim as int,
        ) == Ok::<Seq<u8>, EncodeError>(e.bytes@),
        r matches Err(err) ==> rle_encoding(
            image@,
            WIDTH as int,
            IndexedImage::<PIXELS, WIDTH>::rows(),
            image.vertical_trim as int,
        ) == Err::<Seq<u8>, EncodeError>(err),
{
    let ghost px = image@;
    let ghost w = WIDTH as int;
    let min_y: u8 = image.vertical_trim;
    let ghost trim = min_y as int;
    let mut min_x: usize = WIDTH - 1;
    let mut max_x: usize = 0;
    let ghost mut found = false;
    let mut i: usize = 0;
    while i < PIXELS
        invariant
            image.wf(),
            px == image@,
            w == WIDTH,
            trim == image.vertical_trim,
            min_y == image.vertical_trim,
            i <= PIXELS,
            min_x < WIDTH,
            max_x < WIDTH,
            found <==> exists|j: int| 0 <= j < i && #[trigger] is_ink(px, w, trim, j),
            found ==> exists|j: int| 0 <= j < i && #[trigger] is_ink(px, w, trim, j) && j % w == min_x,
            found ==> exists|j: int| 0 <= j < i && #[trigger] is_ink(px, w, trim, j) && j % w == max_x,
            forall|j: int| 0 <= j < i && #[trigger] is_ink(px, w, trim, j) ==> min_x <= j % w <= max_x,
            !found ==> min_x == WIDTH - 1 && max_x == 0,
        decreases PIXELS - i,
    {
        proof {
            lemma_position_in_grid(PIXELS as int, WIDTH as int, i as int);
        }
        let x = i % WIDTH;
        let y = i / WIDTH;
        if y >= min_y as usize && image.pixels[i] != ColorIndex::Empty {
            assert(is_ink(px, w, trim, i as int));
            if x < min_x {
                min_x = x;
            }
            if x > max_x {
                max_x = x;
            }
            proof {
                found = true;
            }
        }
        i = i + 1;
    }
    proof {
        lemma_edges(px, w, trim, found, min_x as int, max_x as int);
    }
    if min_x > max_x {
        min_x = 0;
        max_x = 0;
    }
    assert(min_x == left_edge(px, w, trim) && max_x == right_edge(px, w, trim));
    let offset: usize = if min_x < (OFFSET_LIMIT - 1) as usize {
        min_x
    } else {
        (OFFSET_LIMIT - 1) as usize
    };
    let encode_width: usize = max_x - offset;
    if encode_width >= RUN_LENGTH_LIMIT as usize {
        return Err(EncodeError::WidthOverflow);
    }
    let h: usize = PIXELS / WIDTH;
    let cols: usize = encode_width + 1;
    let rows: usize = if (min_y as usize) < h {
        h - min_y as usize
    } else {
        0
    };
    assert(rows * cols <= 255 * 32) by (nonlinear_arith)
        requires
            rows <= 255,
            cols <= 32,
    ;
    let total: usize = rows * cols;
    let ghost cells = scan(px, w, h as int, trim, offset as int, encode_width as int);
    let mut runs: Vec<RunByte> = Vec::new();
    let mut k: usize = 0;
    assert(cells.take(0) =~= Seq::<ColorIndex>::empty());
    assert(runs_view(runs@) =~= Seq::<(ColorIndex, int)>::empty());
    while k < total
        invariant
            image.wf(),
            px == image@,
            w == WIDTH,
            trim == min_y,
            h == PIXELS / WIDTH,
            offset + encode_width < WIDTH,
            cols == encode_width + 1,
            rows == (if trim < h { h - trim } else { 0 }),
            total == rows * cols,
            cells == scan(px, w, h as int, trim, offset as int, encode_width as int),
            cells.len() == total,
            k <= total,
            runs_view(runs@) == accumulate_runs(cells.take(k as int)),
        decreases total - k,
    {
        proof {
            lemma_scan_cell(rows as int, cols as int, k as int);
            lemma_cell_in_grid(
                PIXELS as int,
                WIDTH as int,
                offset + k as int % cols as int,
                trim + k as int / cols as int,
            );
        }
        let x = offset + k % cols;
        let y = min_y as usize + k / cols;
        let p = image.pixels[y * WIDTH + x];
        assert(p == cells[k as int]);
        assert(cells.take(k as int + 1).drop_last() =~= cells.take(k as int));
        let n = runs.len();
        if n == 0 {
            runs.push(RunByte::new(p, 1));
        } else {
            let last_color = runs[n - 1].color();
            let last_length = runs[n - 1].run_length();
            if last_color == p && last_length < RUN_LENGTH_LIMIT {
                runs.set(n - 1, RunByte::new(p, last_length + 1));
            } else {
                runs.push(RunByte::new(p, 1));
            }
        }
        assert(runs_view(runs@) =~= accumulate_runs(cells.take(k as int + 1)));
        k = k + 1;
    }
    assert(cells.take(total as int) =~= cells);
    let ghost all_runs = runs_view(runs@);
    while runs.len() > 0 && runs[runs.len() - 1].color() == ColorIndex::Empty
        invariant
            drop_trailing_empty(runs_view(runs@)) == drop_trailing_empty(all_runs),
        decreases runs.len(),
    {
        let ghost before = runs@;
        let _ = runs.pop();
        assert(runs_view(runs@) =~= runs_view(before).drop_last());
    }
    let mut out = OneByteRle::new();
    out.push_header(offset as u8, encode_width as u8);
    out.append_pixel_runs(&runs);
    assert(run_bytes(runs@) =~= runs_view(runs@).map_values(
        |r: (ColorIndex, int)| run_byte(r.0, r.1) as u8,
    ));
    Ok(out)
}


/// Whether the `j`-th decoded pixel is written: always when overwriting, else
/// only when it is not `Empty`.
pub open spec fn writes_pixel(colors: Seq<ColorIndex>, overwrite: bool, j: int) -> bool {
    overwrite || colors[j] != ColorIndex::Empty
}

/// Every pixel before the stop point lies before the grid's last cell, and the
/// stop point, when it is not the end, does not.
proof fn lemma_before_stop(n: int, w: int, header: u8, trim: int, len: int, k: int)
    requires
        0 <= k <= len,
    ensures
        k <= decode_stop(n, w, header, trim, len, k) <= len,
        forall|j: int|
            k <= j < decode_stop(n, w, header, trim, len, k) ==> #[trigger] pixel_position(
                w,
                header,
                trim,
                j,
            ) < n - 1,
        decode_stop(n, w, header, trim, len, k) < len ==> pixel_position(
            w,
            header,
            trim,
            decode_stop(n, w, header, trim, len, k),
        ) >= n - 1,
    decreases len - k,
{
    if k < len && pixel_position(w, header, trim, k) < n - 1 {
        lemma_before_stop(n, w, header, trim, len, k + 1);
    }
}

/// Decoded positions are never negative.
proof fn lemma_position_nonneg(w: int, header: u8, trim: int, j: int)
    requires
        w >= 1,
        trim >= 0,
        j >= 0,
    ensures
        pixel_position(w, header, trim, j) >= 0,
{
    let rw = header % 32 + 1;
    vstd::arithmetic::div_mod::lemma_div_pos_is_pos(j, rw);
    let y = trim + j / rw;
    assert(y * w >= 0) by (nonlinear_arith)
        requires
            y >= 0,
            w >= 1,
    ;
}

/// A cell keeps its colour through the writes of decoded pixels `m1 .. m2`
/// when none of them lands on it.
proof fn lemma_writes_range(
    px: Seq<ColorIndex>,
    w: int,
    header: u8,
    trim: int,
    colors: Seq<ColorIndex>,
    overwrite: bool,
    m1: int,
    m2: int,
    p: int,
)
    requires
        0 <= m1 <= m2 <= colors.len(),
        forall|j: int|
            0 <= j < m2 ==> 0 <= #[trigger] pixel_position(w, header, trim, j) < px.len(),
        0 <= p < px.len(),
        forall|k: int| m1 <= k < m2 ==> #[trigger] pixel_position(w, header, trim, k) != p,
    ensures
        decode_writes(px, w, header, trim, colors, overwrite, m2)[p] == decode_writes(
            px,
            w,
            header,
            trim,
            colors,
            overwrite,
            m1,
        )[p],
    decreases m2 - m1,
{
    if m1 < m2 {
        lemma_writes_range(px, w, header, trim, colors, overwrite, m1, m2 - 1, p);
        lemma_writes_cell(px, w, header, trim, colors, overwrite, m2 - 1, p);
        assert(pixel_position(w, header, trim, m2 - 1) != p);
        assert(0 <= pixel_position(w, header, trim, m2 - 1) < px.len());
    }
}

/// The writes of the first `m` pixels read only the first `m` colours.
proof fn lemma_writes_prefix(
    px: Seq<ColorIndex>,
    w: int,
    header: u8,
    trim: int,
    c1: Seq<ColorIndex>,
    c2: Seq<ColorIndex>,
    overwrite: bool,
    m: int,
)
    requires
        0 <= m <= c1.len(),
        m <= c2.len(),
        forall|j: int| 0 <= j < m ==> c1[j] == c2[j],
    ensures
        decode_writes(px, w, header, trim, c1, overwrite, m) == decode_writes(
            px,
            w,
            header,
            trim,
            c2,
            overwrite,
            m,
        ),
    decreases m,
{
    if m > 0 {
        lemma_writes_prefix(px, w, header, trim, c1, c2, overwrite, m - 1);
    }
}

/// After the writes of the first `m` pixels, a cell that none of them wrote
/// keeps its colour, and a cell holds the colour of the last pixel written to it.
pub proof fn lemma_writes_cell(
    px: Seq<ColorIndex>,
    w: int,
    header: u8,
    trim: int,
    colors: Seq<ColorIndex>,
    overwrite: bool,
    m: int,
    p: int,
)
    requires
        0 <= m <= colors.len(),
        forall|j: int|
            0 <= j < m ==> 0 <= #[trigger] pixel_position(w, header, trim, j) < px.len(),
        0 <= p < px.len(),
    ensures
        decode_writes(px, w, header, trim, colors, overwrite, m).len() == px.len(),
        (forall|j: int|
            0 <= j < m && #[trigger] pixel_position(w, header, trim, j) == p ==> !writes_pixel(
                colors,
                overwrite,
                j,
            )) ==> decode_writes(px, w, header, trim, colors, overwrite, m)[p] == px[p],
        forall|j: int|
            0 <= j < m && #[trigger] pixel_position(w, header, trim, j) == p && writes_pixel(
                colors,
                overwrite,
                j,
            ) && (forall|j2: int|
                j < j2 < m && #[trigger] pixel_position(w, header, trim, j2) == p
                    ==> !writes_pixel(colors, overwrite, j2)) ==> decode_writes(
                px,
                w,
                header,
                trim,
                colors,
                overwrite,
                m,
            )[p] == colors[j],
    decreases m,
{
    if m > 0 {
        lemma_writes_cell(px, w, header, trim, colors, overwrite, m - 1, p);
        let q = pixel_position(w, header, trim, m - 1);
        assert(0 <= q < px.len());
    }
}

/// Decoding with `overwrite` false changes a cell only where a non-`Empty`
/// pixel lands: a cell that only `Empty` pixels (or none) land on keeps its
/// colour, and the last non-`Empty` pixel to land on a cell leaves its colour there.
pub proof fn lemma_merge_decode(px: Seq<ColorIndex>, n: int, w: int, bytes: Seq<u8>, trim: int)
    requires
        dims_valid(n, w),
        px.len() == n,
        bytes.len() > 0,
        0 <= trim,
    ensures
        ({
            let out = decode_outcome(px, n, w, bytes, trim, false).0;
            let colors = expand_runs(bytes.drop_first());
            let stop = decode_stop(n, w, bytes[0], trim, colors.len() as int, 0);
            &&& out.len() == n
            &&& forall|p: int|
                0 <= p < n && (forall|j: int|
                    0 <= j < stop && #[trigger] pixel_position(w, bytes[0], trim, j) == p
                        ==> colors[j] == ColorIndex::Empty) ==> out[p] == px[p]
            &&& forall|j: int|
                0 <= j < stop && colors[j] != ColorIndex::Empty && (forall|j2: int|
                    j < j2 < stop && #[trigger] pixel_position(w, bytes[0], trim, j2)
                        == pixel_position(w, bytes[0], trim, j) ==> colors[j2] == ColorIndex::Empty)
                    ==> out[pixel_position(w, bytes[0], trim, j)] == colors[j]
        }),
{
    let colors = expand_runs(bytes.drop_first());
    let header = bytes[0];
    let stop = decode_stop(n, w, header, trim, colors.len() as int, 0);
    lemma_before_stop(n, w, header, trim, colors.len() as int, 0);
    assert forall|j: int| 0 <= j < stop implies 0 <= #[trigger] pixel_position(w, header, trim, j) < px.len() by {
        lemma_position_nonneg(w, header, trim, j);
    }
    assert forall|p: int|
        0 <= p < n && (forall|j: int|
            0 <= j < stop && #[trigger] pixel_position(w, header, trim, j) == p ==> colors[j]
                == ColorIndex::Empty) implies decode_outcome(px, n, w, bytes, trim, false).0[p]
        == px[p] by {
        lemma_writes_cell(px, w, header, trim, colors, false, stop, p);
    }
    assert forall|j: int|
        0 <= j < stop && colors[j] != ColorIndex::Empty && (forall|j2: int|
            j < j2 < stop && #[trigger] pixel_position(w, header, trim, j2) == pixel_position(
                w,
                header,
                trim,
                j,
            ) ==> colors[j2] == ColorIndex::Empty) implies decode_outcome(
        px,
        n,
        w,
        bytes,
        trim,
        false,
    ).0[pixel_position(w, header, trim, j)] == colors[j] by {
        lemma_position_nonneg(w, header, trim, j);
        lemma_writes_cell(px, w, header, trim, colors, false, stop, pixel_position(w, header, trim, j));
    }
    lemma_writes_cell(px, w, header, trim, colors, false, stop, 0);
}

/// Decoding never writes the grid's last cell.
pub proof fn lemma_decode_keeps_last_cell(
    px: Seq<ColorIndex>,
    n: int,
    w: int,
    bytes: Seq<u8>,
    trim: int,
    overwrite: bool,
)
    requires
        dims_valid(n, w),
        px.len() == n,
        0 <= trim,
    ensures
        decode_outcome(px, n, w, bytes, trim, overwrite).0.len() == n,
        decode_outcome(px, n, w, bytes, trim, overwrite).0[n - 1] == px[n - 1],
{
    if bytes.len() > 0 {
        let colors = expand_runs(bytes.drop_first());
        let header = bytes[0];
        let stop = decode_stop(n, w, header, trim, colors.len() as int, 0);
        lemma_before_stop(n, w, header, trim, colors.len() as int, 0);
        assert forall|j: int| 0 <= j < stop implies 0 <= #[trigger] pixel_position(w, header, trim, j) < px.len() by {
            lemma_position_nonneg(w, header, trim, j);
        }
        lemma_writes_cell(px, w, header, trim, colors, overwrite, stop, n - 1);
    }
}

/// One more run byte after an encoding changes only the cells that its own
/// pixels land on: every cell the earlier bytes left is still there.
pub proof fn lemma_decode_extend(
    px: Seq<ColorIndex>,
    n: int,
    w: int,
    bytes: Seq<u8>,
    extra: u8,
    trim: int,
    overwrite: bool,
)
    requires
        dims_valid(n, w),
        px.len() == n,
        bytes.len() > 0,
        0 <= trim,
    ensures
        ({
            let before = decode_outcome(px, n, w, bytes, trim, overwrite).0;
            let after = decode_outcome(px, n, w, bytes.push(extra), trim, overwrite).0;
            let first = expand_runs(bytes.drop_first()).len() as int;
            let len = run_of_byte(extra).1;
            forall|p: int|
                0 <= p < n && (forall|k: int|
                    first <= k < first + len ==> #[trigger] pixel_position(w, bytes[0], trim, k)
                        != p) ==> after[p] == before[p]
        }),
{
    let header = bytes[0];
    let colors = expand_runs(bytes.drop_first());
    let more = bytes.push(extra);
    assert(more.drop_first() =~= bytes.drop_first() + seq![extra]);
    assert(more[0] == header);
    lemma_expand_append(bytes.drop_first(), seq![extra]);
    assert(seq![extra].drop_last() =~= Seq::<u8>::empty());
    assert(expand_runs(Seq::<u8>::empty()) =~= Seq::<ColorIndex>::empty());
    assert(expand_runs(seq![extra]).len() == run_of_byte(extra).1);
    let colors2 = expand_runs(more.drop_first());
    let first = colors.len() as int;
    let len = run_of_byte(extra).1;
    assert(colors2.len() == first + len);
    let stop = decode_stop(n, w, header, trim, first, 0);
    let stop2 = decode_stop(n, w, header, trim, first + len, 0);
    lemma_before_stop(n, w, header, trim, first, 0);
    lemma_before_stop(n, w, header, trim, first + len, 0);
    if stop < first {
        lemma_decode_stop(n, w, header, trim, first + len, 0, stop);
        lemma_writes_prefix(px, w, header, trim, colors, colors2, overwrite, stop);
    } else {
        assert(stop2 >= first);
        assert forall|j: int| 0 <= j < stop2 implies 0 <= #[trigger] pixel_position(w, header, trim, j) < px.len() by {
            lemma_position_nonneg(w, header, trim, j);
        }
        lemma_writes_prefix(px, w, header, trim, colors, colors2, overwrite, first);
        assert forall|p: int|
            0 <= p < n && (forall|k: int|
                first <= k < first + len ==> #[trigger] pixel_position(w, header, trim, k) != p)
                implies decode_writes(px, w, header, trim, colors2, overwrite, stop2)[p]
            == decode_writes(px, w, header, trim, colors2, overwrite, first)[p] by {
            lemma_writes_range(px, w, header, trim, colors2, overwrite, first, stop2, p);
        }
    }
}

/// A colour sequence with no colour but `Empty` encodes to runs of `Empty` only.
proof fn lemma_runs_of_blank(s: Seq<ColorIndex>)
    requires
        forall|i: int| 0 <= i < s.len() ==> s[i] == ColorIndex::Empty,
    ensures
        drop_trailing_empty(accumulate_runs(s)) == Seq::<(ColorIndex, int)>::empty(),
        forall|i: int|
            0 <= i < accumulate_runs(s).len() ==> (#[trigger] accumulate_runs(s)[i]).0
                == ColorIndex::Empty,
    decreases s.len(),
{
    if s.len() > 0 {
        lemma_runs_of_blank(s.drop_last());
    }
    lemma_drop_blank_runs(accumulate_runs(s));
}

/// Runs that are all `Empty` are dropped entirely.
proof fn lemma_drop_blank_runs(r: Seq<(ColorIndex, int)>)
    requires
        forall|i: int| 0 <= i < r.len() ==> (#[trigger] r[i]).0 == ColorIndex::Empty,
    ensures
        drop_trailing_empty(r) == Seq::<(ColorIndex, int)>::empty(),
    decreases r.len(),
{
    if r.len() > 0 {
        lemma_drop_blank_runs(r.drop_last());
    } else {
        assert(r =~= Seq::<(ColorIndex, int)>::empty());
    }
}

/// A grid with no colour at or after row `trim` encodes to the single header
/// byte 0: offset 0, width field 0 and no runs.
pub proof fn lemma_encode_blank(px: Seq<ColorIndex>, n: int, w: int, trim: int)
    requires
        dims_valid(n, w),
        px.len() == n,
        0 <= trim,
        forall|i: int| 0 <= i < n && i / w >= trim ==> px[i] == ColorIndex::Empty,
    ensures
        rle_encoding(px, w, n / w, trim) == Ok::<Seq<u8>, EncodeError>(seq![0u8]),
{
    assert(!has_ink(px, w, trim));
    let s = scan(px, w, n / w, trim, 0, 0);
    assert forall|k: int| 0 <= k < s.len() implies s[k] == ColorIndex::Empty by {
        let rows = if trim < n / w { n / w - trim } else { 0 };
        assert(k < rows);
        lemma_cell_in_grid(n, w, 0, trim + k);
    }
    lemma_runs_of_blank(s);
    let enc = rle_encoding(px, w, n / w, trim);
    assert(enc == Ok::<Seq<u8>, EncodeError>(seq![header_byte(0, 0) as u8] + Seq::<(ColorIndex, int)>::empty().map_values(
        |r: (ColorIndex, int)| run_byte(r.0, r.1) as u8,
    )));
    assert(seq![header_byte(0, 0) as u8] + Seq::<(ColorIndex, int)>::empty().map_values(
        |r: (ColorIndex, int)| run_byte(r.0, r.1) as u8,
    ) =~= seq![0u8]);
}

} // verus!
