//! The indexed-colour grid that the codec reads and writes.

use vstd::prelude::*;
use vstd::arithmetic::div_mod::lemma_fundamental_div_mod_converse;
use vstd::arithmetic::div_mod::lemma_fundamental_div_mod;

verus! {

/// A 3-bit colour slot: one background value and seven palette entries.
#[derive(Debug, Clone, Copy, PartialEq, Eq, Structural)]
pub enum ColorIndex {
    Empty,
    Dark,
    Bright,
    Skin,
    ShirtAccent1,
    PantsAccent2,
    EyesAccent3,
    Accent4,
}

impl ColorIndex {
    /// The 3-bit code of a colour.
    pub open spec fn value(self) -> u8 {
        match self {
            ColorIndex::Empty => 0,
            ColorIndex::Dark => 1,
            ColorIndex::Bright => 2,
            ColorIndex::Skin => 3,
            ColorIndex::ShirtAccent1 => 4,
            ColorIndex::PantsAccent2 => 5,
            ColorIndex::EyesAccent3 => 6,
            ColorIndex::Accent4 => 7,
        }
    }

    /// The colour whose code is `v` (codes above 7 have no colour; they map to the last one).
    pub open spec fn from_value(v: u8) -> ColorIndex {
        if v == 0 {
            ColorIndex::Empty
        } else if v == 1 {
            ColorIndex::Dark
        } else if v == 2 {
            ColorIndex::Bright
        } else if v == 3 {
            ColorIndex::Skin
        } else if v == 4 {
            ColorIndex::ShirtAccent1
        } else if v == 5 {
            ColorIndex::PantsAccent2
        } else if v == 6 {
            ColorIndex::EyesAccent3
        } else {
            ColorIndex::Accent4
        }
    }

    /// The 3-bit code of this colour.
    pub fn as_u8(self) -> (r: u8)
        ensures
            r == self.value(),
            r <= 7,
    {
        match self {
            ColorIndex::Empty => 0,
            ColorIndex::Dark => 1,
            ColorIndex::Bright => 2,
            ColorIndex::Skin => 3,
            ColorIndex::ShirtAccent1 => 4,
            ColorIndex::PantsAccent2 => 5,
            ColorIndex::EyesAccent3 => 6,
            ColorIndex::Accent4 => 7,
        }
    }

    /// The colour with code `v`, or `None` when `v` is not a 3-bit code.
    pub fn from_integer(v: u8) -> (r: Option<ColorIndex>)
        ensures
            v <= 7 ==> r == Some(ColorIndex::from_value(v)),
            v > 7 ==> r is None,
    {
        match v {
            0 => Some(ColorIndex::Empty),
            1 => Some(ColorIndex::Dark),
            2 => Some(ColorIndex::Bright),
            3 => Some(ColorIndex::Skin),
            4 => Some(ColorIndex::ShirtAccent1),
            5 => Some(ColorIndex::PantsAccent2),
            6 => Some(ColorIndex::EyesAccent3),
            7 => Some(ColorIndex::Accent4),
            _ => None,
        }
    }
}

/// Every colour is recovered from its code, and every 3-bit code from its colour.
pub proof fn lemma_color_code_round_trip(c: ColorIndex, v: u8)
    ensures
        ColorIndex::from_value(c.value()) == c,
        c.value() <= 7,
        v <= 7 ==> ColorIndex::from_value(v).value() == v,
{
}

impl Default for ColorIndex {
    fn default() -> (r: ColorIndex)
        ensures
            r == ColorIndex::Empty,
    {
        ColorIndex::Empty
    }
}


/// Whether `n` cells in rows of `w` make a grid this library can hold: both sides
/// between 1 and 255 and no partial row.
pub open spec fn dims_valid(n: int, w: int) -> bool {
    1 <= w <= 255 && n % w == 0 && 1 <= n / w <= 255
}

/// The flat position of column `x` in row `y` of a grid whose rows hold `w` cells.
pub open spec fn flat_index(w: int, x: int, y: int) -> int {
    y * w + x
}

/// A cell `(x, y)` inside a valid grid has a flat position inside the grid, and the
/// position gives back the column and the row.
pub proof fn lemma_cell_in_grid(n: int, w: int, x: int, y: int)
    requires
        dims_valid(n, w),
        0 <= x < w,
        0 <= y < n / w,
    ensures
        0 <= flat_index(w, x, y) < n,
        flat_index(w, x, y) / w == y,
        flat_index(w, x, y) % w == x,
        y * w <= 255 * 255,
{
    let h = n / w;
    lemma_fundamental_div_mod(n, w);
    assert(n == w * h);
    assert(y * w + x < n) by (nonlinear_arith)
        requires
            n == w * h,
            0 <= x < w,
            0 <= y < h,
    ;
    assert(0 <= y * w) by (nonlinear_arith)
        requires
            0 <= y,
            0 <= w,
    ;
    assert(y * w <= 255 * 255) by (nonlinear_arith)
        requires
            0 <= y < 255,
            0 <= w <= 255,
    ;
    lemma_fundamental_div_mod_converse(y * w + x, w, y, x);
}

/// A flat position inside a valid grid names the cell `(p % w, p / w)`.
pub proof fn lemma_position_in_grid(n: int, w: int, p: int)
    requires
        dims_valid(n, w),
        0 <= p < n,
    ensures
        0 <= p % w < w,
        0 <= p / w < n / w,
        flat_index(w, p % w, p / w) == p,
{
    lemma_fundamental_div_mod(p, w);
    lemma_fundamental_div_mod(n, w);
    let h = n / w;
    let q = p / w;
    let r = p % w;
    assert(0 <= r < w);
    assert(p == w * q + r);
    assert(n == w * h);
    assert(0 <= q < h) by (nonlinear_arith)
        requires
            p == w * q + r,
            n == w * h,
            0 <= r < w,
            0 <= p < n,
            1 <= w,
    ;
    assert(q * w == w * q) by (nonlinear_arith);
}

/// The cells of a `w`-wide, `h`-tall grid `px` moved by `(dx, dy)`: each cell takes
/// the old value at `(x - dx, y - dy)`, or `Empty` where that lies outside the grid.
pub open spec fn shifted(px: Seq<ColorIndex>, w: int, h: int, dx: int, dy: int) -> Seq<ColorIndex> {
    Seq::new(
        px.len(),
        |i: int|
            {
                let sx = i % w - dx;
                let sy = i / w - dy;
                if 0 <= sx < w && 0 <= sy < h {
                    px[flat_index(w, sx, sy)]
                } else {
                    ColorIndex::Empty
                }
            },
    )
}

/// Moving a grid by at least its width sideways, or by at least its height up or
/// down, leaves every cell `Empty`.
pub proof fn lemma_shift_off_grid(px: Seq<ColorIndex>, n: int, w: int, dx: int, dy: int)
    requires
        dims_valid(n, w),
        px.len() == n,
        dx >= w || dx <= -w || dy >= n / w || dy <= -(n / w),
    ensures
        forall|i: int| 0 <= i < n ==> #[trigger] shifted(px, w, n / w, dx, dy)[i] == ColorIndex::Empty,
{
    assert forall|i: int| 0 <= i < n implies #[trigger] shifted(px, w, n / w, dx, dy)[i] == ColorIndex::Empty by {
        lemma_position_in_grid(n, w, i);
    }
}

/// What goes wrong when a grid is built or addressed.
#[derive(Debug, Clone, Copy, PartialEq, Eq, Structural)]
pub enum ImageError {
    /// The grid's sides do not fit its cell count (or lie outside 1..=255).
    Configuration,
    /// A cell outside the grid was addressed.
    OutOfBounds,
}

/// A grid of `N` colour cells in rows of `W`; it has `N / W` rows.
#[derive(Clone, Copy)]
pub struct IndexedImage<const N: usize, const W: usize> {
    /// Number of leading rows that the encoder leaves out.
    pub vertical_trim: u8,
    /// The cells in row-major order.
    pub pixels: [ColorIndex; N],
}

impl<const N: usize, const W: usize> View for IndexedImage<N, W> {
    type V = Seq<ColorIndex>;

    open spec fn view(&self) -> Seq<ColorIndex> {
        self.pixels@
    }
}

impl<const N: usize, const W: usize> IndexedImage<N, W> {
    /// The grid's shape is valid and it holds exactly `N` cells.
    pub open spec fn wf(&self) -> bool {
        dims_valid(N as int, W as int) && self@.len() == N
    }

    /// The number of rows.
    pub open spec fn rows() -> int {
        N as int / W as int
    }

    /// The colour at column `x`, row `y`.
    pub open spec fn pixel(&self, x: int, y: int) -> ColorIndex {
        self@[flat_index(W as int, x, y)]
    }

    /// An all-`Empty` grid.
    pub(crate) fn blank() -> (r: Self)
        requires
            dims_valid(N as int, W as int),
        ensures
            r.wf(),
            r.vertical_trim == 0,
            forall|i: int| 0 <= i < N ==> r@[i] == ColorIndex::Empty,
    {
        broadcast use vstd::array::group_array_axioms;

        IndexedImage { vertical_trim: 0, pixels: [ColorIndex::Empty; N] }
    }

    /// An all-`Empty` grid of `H` rows; refused unless `W * H == N` with both
    /// sides in 1..=255.
    pub fn new<const H: usize>() -> (r: Result<Self, ImageError>)
        ensures
            r is Ok <==> (W * H == N && 1 <= W <= 255 && 1 <= H <= 255),
            r is Err ==> r == Err::<Self, ImageError>(ImageError::Configuration),
            r matches Ok(img) ==> {
                &&& img.wf()
                &&& Self::rows() == H
                &&& img.vertical_trim == 0
                &&& forall|i: int| 0 <= i < N ==> img@[i] == ColorIndex::Empty
            },
    {
        if W < 1 || W > 255 || H < 1 || H > 255 {
            return Err(ImageError::Configuration);
        }
        assert(W * H <= 255 * 255) by (nonlinear_arith)
            requires
                W <= 255,
                H <= 255,
        ;
        if W * H != N {
            return Err(ImageError::Configuration);
        }
        proof {
            lemma_fundamental_div_mod_converse(N as int, W as int, H as int, 0);
        }
        Ok(Self::blank())
    }

    /// Columns and rows, as bytes.
    pub fn resolution(&self) -> (r: (u8, u8))
        requires
            self.wf(),
        ensures
            r.0 == W,
            r.1 == Self::rows(),
    {
        (W as u8, (N / W) as u8)
    }

    /// The colour at flat position `i`.
    pub fn get_at(&self, i: usize) -> (r: ColorIndex)
        requires
            self.wf(),
            i < N,
        ensures
            r == self@[i as int],
    {
        self.pixels[i]
    }

    /// Writes `color` at flat position `i`.
    pub fn set_at(&mut self, i: usize, color: ColorIndex)
        requires
            old(self).wf(),
            i < N,
        ensures
            final(self).wf(),
            final(self).vertical_trim == old(self).vertical_trim,
            final(self)@ == old(self)@.update(i as int, color),
    {
        self.pixels[i] = color;
    }

    /// The colour at column `x`, row `y`; `OutOfBounds` outside the grid.
    pub fn get(&self, x: usize, y: usize) -> (r: Result<ColorIndex, ImageError>)
        requires
            self.wf(),
        ensures
            r is Ok <==> (x < W && y < Self::rows()),
            r is Err ==> r == Err::<ColorIndex, ImageError>(ImageError::OutOfBounds),
            r matches Ok(c) ==> c == self.pixel(x as int, y as int),
    {
        if x >= W || y >= N / W {
            return Err(ImageError::OutOfBounds);
        }
        proof {
            lemma_cell_in_grid(N as int, W as int, x as int, y as int);
        }
        Ok(self.pixels[y * W + x])
    }

    /// Writes `color` at column `x`, row `y`; `OutOfBounds` (and no change)
    /// outside the grid.
    pub fn set(&mut self, x: usize, y: usize, color: ColorIndex) -> (r: Result<(), ImageError>)
        requires
            old(self).wf(),
        ensures
            final(self).wf(),
            final(self).vertical_trim == old(self).vertical_trim,
            r is Ok <==> (x < W && y < Self::rows()),
            r is Ok ==> final(self)@ == old(self)@.update(flat_index(W as int, x as int, y as int), color),
            r is Err ==> r == Err::<(), ImageError>(ImageError::OutOfBounds) && final(self)@ == old(self)@,
    {
        if x >= W || y >= N / W {
            return Err(ImageError::OutOfBounds);
        }
        proof {
            lemma_cell_in_grid(N as int, W as int, x as int, y as int);
        }
        self.pixels[y * W + x] = color;
        Ok(())
    }

    /// Moves every cell by `(x_offset, y_offset)`; cells moved off the grid are
    /// dropped and the uncovered ones become `Empty`.
    pub fn shift(&mut self, x_offset: i32, y_offset: i32)
        requires
            old(self).wf(),
        ensures
            final(self).wf(),
            final(self).vertical_trim == old(self).vertical_trim,
            final(self)@ == shifted(
                old(self)@,
                W as int,
                Self::rows(),
                x_offset as int,
                y_offset as int,
            ),
    {
        let sampler: [ColorIndex; N] = self.pixels;
        let w: i64 = W as i64;
        let h: i64 = (N / W) as i64;
        let mut i: usize = 0;
        while i < N
            invariant
                self.wf(),
                dims_valid(N as int, W as int),
                self.vertical_trim == old(self).vertical_trim,
                sampler@ == old(self)@,
                w == W,
                h == Self::rows(),
                i <= N,
                forall|j: int|
                    0 <= j < i ==> self@[j] == shifted(
                        old(self)@,
                        W as int,
                        Self::rows(),
                        x_offset as int,
                        y_offset as int,
                    )[j],
                forall|j: int| i <= j < N ==> self@[j] == old(self)@[j],
            decreases N - i,
        {
            proof {
                lemma_position_in_grid(N as int, W as int, i as int);
            }
            let sx: i64 = (i % W) as i64 - x_offset as i64;
            let sy: i64 = (i / W) as i64 - y_offset as i64;
            let c = if 0 <= sx && sx < w && 0 <= sy && sy < h {
                proof {
                    lemma_cell_in_grid(N as int, W as int, sx as int, sy as int);
                }
                sampler[(sy as usize) * W + sx as usize]
            } else {
                ColorIndex::Empty
            };
            self.pixels[i] = c;
            i = i + 1;
        }
        assert(self@ =~= shifted(old(self)@, W as int, Self::rows(), x_offset as int, y_offset as int));
    }

    /// A walk over the cells in row-major order (row outer, column inner), each
    /// handed out as column, row and colour.
    pub fn enumerate_pixels(&self) -> (r: EnumerateIndexedImage<'_, N, W>)
        requires
            self.wf(),
        ensures
            r.wf(),
            r.source() == *self,
            r.position() == 0,
    {
        EnumerateIndexedImage { image: self, x: 0, y: 0 }
    }

    /// A walk over the cells in row-major order that hands out each cell's
    /// column, row and flat position, to be written through `set_at`.
    pub fn enumerate_pixels_mut(&self) -> (r: EnumerateIndexedImageMut<N, W>)
        requires
            self.wf(),
        ensures
            r.wf(),
            r.position() == 0,
    {
        EnumerateIndexedImageMut { x: 0, y: 0 }
    }
}

/// The cursor `(x, y)` moved one cell on in row-major order stays a valid cursor
/// and its position grows by one.
proof fn lemma_cursor_step(n: int, w: int, x: int, y: int)
    requires
        dims_valid(n, w),
        0 <= x < w,
        0 <= y < n / w,
    ensures
        x + 1 == w ==> flat_index(w, 0, y + 1) == flat_index(w, x, y) + 1,
        x + 1 == w ==> y + 1 <= n / w,
        y + 1 <= 255,
{
    assert((y + 1) * w == y * w + w) by (nonlinear_arith);
}

/// A cursor at `y == n / w`, `x == 0` stands past the last cell.
proof fn lemma_cursor_end(n: int, w: int)
    requires
        dims_valid(n, w),
    ensures
        flat_index(w, 0, n / w) == n,
{
    lemma_fundamental_div_mod(n, w);
    assert((n / w) * w == w * (n / w)) by (nonlinear_arith);
}

/// A cursor before the last row stands before position `n`.
proof fn lemma_cursor_bound(n: int, w: int, x: int, y: int)
    requires
        dims_valid(n, w),
        0 <= x < w,
        0 <= y <= n / w,
        y == n / w ==> x == 0,
    ensures
        0 <= flat_index(w, x, y) <= n,
{
    if y < n / w {
        lemma_cell_in_grid(n, w, x, y);
    } else {
        lemma_cursor_end(n, w);
    }
}

/// Row-major walk over the cells of one grid.
pub struct EnumerateIndexedImage<'a, const N: usize, const W: usize> {
    image: &'a IndexedImage<N, W>,
    x: u8,
    y: u8,
}

impl<'a, const N: usize, const W: usize> EnumerateIndexedImage<'a, N, W> {
    /// How many cells have been handed out.
    pub closed spec fn position(&self) -> int {
        flat_index(W as int, self.x as int, self.y as int)
    }

    /// The grid being walked.
    pub closed spec fn source(&self) -> IndexedImage<N, W> {
        *self.image
    }

    /// The cursor stands on a cell or just past the last one.
    pub closed spec fn wf(&self) -> bool {
        &&& self.image.wf()
        &&& self.x < W
        &&& self.y <= N / W
        &&& self.y == N / W ==> self.x == 0
    }

    /// The next cell as column, row and colour, or `None` once every cell has
    /// been handed out.
    pub fn next(&mut self) -> (r: Option<(u8, u8, ColorIndex)>)
        requires
            old(self).wf(),
        ensures
            final(self).wf(),
            final(self).source() == old(self).source(),
            0 <= old(self).position() <= N,
            old(self).position() < N ==> {
                let p = old(self).position();
                &&& r == Some(
                    ((p % W as int) as u8, (p / W as int) as u8, old(self).source()@[p]),
                )
                &&& final(self).position() == p + 1
            },
            old(self).position() == N ==> r is None && final(self).position() == N,
    {
        proof {
            lemma_cursor_bound(N as int, W as int, self.x as int, self.y as int);
        }
        if (self.y as usize) >= N / W {
            proof {
                lemma_cursor_end(N as int, W as int);
            }
            return None;
        }
        let x = self.x;
        let y = self.y;
        proof {
            lemma_cell_in_grid(N as int, W as int, x as int, y as int);
            lemma_cursor_step(N as int, W as int, x as int, y as int);
        }
        let c = self.image.pixels[(y as usize) * W + x as usize];
        if (x as usize) + 1 == W {
            self.x = 0;
            self.y = y + 1;
        } else {
            self.x = x + 1;
        }
        Some((x, y, c))
    }
}

/// Row-major walk over the cell positions of an `N`-cell grid in rows of `W`;
/// the caller writes each cell through the grid's `set_at`.
pub struct EnumerateIndexedImageMut<const N: usize, const W: usize> {
    x: u8,
    y: u8,
}

impl<const N: usize, const W: usize> EnumerateIndexedImageMut<N, W> {
    /// How many positions have been handed out.
    pub closed spec fn position(&self) -> int {
        flat_index(W as int, self.x as int, self.y as int)
    }

    /// The shape is valid and the cursor stands on a cell or just past the last one.
    pub closed spec fn wf(&self) -> bool {
        &&& dims_valid(N as int, W as int)
        &&& self.x < W
        &&& self.y <= N / W
        &&& self.y == N / W ==> self.x == 0
    }

    /// The next cell as column, row and flat position, or `None` once every
    /// cell has been handed out.
    pub fn next(&mut self) -> (r: Option<(u8, u8, usize)>)
        requires
            old(self).wf(),
        ensures
            final(self).wf(),
            0 <= old(self).position() <= N,
            old(self).position() < N ==> {
                let p = old(self).position();
                &&& r == Some(((p % W as int) as u8, (p / W as int) as u8, p as usize))
                &&& final(self).position() == p + 1
            },
            old(self).position() == N ==> r is None && final(self).position() == N,
    {
        proof {
            lemma_cursor_bound(N as int, W as int, self.x as int, self.y as int);
        }
        if (self.y as usize) >= N / W {
            proof {
                lemma_cursor_end(N as int, W as int);
            }
            return None;
        }
        let x = self.x;
        let y = self.y;
        proof {
            lemma_cell_in_grid(N as int, W as int, x as int, y as int);
            lemma_cursor_step(N as int, W as int, x as int, y as int);
        }
        let i = (y as usize) * W + x as usize;
        if (x as usize) + 1 == W {
            self.x = 0;
            self.y = y + 1;
        } else {
            self.x = x + 1;
        }
        Some((x, y, i))
    }
}

/// A red, green, blue triple.
#[derive(Debug, Clone, Copy)]
pub struct Rgb<T>(pub [T; 3]);

/// The seven colours that the non-`Empty` colour slots stand for.
pub struct Palette<T> {
    contents: [Rgb<T>; 7],
}

impl<T> View for Palette<T> {
    type V = Seq<Rgb<T>>;

    /// The colours of slots `Dark` to `Accent4`.
    closed spec fn view(&self) -> Seq<Rgb<T>> {
        self.contents@
    }
}

impl<T> Palette<T> {
    /// The colour that slot `index` stands for; `Empty` has none.
    pub fn index(&self, index: ColorIndex) -> (r: &Rgb<T>)
        requires
            index != ColorIndex::Empty,
        ensures
            *r == self@[index.value() - 1],
    {
        &self.contents[(index.as_u8() - 1) as usize]
    }
}

impl Default for Palette<u8> {
    fn default() -> (r: Self)
        ensures
            r@ == Palette::<u8>::default_colors(),
    {
        let r = Palette {
            contents: [
                Rgb([0, 0, 0]),
                Rgb([255, 255, 255]),
                Rgb([204, 164, 153]),
                Rgb([255, 165, 96]),
                Rgb([101, 107, 255]),
                Rgb([173, 101, 255]),
                Rgb([62, 24, 24]),
            ],
        };
        assert(r@ =~= Palette::<u8>::default_colors());
        r
    }
}

/// Eight palettes to pick from.
pub struct PaletteCollection<T> {
    palettes: [Palette<T>; 8],
}

impl<T> View for PaletteCollection<T> {
    type V = Seq<Palette<T>>;

    closed spec fn view(&self) -> Seq<Palette<T>> {
        self.palettes@
    }
}

impl<T> PaletteCollection<T> {
    /// Palette number `index`.
    pub fn index(&self, index: u8) -> (r: &Palette<T>)
        requires
            index < 8,
        ensures
            *r == self@[index as int],
    {
        &self.palettes[index as usize]
    }

    /// Palette number `index`, to change in place.
    pub fn index_mut(&mut self, index: u8) -> (r: &mut Palette<T>)
        requires
            index < 8,
        ensures
            *r == old(self)@[index as int],
            final(self)@ == old(self)@.update(index as int, *final(r)),
    {
        &mut self.palettes[index as usize]
    }
}

impl Default for PaletteCollection<u8> {
    fn default() -> (r: Self)
        ensures
            forall|i: int| 0 <= i < 8 ==> #[trigger] r@[i]@ == Palette::<u8>::default_colors(),
    {
        let r = PaletteCollection {
            palettes: [
                Palette::default(),
                Palette::default(),
                Palette::default(),
                Palette::default(),
                Palette::default(),
                Palette::default(),
                Palette::default(),
                Palette::default(),
            ],
        };
        r
    }
}

impl Palette<u8> {
    /// The colours of the default palette.
    pub open spec fn default_colors() -> Seq<Rgb<u8>> {
        seq![
            Rgb([0u8, 0, 0]),
            Rgb([255u8, 255, 255]),
            Rgb([204u8, 164, 153]),
            Rgb([255u8, 165, 96]),
            Rgb([101u8, 107, 255]),
            Rgb([173u8, 101, 255]),
            Rgb([62u8, 24, 24]),
        ]
    }
}

} // verus!
