use vstd::prelude::*;
use crate::color::Color;

verus! {

/// The mathematical content of an [`Image`]: its dimensions and its cells in
/// row-major order.
pub struct Canvas {
    pub width: nat,
    pub height: nat,
    pub cells: Seq<Color>,
}

impl Canvas {
    /// Both dimensions are positive and there is one cell per position.
    pub open spec fn wf(self) -> bool {
        &&& self.width > 0
        &&& self.height > 0
        &&& self.cells.len() == self.width * self.height
    }

    /// Whether `(col, row)` names a cell of the canvas.
    pub open spec fn contains(self, col: int, row: int) -> bool {
        0 <= col < self.width && 0 <= row < self.height
    }

    /// The position of cell `(col, row)` in `cells`.
    pub open spec fn offset(self, col: int, row: int) -> int {
        row * self.width + col
    }

    /// The colour of cell `(col, row)`.
    pub open spec fn at(self, col: int, row: int) -> Color
        recommends
            self.contains(col, row),
    {
        self.cells[self.offset(col, row)]
    }

    /// What a bounds-checked read of `(col, row)` gives.
    pub open spec fn get(self, col: int, row: int) -> Option<Color> {
        if self.contains(col, row) {
            Some(self.at(col, row))
        } else {
            None
        }
    }

    /// The canvas with cell `(col, row)` replaced by `color`.
    pub open spec fn put(self, col: int, row: int, color: Color) -> Canvas
        recommends
            self.contains(col, row),
    {
        Canvas { cells: self.cells.update(self.offset(col, row), color), ..self }
    }

    /// The canvas as an RGBA byte stream: four bytes per cell, cells in
    /// row-major order.
    pub open spec fn bytes(self) -> Seq<u8> {
        Seq::new(4 * self.cells.len(), |i: int| self.cells[i / 4].rgba()[i % 4])
    }
}

/// A rectangular grid of colours of fixed dimensions. Every image that
/// [`Image::new`] builds is a well-formed canvas, and stays one.
#[derive(Debug)]
pub struct Image {
    width: usize,
    height: usize,
    pixels: Vec<Color>,
}

impl View for Image {
    type V = Canvas;

    closed spec fn view(&self) -> Canvas {
        Canvas { width: self.width as nat, height: self.height as nat, cells: self.pixels@ }
    }
}

impl Image {
    /// An image of the given dimensions with every cell set to `default_color`.
    pub fn new(width: usize, height: usize, default_color: Color) -> (img: Image)
        requires
            width > 0,
            height > 0,
            width * height <= usize::MAX,
        ensures
            img@.wf(),
            img@.width == width,
            img@.height == height,
            forall|i: int| 0 <= i < img@.cells.len() ==> img@.cells[i] == default_color,
    {
        let n: usize = width * height;
        let mut pixels: Vec<Color> = Vec::new();
        let mut i: usize = 0;
        while i < n
            invariant
                i <= n,
                pixels@.len() == i,
                forall|k: int| 0 <= k < i ==> pixels@[k] == default_color,
            decreases n - i,
        {
            pixels.push(default_color);
            i += 1;
        }
        Image { width, height, pixels }
    }

    /// The number of columns. The cells of a well-formed image are as many
    /// as a `usize` can count.
    pub fn width(&self) -> (w: usize)
        ensures
            w == self@.width,
            self@.wf() ==> self@.width * self@.height <= usize::MAX,
    {
        assert(self.pixels@.len() == self.pixels.len());
        self.width
    }

    /// The number of rows. The cells of a well-formed image are as many as
    /// a `usize` can count.
    pub fn height(&self) -> (h: usize)
        ensures
            h == self@.height,
            self@.wf() ==> self@.width * self@.height <= usize::MAX,
    {
        assert(self.pixels@.len() == self.pixels.len());
        self.height
    }

    /// The colour at `(col, row)`, or `None` where either index is out of
    /// bounds.
    pub fn get_pixel(&self, col: usize, row: usize) -> (r: Option<Color>)
        requires
            self@.wf(),
        ensures
            r == self@.get(col as int, row as int),
    {
        if row < self.height && col < self.width {
            proof {
                lemma_offset_in_range(self@, col as int, row as int);
                assert(self.pixels@.len() == self.pixels.len());
            }
            Some(self.pixels[row * self.width + col])
        } else {
            None
        }
    }

    /// Replaces the colour at `(col, row)`; every other cell stays as it was.
    pub fn set_pixel(&mut self, col: usize, row: usize, color: Color)
        requires
            old(self)@.wf(),
            old(self)@.contains(col as int, row as int),
        ensures
            final(self)@ == old(self)@.put(col as int, row as int, color),
    {
        proof {
            lemma_offset_in_range(self@, col as int, row as int);
            assert(self.pixels@.len() == self.pixels.len());
        }
        let idx: usize = row * self.width + col;
        self.pixels.set(idx, color);
    }

    /// The image as RGBA bytes: four per cell, in row-major order, each cell
    /// with full opacity.
    pub fn to_rgba_bytes(&self) -> (bytes: Vec<u8>)
        ensures
            bytes@ == self@.bytes(),
    {
        let mut bytes: Vec<u8> = Vec::new();
        let n: usize = self.pixels.len();
        let mut i: usize = 0;
        while i < n
            invariant
                i <= n,
                n == self.pixels@.len(),
                bytes@.len() == 4 * i,
                forall|k: int| 0 <= k < 4 * i ==> bytes@[k] == self.pixels@[k / 4].rgba()[k % 4],
            decreases n - i,
        {
            let (r, g, b, a) = self.pixels[i].to_rgba();
            bytes.push(r);
            bytes.push(g);
            bytes.push(b);
            bytes.push(a);
            i += 1;
        }
        assert(bytes@ =~= self@.bytes());
        bytes
    }
}

/// A cell of a well-formed canvas has its offset inside `cells`.
pub proof fn lemma_offset_in_range(g: Canvas, col: int, row: int)
    requires
        g.cells.len() == g.width * g.height,
        g.contains(col, row),
    ensures
        0 <= row * g.width <= g.offset(col, row) < g.cells.len(),
{
    assert(row * g.width + col < g.width * g.height) by (nonlinear_arith)
        requires
            0 <= col < g.width,
            0 <= row < g.height,
    ;
    assert(0 <= row * g.width) by (nonlinear_arith)
        requires
            0 <= row,
            0 <= g.width,
    ;
}

/// Two cells of a canvas that share an offset are one cell.
pub proof fn lemma_offset_injective(g: Canvas, c1: int, r1: int, c2: int, r2: int)
    requires
        g.contains(c1, r1),
        g.contains(c2, r2),
        g.offset(c1, r1) == g.offset(c2, r2),
    ensures
        c1 == c2,
        r1 == r2,
{
    if r1 < r2 {
        assert(r2 * g.width >= r1 * g.width + g.width) by (nonlinear_arith)
            requires
                r1 + 1 <= r2,
                g.width >= 0,
        ;
    } else if r2 < r1 {
        assert(r1 * g.width >= r2 * g.width + g.width) by (nonlinear_arith)
            requires
                r2 + 1 <= r1,
                g.width >= 0,
        ;
    }
}

/// Writing a cell keeps the canvas well formed and its dimensions as they
/// were. A read of the written cell then gives the colour written, a read of
/// any other cell gives what it gave before, and a read outside the canvas
/// gives nothing, whatever was written.
pub proof fn lemma_get_after_put(g: Canvas, col: int, row: int, color: Color, c2: int, r2: int)
    requires
        g.wf(),
        g.contains(col, row),
    ensures
        g.put(col, row, color).wf(),
        g.put(col, row, color).width == g.width,
        g.put(col, row, color).height == g.height,
        g.put(col, row, color).get(col, row) == Some(color),
        (c2 != col || r2 != row) ==> g.put(col, row, color).get(c2, r2) == g.get(c2, r2),
        !g.contains(c2, r2) ==> g.put(col, row, color).get(c2, r2) == None::<Color>,
{
    lemma_offset_in_range(g, col, row);
    if g.contains(c2, r2) {
        lemma_offset_in_range(g, c2, r2);
        if c2 != col || r2 != row {
            if g.offset(c2, r2) == g.offset(col, row) {
                lemma_offset_injective(g, c2, r2, col, row);
            }
        }
    }
}

/// The byte stream of a canvas holds four bytes for each cell, and the four
/// at four times a cell's offset are its red, green and blue channels and
/// 255.
pub proof fn lemma_bytes_of_cell(g: Canvas, col: int, row: int)
    requires
        g.wf(),
        g.contains(col, row),
    ensures
        g.bytes().len() == g.width * g.height * 4,
        4 * g.offset(col, row) + 3 < g.bytes().len(),
        g.bytes()[4 * g.offset(col, row)] == g.at(col, row).red,
        g.bytes()[4 * g.offset(col, row) + 1] == g.at(col, row).green,
        g.bytes()[4 * g.offset(col, row) + 2] == g.at(col, row).blue,
        g.bytes()[4 * g.offset(col, row) + 3] == 255,
{
    lemma_offset_in_range(g, col, row);
}


} // verus!
