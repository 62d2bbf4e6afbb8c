//! Pictures, alpha masks and rectangles.
use vstd::prelude::*;

verus! {

/// One pixel, as three bytes in the order blue, green, red.
#[derive(Clone, Copy, Debug, PartialEq, Eq, Structural)]
pub struct Pixel {
    pub b: u8,
    pub g: u8,
    pub r: u8,
}

/// A rectangle on a picture, by its top left corner.
#[derive(Clone, Copy, Debug, PartialEq, Eq, Structural)]
pub struct Rect {
    pub x: i32,
    pub y: i32,
    pub width: i32,
    pub height: i32,
}

/// A picture, row by row. Of a picture that is not stored as three bytes a
/// pixel only the size is known, and every read of it fails.
#[derive(Clone, Debug, PartialEq, Eq)]
pub struct Picture {
    pub rows: i32,
    pub cols: i32,
    pub pixels: Option<Vec<Pixel>>,
}

/// How opaque each pixel of a picture is, row by row. Of a mask that is not
/// stored as one byte a pixel only the size is known, and every read of it fails.
#[derive(Clone, Debug, PartialEq, Eq)]
pub struct Mask {
    pub rows: i32,
    pub cols: i32,
    pub alpha: Option<Vec<u8>>,
}

/// Whether a cell lies on a grid.
pub open spec fn on_grid(rows: int, cols: int, r: int, c: int) -> bool {
    0 <= r < rows && 0 <= c < cols
}

/// The place of a cell in the row by row order.
pub open spec fn cell(cols: int, r: int, c: int) -> int {
    r * cols + c
}

/// A cell on the grid has a place of its own below the number of cells.
pub proof fn lemma_cell(rows: int, cols: int, r: int, c: int)
    requires
        on_grid(rows, cols, r, c),
    ensures
        0 <= cell(cols, r, c) < rows * cols,
        cell(cols, r, c) / cols == r,
        cell(cols, r, c) % cols == c,
{
    assert(0 <= r * cols + c < rows * cols) by (nonlinear_arith)
        requires
            0 <= r < rows,
            0 <= c < cols,
    ;
    vstd::arithmetic::div_mod::lemma_fundamental_div_mod_converse(r * cols + c, cols, r, c);
}

/// Different cells have different places.
pub proof fn lemma_cells_differ(cols: int, r: int, c: int, s: int, d: int)
    requires
        0 <= c < cols,
        0 <= d < cols,
        r != s || c != d,
    ensures
        cell(cols, r, c) != cell(cols, s, d),
{
    if cell(cols, r, c) == cell(cols, s, d) {
        vstd::arithmetic::div_mod::lemma_fundamental_div_mod_converse(r * cols + c, cols, r, c);
        vstd::arithmetic::div_mod::lemma_fundamental_div_mod_converse(s * cols + d, cols, s, d);
    }
}

/// The place of a cell on a grid whose cells are all held in memory.
pub(crate) fn place(rows: i32, cols: i32, r: i32, c: i32, len: usize) -> (i: usize)
    requires
        on_grid(rows as int, cols as int, r as int, c as int),
        len == rows * cols,
    ensures
        i == cell(cols as int, r as int, c as int),
        i < len,
{
    proof {
        lemma_cell(rows as int, cols as int, r as int, c as int);
        assert(r * cols <= r * cols + c);
        assert(0 <= r * cols) by (nonlinear_arith)
            requires
                r >= 0,
                cols >= 0,
        ;
        assert(r <= r * cols) by (nonlinear_arith)
            requires
                r >= 0,
                cols >= 1,
        ;
        assert(cols <= rows * cols) by (nonlinear_arith)
            requires
                rows >= 1,
                cols >= 1,
        ;
    }
    r as usize * cols as usize + c as usize
}

/// A picture with its pixels as a sequence.
pub struct Grid {
    pub rows: int,
    pub cols: int,
    pub pixels: Option<Seq<Pixel>>,
}

impl View for Picture {
    type V = Grid;

    open spec fn view(&self) -> Grid {
        Grid {
            rows: self.rows as int,
            cols: self.cols as int,
            pixels: match self.pixels {
                Some(pixels) => Some(pixels@),
                None => None,
            },
        }
    }
}

impl Grid {
    /// Every cell has a pixel, if any has.
    pub open spec fn wf(self) -> bool {
        &&& self.rows >= 0
        &&& self.cols >= 0
        &&& self.pixels is Some ==> self.pixels->0.len() == self.rows * self.cols
    }

    /// Whether the pixels can be read.
    pub open spec fn readable(self) -> bool {
        self.pixels is Some
    }

    /// The pixel in row `r` and column `c`.
    pub open spec fn at(self, r: int, c: int) -> Option<Pixel> {
        if self.pixels is Some && on_grid(self.rows, self.cols, r, c) {
            Some(self.pixels->0[cell(self.cols, r, c)])
        } else {
            None
        }
    }

    /// The picture in which the pixel `p` in row `r` and column `c` has become
    /// `f(r, c, p)`.
    pub open spec fn repainted(self, f: spec_fn(int, int, Pixel) -> Pixel) -> Grid {
        Grid {
            rows: self.rows,
            cols: self.cols,
            pixels: match self.pixels {
                Some(pixels) => Some(
                    Seq::new(
                        pixels.len(),
                        |i: int| f(i / self.cols, i % self.cols, pixels[i]),
                    ),
                ),
                None => None,
            },
        }
    }
}

/// What a repainted picture shows in each cell.
pub proof fn lemma_repainted(g: Grid, f: spec_fn(int, int, Pixel) -> Pixel)
    requires
        g.wf(),
    ensures
        g.repainted(f).wf(),
        forall|r: int, c: int|
            #![trigger g.repainted(f).at(r, c)]
            g.repainted(f).at(r, c) == (match g.at(r, c) {
                Some(p) => Some(f(r, c, p)),
                None => None,
            }),
{
    assert forall|r: int, c: int|
        #![trigger g.repainted(f).at(r, c)]
        g.repainted(f).at(r, c) == (match g.at(r, c) {
            Some(p) => Some(f(r, c, p)),
            None => None,
        }) by {
        if on_grid(g.rows, g.cols, r, c) {
            lemma_cell(g.rows, g.cols, r, c);
        }
    }
}

/// Two pictures of one size that show the same in each cell are the same.
pub proof fn lemma_same_grid(a: Grid, b: Grid)
    requires
        a.wf(),
        b.wf(),
        a.rows == b.rows,
        a.cols == b.cols,
        a.readable() == b.readable(),
        forall|r: int, c: int| on_grid(a.rows, a.cols, r, c) ==> #[trigger] a.at(r, c) == b.at(r, c),
    ensures
        a == b,
{
    if a.readable() {
        let p = a.pixels->0;
        let q = b.pixels->0;
        assert forall|i: int| 0 <= i < p.len() implies p[i] == q[i] by {
            let r = i / a.cols;
            let c = i % a.cols;
            assert(a.cols > 0) by (nonlinear_arith)
                requires
                    0 <= i < a.rows * a.cols,
                    a.cols >= 0,
            ;
            vstd::arithmetic::div_mod::lemma_fundamental_div_mod(i, a.cols);
            assert(0 <= r < a.rows) by (nonlinear_arith)
                requires
                    0 <= i < a.rows * a.cols,
                    a.cols > 0,
                    i == a.cols * r + c,
                    0 <= c < a.cols,
            ;
            assert(cell(a.cols, r, c) == i) by (nonlinear_arith)
                requires
                    i == a.cols * r + c,
                    cell(a.cols, r, c) == r * a.cols + c,
            ;
            assert(on_grid(a.rows, a.cols, r, c));
            assert(a.at(r, c) == b.at(r, c));
        }
        assert(p =~= q);
    }
}

impl Picture {
    /// Every cell of the grid has a pixel, if any has.
    pub open spec fn wf(&self) -> bool {
        self@.wf()
    }

    /// Whether the pixels can be read.
    pub open spec fn readable(&self) -> bool {
        self@.readable()
    }

    /// The pixel in row `r` and column `c`.
    pub open spec fn at(&self, r: int, c: int) -> Option<Pixel> {
        self@.at(r, c)
    }

    /// The pixel in row `r` and column `c`.
    pub fn pixel(&self, r: i32, c: i32) -> (p: Option<Pixel>)
        requires
            self.wf(),
        ensures
            p == self.at(r as int, c as int),
    {
        if r < 0 || r >= self.rows || c < 0 || c >= self.cols {
            return None;
        }
        match &self.pixels {
            Some(pixels) => {
                let i: usize = place(self.rows, self.cols, r, c, pixels.len());
                Some(pixels[i])
            },
            None => None,
        }
    }

    /// Puts a pixel into row `r` and column `c`; `false` where there is none to replace.
    pub fn set_pixel(&mut self, r: i32, c: i32, p: Pixel) -> (done: bool)
        requires
            old(self).wf(),
        ensures
            final(self).wf(),
            final(self).rows == old(self).rows,
            final(self).cols == old(self).cols,
            final(self).readable() == old(self).readable(),
            done == (old(self).at(r as int, c as int) is Some),
            forall|s: int, d: int|
                #![trigger final(self).at(s, d)]
                final(self).at(s, d) == (if done && s == r && d == c {
                    Some(p)
                } else {
                    old(self).at(s, d)
                }),
    {
        if r < 0 || r >= self.rows || c < 0 || c >= self.cols {
            return false;
        }
        let rows: i32 = self.rows;
        let cols: i32 = self.cols;
        match &mut self.pixels {
            Some(pixels) => {
                let i: usize = place(rows, cols, r, c, pixels.len());
                pixels[i] = p;
                proof {
                    assert forall|s: int, d: int|
                        on_grid(rows as int, cols as int, s, d) && (s != r || d != c) implies cell(
                        cols as int,
                        s,
                        d,
                    ) != i && 0 <= cell(cols as int, s, d) < rows * cols by {
                        lemma_cells_differ(cols as int, r as int, c as int, s, d);
                        lemma_cell(rows as int, cols as int, s, d);
                    }
                }
                true
            },
            None => false,
        }
    }
}

/// The picture in which every value of a gray one stands for all three colors.
pub fn gray_picture(rows: i32, cols: i32, values: &Vec<u8>) -> (img: Picture)
    requires
        rows >= 0,
        cols >= 0,
        values@.len() == rows * cols,
    ensures
        img.wf(),
        img.rows == rows,
        img.cols == cols,
        img.pixels matches Some(pixels) && pixels@ == values@.map_values(
            |v: u8| Pixel { b: v, g: v, r: v },
        ),
{
    let mut pixels: Vec<Pixel> = Vec::new();
    let mut i: usize = 0;
    while i < values.len()
        invariant
            i <= values.len(),
            pixels@.len() == i,
            forall|j: int|
                0 <= j < i ==> #[trigger] pixels@[j] == (Pixel {
                    b: values@[j],
                    g: values@[j],
                    r: values@[j],
                }),
        decreases values.len() - i,
    {
        let v: u8 = values[i];
        pixels.push(Pixel { b: v, g: v, r: v });
        i = i + 1;
    }
    assert(pixels@ =~= values@.map_values(|v: u8| Pixel { b: v, g: v, r: v }));
    Picture { rows, cols, pixels: Some(pixels) }
}

impl Mask {
    /// Every cell of the grid has an alpha value, if any has.
    pub open spec fn wf(&self) -> bool {
        &&& self.rows >= 0
        &&& self.cols >= 0
        &&& self.alpha is Some ==> self.alpha->0@.len() == self.rows * self.cols
    }

    /// The alpha value in row `r` and column `c`.
    pub open spec fn at(&self, r: int, c: int) -> Option<u8> {
        if self.alpha is Some && on_grid(self.rows as int, self.cols as int, r, c) {
            Some(self.alpha->0@[cell(self.cols as int, r, c)])
        } else {
            None
        }
    }

    /// The alpha value in row `r` and column `c`.
    pub fn value(&self, r: i32, c: i32) -> (a: Option<u8>)
        requires
            self.wf(),
        ensures
            a == self.at(r as int, c as int),
    {
        if r < 0 || r >= self.rows || c < 0 || c >= self.cols {
            return None;
        }
        match &self.alpha {
            Some(alpha) => {
                let i: usize = place(self.rows, self.cols, r, c, alpha.len());
                Some(alpha[i])
            },
            None => None,
        }
    }
}

/// Every mask that is there is well formed.
pub open spec fn mask_wf(mask: &Option<Mask>) -> bool {
    mask is Some ==> mask->0.wf()
}

/// Whether a mask leaves a pixel out: it can be read there, and reads zero.
pub open spec fn masked_out(mask: &Option<Mask>, r: int, c: int) -> bool {
    mask is Some && mask->0.at(r, c) == Some(0u8)
}

/// Whether a mask leaves a pixel out.
pub fn is_masked_out(mask: &Option<Mask>, r: i32, c: i32) -> (out: bool)
    requires
        mask_wf(mask),
    ensures
        out == masked_out(mask, r as int, c as int),
{
    match mask {
        Some(m) => match m.value(r, c) {
            Some(a) => a == 0,
            None => false,
        },
        None => false,
    }
}

} // verus!
