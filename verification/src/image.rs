use vstd::prelude::*;

verus! {

/// A color: three 8-bit channel intensities (red, green, blue).
pub type Rgb = (u8, u8, u8);

/// A fixed-size 2D grid of pixels with row-major addressing.
///
/// Used both for the output canvas (a grid of colors) and for the visited
/// mask (a grid of booleans). Cells are addressed by `(x, y)` with
/// `0 <= x < width` and `0 <= y < height`; the cell `(x, y)` lives at index
/// `y * width + x` of the backing vector.
pub struct Image<Pixel> {
    data: Vec<Pixel>,
    width: usize,
    height: usize,
}

/// `true` iff `(x, y)` lies inside a `w` by `h` grid.
pub open spec fn in_grid(w: int, h: int, x: int, y: int) -> bool {
    0 <= x < w && 0 <= y < h
}

/// `true` iff the two cells are 8-connected neighbors: distinct, and each
/// coordinate differs by at most one (kings-move adjacency).
pub open spec fn is_neighbor(x1: int, y1: int, x2: int, y2: int) -> bool {
    &&& (x1 != x2 || y1 != y2)
    &&& -1 <= x1 - x2 <= 1
    &&& -1 <= y1 - y2 <= 1
}

/// The row-major index of `(x, y)` lies inside the backing vector.
pub proof fn lemma_row_major_index(w: int, h: int, x: int, y: int)
    requires
        in_grid(w, h, x, y),
    ensures
        0 <= y * w + x < w * h,
{
    assert(0 <= y * w + x < w * h) by (nonlinear_arith)
        requires
            0 <= x < w && 0 <= y < h,
    ;
}

/// Row-major indexing is injective: two in-bounds cells with the same index
/// are the same cell.
pub proof fn lemma_row_major_injective(w: int, h: int, x1: int, y1: int, x2: int, y2: int)
    requires
        in_grid(w, h, x1, y1),
        in_grid(w, h, x2, y2),
        y1 * w + x1 == y2 * w + x2,
    ensures
        x1 == x2 && y1 == y2,
{
    assert(x1 == x2 && y1 == y2) by (nonlinear_arith)
        requires
            0 <= x1 < w && 0 <= y1 < h,
            0 <= x2 < w && 0 <= y2 < h,
            y1 * w + x1 == y2 * w + x2,
    ;
}

/// The singleton `[(a, b)]` if `(a, b)` lies inside the grid, else empty.
/// Building block for `neighbors_seq`.
pub open spec fn cond_cell(w: int, h: int, a: int, b: int) -> Seq<(usize, usize)> {
    if in_grid(w, h, a, b) {
        seq![(a as usize, b as usize)]
    } else {
        Seq::empty()
    }
}

/// The in-bounds 8-connected neighbors of `(x, y)`, in a fixed order:
/// the row above left to right, then the two horizontal neighbors, then the
/// row below left to right.
pub open spec fn neighbors_seq(w: int, h: int, x: int, y: int) -> Seq<(usize, usize)> {
    cond_cell(w, h, x - 1, y - 1) + cond_cell(w, h, x, y - 1) + cond_cell(w, h, x + 1, y - 1)
        + cond_cell(w, h, x - 1, y) + cond_cell(w, h, x + 1, y) + cond_cell(w, h, x - 1, y + 1)
        + cond_cell(w, h, x, y + 1) + cond_cell(w, h, x + 1, y + 1)
}

/// `neighbors_seq` is sound and complete: it contains exactly the in-bounds
/// cells that are 8-connected neighbors of `(x, y)`.
pub proof fn lemma_neighbors_seq_correct(w: int, h: int, x: int, y: int)
    requires
        in_grid(w, h, x, y),
        w * h <= usize::MAX,
    ensures
        forall|p: (usize, usize)|
            #[trigger] neighbors_seq(w, h, x, y).contains(p) <==> (in_grid(w, h, p.0 as int, p.1 as int)
                && is_neighbor(x, y, p.0 as int, p.1 as int)),
{
    broadcast use vstd::seq_lib::lemma_seq_concat_contains_all_elements;

    assert(w <= w * h && h <= w * h) by (nonlinear_arith)
        requires
            1 <= w && 1 <= h,
    ;
    let s = neighbors_seq(w, h, x, y);
    assert forall|p: (usize, usize)| #[trigger] s.contains(p) implies (in_grid(
        w,
        h,
        p.0 as int,
        p.1 as int,
    ) && is_neighbor(x, y, p.0 as int, p.1 as int)) by {}
    assert forall|p: (usize, usize)| (in_grid(w, h, p.0 as int, p.1 as int) && is_neighbor(
        x,
        y,
        p.0 as int,
        p.1 as int,
    )) implies #[trigger] s.contains(p) by {
        let a = p.0 as int;
        let b = p.1 as int;
        assert(cond_cell(w, h, a, b).contains(p)) by {
            assert(cond_cell(w, h, a, b)[0] == p);
        }
    }
}

impl<Pixel: Copy> Image<Pixel> {
    /// The grid's width, as seen by specifications.
    pub closed spec fn spec_width(&self) -> int {
        self.width as int
    }

    /// The grid's height, as seen by specifications.
    pub closed spec fn spec_height(&self) -> int {
        self.height as int
    }

    /// The cells in row-major order, as seen by specifications.
    pub closed spec fn pixels(&self) -> Seq<Pixel> {
        self.data@
    }

    /// Well-formedness: positive dimensions, and the backing vector holds
    /// exactly `width * height` cells.
    pub open spec fn wf(&self) -> bool {
        &&& 0 < self.spec_width()
        &&& 0 < self.spec_height()
        &&& self.pixels().len() == self.spec_width() * self.spec_height()
    }

    /// The pixel stored at `(x, y)`.
    pub open spec fn at(&self, x: int, y: int) -> Pixel {
        self.pixels()[y * self.spec_width() + x]
    }

    /// A buffer of the given dimensions with every cell set to `pix`.
    pub fn new(pix: Pixel, width: usize, height: usize) -> (img: Self)
        requires
            0 < width,
            0 < height,
            width * height <= usize::MAX,
        ensures
            img.wf(),
            img.spec_width() == width,
            img.spec_height() == height,
            forall|i: int| 0 <= i < width * height ==> img.pixels()[i] == pix,
    {
        let n = width * height;
        let mut data: Vec<Pixel> = Vec::new();
        let mut i: usize = 0;
        while i < n
            invariant
                i <= n,
                data@.len() == i,
                forall|j: int| 0 <= j < i ==> data@[j] == pix,
            decreases n - i,
        {
            data.push(pix);
            i += 1;
        }
        Image { data, width, height }
    }

    /// The grid's width.
    pub fn width(&self) -> (w: usize)
        ensures
            w == self.spec_width(),
    {
        self.width
    }

    /// The grid's height.
    pub fn height(&self) -> (h: usize)
        ensures
            h == self.spec_height(),
    {
        self.height
    }

    /// The pixel at `(x, y)`; the coordinates must be in bounds.
    pub fn get(&self, x: usize, y: usize) -> (pix: Pixel)
        requires
            self.wf(),
            in_grid(self.spec_width(), self.spec_height(), x as int, y as int),
        ensures
            pix == self.at(x as int, y as int),
    {
        let n = self.data.len();
        proof {
            lemma_row_major_index(self.spec_width(), self.spec_height(), x as int, y as int);
        }
        self.data[y * self.width + x]
    }

    /// Overwrites the pixel at `(x, y)`; the coordinates must be in bounds.
    /// Every other cell is unchanged.
    pub fn set(&mut self, x: usize, y: usize, pix: Pixel)
        requires
            old(self).wf(),
            in_grid(old(self).spec_width(), old(self).spec_height(), x as int, y as int),
        ensures
            final(self).wf(),
            final(self).spec_width() == old(self).spec_width(),
            final(self).spec_height() == old(self).spec_height(),
            final(self).pixels() == old(self).pixels().update(
                y * old(self).spec_width() + x,
                pix,
            ),
    {
        let n = self.data.len();
        proof {
            lemma_row_major_index(self.spec_width(), self.spec_height(), x as int, y as int);
        }
        let i = y * self.width + x;
        self.data.set(i, pix);
    }

    /// The in-bounds 8-connected neighbors of `(x, y)`, in a fixed order.
    /// Replaces callback-style iteration: the result is a short vector,
    /// bounded by the connectivity degree.
    pub fn neighbors(&self, x: usize, y: usize) -> (nbrs: Vec<(usize, usize)>)
        requires
            self.wf(),
            in_grid(self.spec_width(), self.spec_height(), x as int, y as int),
        ensures
            nbrs@ == neighbors_seq(self.spec_width(), self.spec_height(), x as int, y as int),
    {
        let w = self.width;
        let h = self.height;
        let mut nbrs: Vec<(usize, usize)> = Vec::new();
        if x > 0 && y > 0 {
            nbrs.push((x - 1, y - 1));
        }
        if y > 0 {
            nbrs.push((x, y - 1));
        }
        if x + 1 < w && y > 0 {
            nbrs.push((x + 1, y - 1));
        }
        if x > 0 {
            nbrs.push((x - 1, y));
        }
        if x + 1 < w {
            nbrs.push((x + 1, y));
        }
        if x > 0 && y + 1 < h {
            nbrs.push((x - 1, y + 1));
        }
        if y + 1 < h {
            nbrs.push((x, y + 1));
        }
        if x + 1 < w && y + 1 < h {
            nbrs.push((x + 1, y + 1));
        }
        proof {
            assert(nbrs@ =~= neighbors_seq(
                self.spec_width(),
                self.spec_height(),
                x as int,
                y as int,
            ));
        }
        nbrs
    }
}

/// The ASCII decimal representation of a nonnegative number: most
/// significant digit first, no leading zeros (a single `'0'` for zero).
pub open spec fn dec_rep(n: int) -> Seq<u8>
    decreases n,
{
    if n < 10 {
        seq![(48 + if 0 <= n { n } else { 0 }) as u8]
    } else {
        dec_rep(n / 10).push((48 + n % 10) as u8)
    }
}

/// The header of a binary PPM image: the magic `"P6"`, the width and the
/// height in ASCII decimal, and the maximum channel value 255, separated
/// by whitespace.
pub open spec fn ppm_header(w: int, h: int) -> Seq<u8> {
    seq![80u8, 54u8, 10u8] + dec_rep(w) + seq![32u8] + dec_rep(h) + seq![10u8, 50u8, 53u8, 53u8, 10u8]
}

/// The pixel payload: one red-green-blue byte triple per pixel, in order,
/// no padding.
pub open spec fn rgb_bytes(pixels: Seq<Rgb>) -> Seq<u8>
    decreases pixels.len(),
{
    if pixels.len() == 0 {
        Seq::empty()
    } else {
        rgb_bytes(pixels.drop_last()) + seq![
            pixels.last().0,
            pixels.last().1,
            pixels.last().2,
        ]
    }
}

/// A whole binary PPM image: the header, then the payload.
pub open spec fn ppm_bytes_of(w: int, h: int, pixels: Seq<Rgb>) -> Seq<u8> {
    ppm_header(w, h) + rgb_bytes(pixels)
}

/// Appends the ASCII decimal representation of `n`.
fn push_decimal(out: &mut Vec<u8>, n: usize)
    ensures
        final(out)@ == old(out)@ + dec_rep(n as int),
    decreases n,
{
    if n < 10 {
        out.push(48 + n as u8);
        assert(final(out)@ =~= old(out)@ + dec_rep(n as int));
    } else {
        push_decimal(out, n / 10);
        out.push(48 + (n % 10) as u8);
        assert(final(out)@ =~= old(out)@ + dec_rep(n as int));
    }
}

impl Image<Rgb> {
    /// Serializes the canvas as a binary PPM image: a short ASCII header
    /// declaring the format, the dimensions and the maximum channel value,
    /// then one red-green-blue byte triple per pixel in row-major order,
    /// no padding and no trailing data.
    pub fn ppm_bytes(&self) -> (r: Vec<u8>)
        requires
            self.wf(),
        ensures
            r@ == ppm_bytes_of(self.spec_width(), self.spec_height(), self.pixels()),
    {
        let mut out: Vec<u8> = Vec::new();
        out.push(80);
        out.push(54);
        out.push(10);
        push_decimal(&mut out, self.width);
        out.push(32);
        push_decimal(&mut out, self.height);
        out.push(10);
        out.push(50);
        out.push(53);
        out.push(53);
        out.push(10);
        proof {
            assert(out@ =~= ppm_header(self.spec_width(), self.spec_height()));
            assert(self.pixels().take(0) =~= Seq::<Rgb>::empty());
        }
        let ghost hdr = out@;
        let n = self.data.len();
        let mut k: usize = 0;
        while k < n
            invariant
                k <= n,
                n == self.pixels().len(),
                out@ == hdr + rgb_bytes(self.pixels().take(k as int)),
            decreases n - k,
        {
            let p = self.data[k];
            out.push(p.0);
            out.push(p.1);
            out.push(p.2);
            proof {
                let t = self.pixels().take(k as int + 1);
                assert(t.drop_last() =~= self.pixels().take(k as int));
                assert(t.last() == self.pixels()[k as int]);
                assert(out@ =~= hdr + rgb_bytes(t));
            }
            k += 1;
        }
        proof {
            assert(self.pixels().take(n as int) =~= self.pixels());
        }
        out
    }
}

} // verus!
