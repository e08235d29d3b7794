//! Raster images and the order in which their pixels are produced.

use vstd::prelude::*;
use vstd::arithmetic::div_mod::lemma_fundamental_div_mod_converse;

verus! {

/// The colour of one pixel: the intensities of red, green and blue. Full
/// brightness is 255; an intensity above it or below zero is kept as it is.
#[derive(Clone, Copy, Debug, PartialEq, Eq, Structural)]
pub struct Pixel {
    pub r: i32,
    pub g: i32,
    pub b: i32,
}

/// The number of pixels of an image of `nx` columns and `ny` rows; an image
/// without columns or without rows has none.
pub open spec fn pixel_count(nx: int, ny: int) -> int {
    if nx > 0 && ny > 0 {
        nx * ny
    } else {
        0
    }
}

/// The column of the pixel produced at position `k`, counted from the left.
pub open spec fn column_at(nx: int, k: int) -> int {
    k % nx
}

/// The row of the pixel produced at position `k`, counted from the bottom:
/// the top row, `ny - 1`, is produced first.
pub open spec fn row_at(nx: int, ny: int, k: int) -> int {
    ny - 1 - k / nx
}

/// The position at which the pixel in column `i` of row `j` is produced.
pub open spec fn position_of(nx: int, ny: int, i: int, j: int) -> int {
    (ny - 1 - j) * nx + i
}

/// The pixel at position `k` lies inside the image, and `position_of` leads
/// back from its column and row to `k`.
pub proof fn lemma_position_to_pixel(nx: int, ny: int, k: int)
    requires
        0 <= k < pixel_count(nx, ny),
    ensures
        0 <= column_at(nx, k) < nx,
        0 <= row_at(nx, ny, k) < ny,
        position_of(nx, ny, column_at(nx, k), row_at(nx, ny, k)) == k,
{
    let q = k / nx;
    let m = k % nx;
    assert(k == nx * q + m && 0 <= m < nx) by (nonlinear_arith)
        requires
            nx > 0,
            q == k / nx,
            m == k % nx,
    ;
    assert(0 <= q < ny) by (nonlinear_arith)
        requires
            nx > 0,
            0 <= k < nx * ny,
            k == nx * q + m,
            0 <= m < nx,
    ;
    assert(q * nx == nx * q) by (nonlinear_arith);
}

/// Every pixel of the image is produced, at the position `position_of`
/// gives: from there `column_at` and `row_at` lead back to the pixel.
pub proof fn lemma_pixel_to_position(nx: int, ny: int, i: int, j: int)
    requires
        0 <= i < nx,
        0 <= j < ny,
    ensures
        0 <= position_of(nx, ny, i, j) < pixel_count(nx, ny),
        column_at(nx, position_of(nx, ny, i, j)) == i,
        row_at(nx, ny, position_of(nx, ny, i, j)) == j,
{
    let q = ny - 1 - j;
    let k = q * nx + i;
    lemma_fundamental_div_mod_converse(k, nx, q, i);
    assert(0 <= q * nx && q * nx + nx <= ny * nx && ny * nx == nx * ny) by (nonlinear_arith)
        requires
            0 <= q < ny,
            nx > 0,
    ;
}

/// Pixels are produced row by row from the top, and from left to right
/// within a row: of two pixels the earlier one lies in a higher row, or in
/// the same row further left.
pub proof fn lemma_rows_from_top_columns_from_left(nx: int, ny: int, k1: int, k2: int)
    requires
        0 <= k1 < k2 < pixel_count(nx, ny),
    ensures
        row_at(nx, ny, k1) > row_at(nx, ny, k2) || (row_at(nx, ny, k1) == row_at(nx, ny, k2)
            && column_at(nx, k1) < column_at(nx, k2)),
{
    lemma_position_to_pixel(nx, ny, k1);
    lemma_position_to_pixel(nx, ny, k2);
    let q1 = k1 / nx;
    let q2 = k2 / nx;
    let m1 = k1 % nx;
    let m2 = k2 % nx;
    assert(q1 <= q2 && (q1 == q2 ==> m1 < m2)) by (nonlinear_arith)
        requires
            nx > 0,
            k1 < k2,
            k1 == (ny - 1 - (ny - 1 - q1)) * nx + m1,
            k2 == (ny - 1 - (ny - 1 - q2)) * nx + m2,
            0 <= m1 < nx,
            0 <= m2 < nx,
    ;
}

/// Whether `pixels` are the pixels of an image of `nx` by `ny` in the order
/// of production, each as `shade` gives it for its column and row.
pub open spec fn shaded_by<F: Fn(i32, i32) -> Pixel>(
    pixels: Seq<Pixel>,
    nx: int,
    ny: int,
    shade: F,
) -> bool {
    &&& pixels.len() == pixel_count(nx, ny)
    &&& forall|k: int|
        0 <= k < pixels.len() ==> call_ensures(
            shade,
            (column_at(nx, k) as i32, row_at(nx, ny, k) as i32),
            #[trigger] pixels[k],
        )
}

/// An image: its pixels in the order of production, rows from the top and
/// columns from the left.
pub struct Image {
    nx: i32,
    ny: i32,
    pixels: Vec<Pixel>,
}

impl Image {
    /// The number of columns.
    pub closed spec fn width(&self) -> int {
        self.nx as int
    }

    /// The number of rows.
    pub closed spec fn height(&self) -> int {
        self.ny as int
    }

    /// The pixels in the order of production.
    pub closed spec fn view(&self) -> Seq<Pixel> {
        self.pixels@
    }

    /// An image holds every one of its pixels.
    #[verifier::type_invariant]
    spec fn complete(&self) -> bool {
        self.pixels@.len() == pixel_count(self.nx as int, self.ny as int)
    }

    /// The number of columns.
    pub fn nx(&self) -> (n: i32)
        ensures
            n == self.width(),
    {
        self.nx
    }

    /// The number of rows.
    pub fn ny(&self) -> (n: i32)
        ensures
            n == self.height(),
    {
        self.ny
    }

    /// The number of pixels.
    pub fn len(&self) -> (n: usize)
        ensures
            n == self@.len(),
            n == pixel_count(self.width(), self.height()),
    {
        proof {
            use_type_invariant(self);
        }
        self.pixels.len()
    }

    /// The pixel produced at position `k`.
    pub fn at(&self, k: usize) -> (p: Pixel)
        requires
            k < self@.len(),
        ensures
            p == self@[k as int],
    {
        self.pixels[k]
    }

    /// The pixel in column `i` of row `j`, rows counted from the bottom.
    pub fn pixel(&self, i: i32, j: i32) -> (p: Pixel)
        requires
            0 <= i < self.width(),
            0 <= j < self.height(),
        ensures
            p == self@[position_of(self.width(), self.height(), i as int, j as int)],
    {
        proof {
            use_type_invariant(self);
            lemma_pixel_to_position(self.nx as int, self.ny as int, i as int, j as int);
        }
        let above: usize = (self.ny - 1 - j) as usize;
        let across: usize = self.nx as usize;
        assert(above * across + i == position_of(
            self.width(),
            self.height(),
            i as int,
            j as int,
        ));
        assert(above * across + i < self.pixels.len());
        assert(above * across >= 0) by (nonlinear_arith)
            requires
                above >= 0,
                across >= 0,
        ;
        self.pixels[above * across + i as usize]
    }
}

/// Produces the image of `nx` by `ny` pixels that `shade` colours: the rows
/// from the top one, `ny - 1`, down to row 0, and in each row the columns
/// from 0 to `nx - 1`. `shade` is called once for each pixel, in this order,
/// with the column and the row.
pub fn render<F: Fn(i32, i32) -> Pixel>(nx: i32, ny: i32, shade: F) -> (img: Image)
    requires
        forall|i: i32, j: i32| 0 <= i < nx && 0 <= j < ny ==> call_requires(shade, (i, j)),
    ensures
        img.width() == nx,
        img.height() == ny,
        shaded_by(img@, nx as int, ny as int, shade),
{
    let mut pixels: Vec<Pixel> = Vec::new();
    if nx > 0 && ny > 0 {
        let mut j: i32 = ny;
        while j > 0
            invariant
                nx > 0,
                0 <= j <= ny,
                pixels@.len() == (ny - j) * nx,
                forall|i: i32, j: i32| 0 <= i < nx && 0 <= j < ny ==> call_requires(shade, (i, j)),
                forall|k: int|
                    0 <= k < pixels@.len() ==> call_ensures(
                        shade,
                        (column_at(nx as int, k) as i32, row_at(nx as int, ny as int, k) as i32),
                        #[trigger] pixels@[k],
                    ),
            decreases j,
        {
            j -= 1;
            let mut i: i32 = 0;
            while i < nx
                invariant
                    nx > 0,
                    0 <= i <= nx,
                    0 <= j < ny,
                    pixels@.len() == (ny - 1 - j) * nx + i,
                    forall|i: i32, j: i32|
                        0 <= i < nx && 0 <= j < ny ==> call_requires(shade, (i, j)),
                    forall|k: int|
                        0 <= k < pixels@.len() ==> call_ensures(
                            shade,
                            (
                                column_at(nx as int, k) as i32,
                                row_at(nx as int, ny as int, k) as i32,
                            ),
                            #[trigger] pixels@[k],
                        ),
                decreases nx - i,
            {
                let p = shade(i, j);
                proof {
                    lemma_pixel_to_position(nx as int, ny as int, i as int, j as int);
                }
                pixels.push(p);
                i += 1;
            }
            assert((ny - 1 - j) * nx + nx == (ny - j) * nx) by (nonlinear_arith);
        }
        assert(ny * nx == nx * ny) by (nonlinear_arith);
    }
    Image { nx, ny, pixels }
}

} // verus!
