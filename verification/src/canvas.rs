//! The image that a finished growth is painted on.

use crate::color::Color;
use crate::grid::cell_index;
use crate::grid::cell_of;
use crate::grid::Grid;
use crate::grid::Location;
use vstd::arithmetic::div_mod::*;
use image::ImageBuffer;
use image::Rgb;
use vstd::prelude::*;

verus! {

/// An RGB image of the `image` crate, eight bits to a channel.
#[verifier::external_body]
pub struct Canvas {
    image: ImageBuffer<Rgb<u8>, Vec<u8>>,
}

/// The samples of an image: row after row, pixel after pixel, red, green and blue.
pub uninterp spec fn samples_of(canvas: Canvas) -> Seq<u8>;

/// The width and the height of an image.
pub uninterp spec fn extent_of(canvas: Canvas) -> (u32, u32);

/// Where the red sample of the pixel at `(x, y)` stands in an image of the given width.
pub open spec fn sample_index(width: int, x: int, y: int) -> int {
    3 * (y * width + x)
}

/// The colour of the pixel at `(x, y)` in the samples of an image of the given width.
pub open spec fn pixel_at(samples: Seq<u8>, width: int, x: int, y: int) -> Color {
    Color {
        r: samples[sample_index(width, x, y)],
        g: samples[sample_index(width, x, y) + 1],
        b: samples[sample_index(width, x, y) + 2],
    }
}

/// The samples with the pixel at `(x, y)` set to `color`.
pub open spec fn with_pixel(samples: Seq<u8>, width: int, x: int, y: int, color: Color) -> Seq<u8> {
    samples.update(sample_index(width, x, y), color.r).update(
        sample_index(width, x, y) + 1,
        color.g,
    ).update(sample_index(width, x, y) + 2, color.b)
}

/// `ImageBuffer::new`, which counts the samples as three times the width, times the
/// height, and panics where either product outgrows `usize::MAX`: an image of the given
/// extent, every sample zero.
#[verifier::external_body]
pub(crate) fn blank(width: u32, height: u32) -> (canvas: Canvas)
    requires
        3 * width <= usize::MAX,
        3 * width * height <= usize::MAX,
    ensures
        extent_of(canvas) == (width, height),
        samples_of(canvas) == Seq::new((3 * width * height) as nat, |i: int| 0u8),
{
    Canvas { image: ImageBuffer::new(width, height) }
}

/// `ImageBuffer::put_pixel`, which panics off the image: the three samples of the pixel at
/// `(x, y)` become those of `color`, and nothing else changes.
#[verifier::external_body]
pub(crate) fn put(canvas: &mut Canvas, x: u32, y: u32, color: Color)
    requires
        x < extent_of(*old(canvas)).0,
        y < extent_of(*old(canvas)).1,
    ensures
        extent_of(*final(canvas)) == extent_of(*old(canvas)),
        samples_of(*final(canvas)) == with_pixel(
            samples_of(*old(canvas)),
            extent_of(*old(canvas)).0 as int,
            x as int,
            y as int,
            color,
        ),
{
    canvas.image.put_pixel(x, y, Rgb([color.r, color.g, color.b]))
}

/// `ImageBuffer::into_raw`: the samples of the image.
#[verifier::external_body]
pub(crate) fn unwrap_samples(canvas: Canvas) -> (samples: Vec<u8>)
    ensures
        samples@ == samples_of(canvas),
{
    canvas.image.into_raw()
}

/// The colour that a cell is painted in: its own, or black where it has none.
pub open spec fn shade(cells: Map<usize, Color>, cell: usize) -> Color {
    if cells.contains_key(cell) {
        cells[cell]
    } else {
        Color { r: 0, g: 0, b: 0 }
    }
}

/// The sample at `i` of the image of a grid: the cell in row `r` and column `c` is the
/// pixel at `x = r`, `y = c`.
pub open spec fn raster_sample(size: usize, cells: Map<usize, Color>, i: int) -> u8 {
    let pixel = i / 3;
    let color = shade(cells, cell_of(size, pixel % (size as int), pixel / (size as int)));
    if i % 3 == 0 {
        color.r
    } else if i % 3 == 1 {
        color.g
    } else {
        color.b
    }
}

/// The samples of the image of a grid.
pub open spec fn raster(size: usize, cells: Map<usize, Color>) -> Seq<u8> {
    Seq::new((3 * size * size) as nat, |i: int| raster_sample(size, cells, i))
}

/// In the image of a grid, the pixel at `x = row`, `y = col` has the colour of the cell in
/// that row and column.
pub proof fn lemma_raster_pixel(size: usize, cells: Map<usize, Color>, row: int, col: int)
    requires
        0 <= row < size,
        0 <= col < size,
    ensures
        0 <= sample_index(size as int, row, col),
        sample_index(size as int, row, col) + 2 < raster(size, cells).len(),
        pixel_at(raster(size, cells), size as int, row, col) == shade(
            cells,
            cell_of(size, row, col),
        ),
{
    let pixel = col * size + row;
    crate::grid::lemma_cell_bound(size, col, row);
    lemma_fundamental_div_mod_converse(pixel, size as int, col, row);
    assert(3 * size * size == 3 * (size * size)) by (nonlinear_arith);
    let i = sample_index(size as int, row, col);
    assert(i == 3 * pixel);
    assert(i / 3 == pixel && (i + 1) / 3 == pixel && (i + 2) / 3 == pixel);
}

/// Paints the coloured cells of a grid on a canvas of the grid's side: the cell in row `r`
/// and column `c` is the pixel at `x = r`, `y = c`, and a cell without a colour is black.
pub fn paint(grid: &Grid) -> (canvas: Canvas)
    requires
        grid.wf(),
        3 * grid.side() * grid.side() <= usize::MAX,
    ensures
        extent_of(canvas) == (grid.side() as u32, grid.side() as u32),
        samples_of(canvas) == raster(grid.side(), grid@),
        forall|row: int, col: int|
            0 <= row < grid.side() && 0 <= col < grid.side() ==> #[trigger] pixel_at(
                samples_of(canvas),
                grid.side() as int,
                row,
                col,
            ) == shade(grid@, cell_of(grid.side(), row, col)),
{
    let size = grid.size();
    assert(3 * size <= 3 * size * size) by (nonlinear_arith)
        requires
            1 <= size,
    ;
    let mut canvas = blank(size as u32, size as u32);
    let total = size * size;
    assert(3 * size * size == 3 * total) by (nonlinear_arith)
        requires
            total == size * size,
    ;
    let mut p: usize = 0;
    while p < total
        invariant
            grid.wf(),
            size == grid.side(),
            total == size * size,
            3 * total <= usize::MAX,
            p <= total,
            extent_of(canvas) == (size as u32, size as u32),
            samples_of(canvas).len() == 3 * total,
            forall|i: int|
                0 <= i < 3 * p ==> #[trigger] samples_of(canvas)[i] == raster_sample(
                    size,
                    grid@,
                    i,
                ),
            forall|i: int| 3 * p <= i < 3 * total ==> #[trigger] samples_of(canvas)[i] == 0,
        decreases total - p,
    {
        let x = p % size;
        let y = p / size;
        proof {
            lemma_fundamental_div_mod(p as int, size as int);
            lemma_mod_pos_bound(p as int, size as int);
            assert(y < size) by (nonlinear_arith)
                requires
                    p < size * size,
                    p == size * y + x,
                    0 <= x,
                    size > 0,
            ;
            assert(y * size == size * y) by (nonlinear_arith);
            assert(sample_index(size as int, x as int, y as int) == 3 * p);
        }
        let cell = cell_index(size, Location { row: x, col: y });
        let ghost before = samples_of(canvas);
        match grid.color_of(cell) {
            Some(color) => {
                put(&mut canvas, x as u32, y as u32, color);
            },
            None => {},
        }
        proof {
            let after = samples_of(canvas);
            assert forall|i: int| 0 <= i < 3 * (p + 1) implies #[trigger] after[i]
                == raster_sample(size, grid@, i) by {
                if i >= 3 * p {
                    assert(i / 3 == p as int);
                    assert(i % 3 == i - 3 * p);
                } else {
                    assert(after[i] == before[i]);
                }
            }
            assert forall|i: int| 3 * (p + 1) <= i < 3 * total implies #[trigger] after[i]
                == 0 by {
                assert(after[i] == before[i]);
            }
        }
        p += 1;
    }
    assert(samples_of(canvas) =~= raster(grid.side(), grid@));
    proof {
        assert forall|row: int, col: int|
            0 <= row < grid.side() && 0 <= col < grid.side() implies #[trigger] pixel_at(
            samples_of(canvas),
            grid.side() as int,
            row,
            col,
        ) == shade(grid@, cell_of(grid.side(), row, col)) by {
            lemma_raster_pixel(grid.side(), grid@, row, col);
        }
    }
    canvas
}

impl Canvas {
    /// Gives up the image for its samples.
    pub fn into_samples(self) -> (samples: Vec<u8>)
        ensures
            samples@ == samples_of(self),
    {
        unwrap_samples(self)
    }
}

} // verus!
