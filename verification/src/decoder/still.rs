//! Still-image composition: grid cells into one image, and alpha samples into RGBA.
use vstd::prelude::*;
use crate::av1::planes::{FrameBuffersView, PlaneBuffer, PlaneLayout, PlaneView};
use crate::decoder::frame::{DecodedFrame, DecodedFrameView};
use crate::container::types::GridImage;
use crate::decoder::composition::{lemma_next_row, lemma_pixel_decode, lemma_pixel_encode, pixel_x, pixel_y, rgba_at};
use crate::error::{DecoderError, ErrorKind};
use crate::image::ImageBuffer;

verus! {

/// The sum of the first `n` sizes.
pub open spec fn prefix_sum(sizes: Seq<usize>, n: int) -> int
    decreases n,
{
    if n <= 0 {
        0
    } else {
        prefix_sum(sizes, n - 1) + sizes[n - 1]
    }
}

/// The first band, from `k` on, that ends after `position` (the band count if none).
pub open spec fn band_from(sizes: Seq<usize>, position: int, k: int) -> int
    decreases sizes.len() - k,
{
    if k >= sizes.len() {
        sizes.len() as int
    } else if position < prefix_sum(sizes, k + 1) {
        k
    } else {
        band_from(sizes, position, k + 1)
    }
}

/// The band (row or column of cells) that holds `position`.
pub open spec fn band_of(sizes: Seq<usize>, position: int) -> int {
    band_from(sizes, position, 0)
}

/// Byte `c` of output pixel (`x`, `y`) of a grid: the byte of the cell whose band
/// holds it, or 0 where the cells end before the output does.
pub open spec fn grid_byte(cells: Seq<ImageBuffer>, widths: Seq<usize>, heights: Seq<usize>, x: int, y: int, c: int) -> u8 {
    let row = band_of(heights, y);
    let column = band_of(widths, x);
    if row < heights.len() && column < widths.len() {
        let cell = cells[row * widths.len() + column];
        cell.rgba@[rgba_at(cell.width as int, x - prefix_sum(widths, column), y - prefix_sum(heights, row), c)]
    } else {
        0
    }
}

/// The bytes of a `width` by `height` grid output.
pub open spec fn grid_bytes(cells: Seq<ImageBuffer>, widths: Seq<usize>, heights: Seq<usize>, width: int, height: int) -> Seq<u8> {
    Seq::new(
        (width * height * 4) as nat,
        |i: int| grid_byte(cells, widths, heights, pixel_x(width, i), pixel_y(width, i), i % 4),
    )
}

/// Every cell has the width of its column and the height of its row.
pub open spec fn cells_fit_bands(cells: Seq<ImageBuffer>, widths: Seq<usize>, heights: Seq<usize>) -> bool {
    forall|k: int|
        0 <= k < cells.len() ==> (#[trigger] cells[k]).width == widths[k % (widths.len() as int)] && cells[k].height
            == heights[k / (widths.len() as int)]
}

pub proof fn lemma_prefix_monotonic(sizes: Seq<usize>, a: int, b: int)
    requires
        0 <= a <= b <= sizes.len(),
    ensures
        prefix_sum(sizes, a) <= prefix_sum(sizes, b),
    decreases b - a,
{
    if a < b {
        lemma_prefix_monotonic(sizes, a, b - 1);
    }
}

/// Once every band before `k` ends by `position`, the search from 0 and from `k` agree.
proof fn lemma_band_skip(sizes: Seq<usize>, position: int, i: int, k: int)
    requires
        0 <= i <= k <= sizes.len(),
        prefix_sum(sizes, k) <= position,
    ensures
        band_from(sizes, position, i) == band_from(sizes, position, k),
    decreases k - i,
{
    if i < k {
        lemma_prefix_monotonic(sizes, i + 1, k);
        lemma_band_skip(sizes, position, i + 1, k);
    }
}

/// A position inside band `k` belongs to band `k`.
pub proof fn lemma_band_of(sizes: Seq<usize>, position: int, k: int)
    requires
        0 <= k < sizes.len(),
        prefix_sum(sizes, k) <= position < prefix_sum(sizes, k + 1),
    ensures
        band_of(sizes, position) == k,
{
    lemma_band_skip(sizes, position, 0, k);
}

/// A position past every band belongs to none.
pub proof fn lemma_band_past(sizes: Seq<usize>, position: int)
    requires
        prefix_sum(sizes, sizes.len() as int) <= position,
    ensures
        band_of(sizes, position) == sizes.len(),
{
    lemma_band_skip(sizes, position, 0, sizes.len() as int);
}

/// Moves `(first_band, first_start)` forward to the band that holds `position`.
fn advance_band(sizes: &[usize], position: usize, first_band: usize, first_start: usize) -> (next: (usize, usize))
    requires
        first_band <= sizes@.len(),
        first_start == prefix_sum(sizes@, first_band as int),
        first_start <= position,
    ensures
        next.0 == band_of(sizes@, position as int),
        next.1 == prefix_sum(sizes@, next.0 as int),
        first_band <= next.0 <= sizes@.len(),
        next.1 <= position,
        next.0 < sizes@.len() ==> position < next.1 + sizes@[next.0 as int],
{
    let mut band = first_band;
    let mut start = first_start;
    while band < sizes.len() && sizes[band] <= position - start
        invariant
            first_band <= band <= sizes@.len(),
            start == prefix_sum(sizes@, band as int),
            start <= position,
        decreases sizes@.len() - band,
    {
        start = start + sizes[band];
        band = band + 1;
    }
    proof {
        if band < sizes@.len() {
            lemma_band_of(sizes@, position as int, band as int);
        } else {
            lemma_band_past(sizes@, position as int);
        }
    }
    (band, start)
}

/// Composes decoded grid cells, in row-major order, into the grid's output image.
/// Cells at the right and bottom edges are cropped to the output; where the cells
/// end before the output does, the output stays zero.
///
/// Mismatched counts or an output too large for memory are `InvalidParam`; a cell
/// whose size differs from its column width or row height is a `Bitstream` error.
pub fn compose_grid_images(
    grid: &GridImage,
    decoded_cells: &[ImageBuffer],
    column_widths: &[usize],
    row_heights: &[usize],
) -> (result: Result<ImageBuffer, DecoderError>)
    requires
        forall|k: int| 0 <= k < decoded_cells@.len() ==> (#[trigger] decoded_cells@[k]).well_formed(),
        prefix_sum(column_widths@, column_widths@.len() as int) <= usize::MAX,
        prefix_sum(row_heights@, row_heights@.len() as int) <= usize::MAX,
    ensures
        match result {
            Ok(image) => {
                &&& decoded_cells@.len() == grid.rows * grid.columns
                &&& column_widths@.len() == grid.columns
                &&& row_heights@.len() == grid.rows
                &&& cells_fit_bands(decoded_cells@, column_widths@, row_heights@)
                &&& grid.output_width * grid.output_height * 4 <= usize::MAX
                &&& image.width == grid.output_width
                &&& image.height == grid.output_height
                &&& image.rgba@ == grid_bytes(decoded_cells@, column_widths@, row_heights@, image.width as int, image.height as int)
            },
            Err(error) => if decoded_cells@.len() != grid.rows * grid.columns || column_widths@.len() != grid.columns
                || row_heights@.len() != grid.rows || grid.output_width * grid.output_height * 4 > usize::MAX {
                error.kind() == ErrorKind::InvalidParam
            } else {
                error.kind() == ErrorKind::Bitstream && !cells_fit_bands(decoded_cells@, column_widths@, row_heights@)
            },
        },
{
    let width = grid.output_width as usize;
    let height = grid.output_height as usize;
    let rows = grid.rows as usize;
    let columns = grid.columns as usize;
    assert(rows * columns <= 255 * 255) by (nonlinear_arith)
        requires
            rows <= 255,
            columns <= 255,
    ;
    if decoded_cells.len() != rows * columns || column_widths.len() != columns || row_heights.len() != rows {
        return Err(DecoderError::InvalidParam("grid composition dimensions do not match cell count".to_string()));
    }
    let pixels = match width.checked_mul(height) {
        Some(pixels) => pixels,
        None => return Err(DecoderError::InvalidParam("grid output buffer is too large".to_string())),
    };
    let rgba_len = match pixels.checked_mul(4) {
        Some(rgba_len) => rgba_len,
        None => return Err(DecoderError::InvalidParam("grid output buffer is too large".to_string())),
    };
    let mut k: usize = 0;
    while k < decoded_cells.len()
        invariant
            decoded_cells@.len() == rows * columns,
            column_widths@.len() == columns,
            row_heights@.len() == rows,
            rows == grid.rows,
            columns == grid.columns,
            width == grid.output_width,
            height == grid.output_height,
            width * height * 4 <= usize::MAX,
            k <= decoded_cells@.len(),
            forall|j: int|
                0 <= j < k ==> (#[trigger] decoded_cells@[j]).width == column_widths@[j % columns as int]
                    && decoded_cells@[j].height == row_heights@[j / columns as int],
        decreases decoded_cells@.len() - k,
    {
        proof {
            assert(columns > 0) by (nonlinear_arith)
                requires
                    k < rows * columns,
            ;
            vstd::arithmetic::div_mod::lemma_mod_bound(k as int, columns as int);
            vstd::arithmetic::div_mod::lemma_div_pos_is_pos(k as int, columns as int);
            assert(k / columns < rows as int) by {
                vstd::arithmetic::div_mod::lemma_div_is_ordered(k as int, rows * columns - 1, columns as int);
                assert(rows * columns - 1 == (rows - 1) * columns + (columns - 1)) by (nonlinear_arith);
                vstd::arithmetic::div_mod::lemma_fundamental_div_mod_converse(rows * columns - 1, columns as int, rows - 1, columns - 1);
            }
        }
        let cell = &decoded_cells[k];
        if cell.width != column_widths[k % columns] || cell.height != row_heights[k / columns] {
            assert(!cells_fit_bands(decoded_cells@, column_widths@, row_heights@)) by {
                assert(decoded_cells@[k as int] == *cell);
            }
            return Err(DecoderError::Bitstream("grid cell image dimensions do not match metadata".to_string()));
        }
        k = k + 1;
    }
    assert(cells_fit_bands(decoded_cells@, column_widths@, row_heights@));
    let ghost target = grid_bytes(decoded_cells@, column_widths@, row_heights@, width as int, height as int);
    let mut rgba: Vec<u8> = Vec::new();
    let mut row: usize = 0;
    let mut row_start: usize = 0;
    let mut y: usize = 0;
    while y < height
        invariant
            decoded_cells@.len() == rows * columns,
            column_widths@.len() == columns,
            row_heights@.len() == rows,
                rows * columns <= 255 * 255,
            cells_fit_bands(decoded_cells@, column_widths@, row_heights@),
            forall|j: int| 0 <= j < decoded_cells@.len() ==> (#[trigger] decoded_cells@[j]).well_formed(),
            prefix_sum(column_widths@, columns as int) <= usize::MAX,
            prefix_sum(row_heights@, rows as int) <= usize::MAX,
            width * height * 4 <= usize::MAX,
            target == grid_bytes(decoded_cells@, column_widths@, row_heights@, width as int, height as int),
            y <= height,
            row <= rows,
            row_start == prefix_sum(row_heights@, row as int),
            row_start <= y,
            rgba@.len() == rgba_at(width as int, 0, y as int, 0),
            forall|j: int| 0 <= j < rgba@.len() ==> rgba@[j] == target[j],
        decreases height - y,
    {
        let (current_row, current_row_start) = advance_band(row_heights, y, row, row_start);
        row = current_row;
        row_start = current_row_start;
        let mut column: usize = 0;
        let mut column_start: usize = 0;
        let mut x: usize = 0;
        while x < width
            invariant
                decoded_cells@.len() == rows * columns,
                column_widths@.len() == columns,
                row_heights@.len() == rows,
                rows * columns <= 255 * 255,
                cells_fit_bands(decoded_cells@, column_widths@, row_heights@),
                forall|j: int| 0 <= j < decoded_cells@.len() ==> (#[trigger] decoded_cells@[j]).well_formed(),
                prefix_sum(column_widths@, columns as int) <= usize::MAX,
                prefix_sum(row_heights@, rows as int) <= usize::MAX,
                width * height * 4 <= usize::MAX,
                target == grid_bytes(decoded_cells@, column_widths@, row_heights@, width as int, height as int),
                y < height,
                row == band_of(row_heights@, y as int),
                row_start == prefix_sum(row_heights@, row as int),
                row < rows ==> row_start <= y < row_start + row_heights@[row as int],
                x <= width,
                column <= columns,
                column_start == prefix_sum(column_widths@, column as int),
                column_start <= x,
                rgba@.len() == rgba_at(width as int, x as int, y as int, 0),
                forall|j: int| 0 <= j < rgba@.len() ==> rgba@[j] == target[j],
            decreases width - x,
        {
            let (current_column, current_column_start) = advance_band(column_widths, x, column, column_start);
            column = current_column;
            column_start = current_column_start;
            let mut c: usize = 0;
            while c < 4
                invariant
                    decoded_cells@.len() == rows * columns,
                    column_widths@.len() == columns,
                    row_heights@.len() == rows,
                rows * columns <= 255 * 255,
                    cells_fit_bands(decoded_cells@, column_widths@, row_heights@),
                    forall|j: int| 0 <= j < decoded_cells@.len() ==> (#[trigger] decoded_cells@[j]).well_formed(),
                    width * height * 4 <= usize::MAX,
                    target == grid_bytes(decoded_cells@, column_widths@, row_heights@, width as int, height as int),
                    y < height,
                    x < width,
                    row == band_of(row_heights@, y as int),
                    row_start == prefix_sum(row_heights@, row as int),
                    row < rows ==> row_start <= y < row_start + row_heights@[row as int],
                    column == band_of(column_widths@, x as int),
                    column_start == prefix_sum(column_widths@, column as int),
                    column < columns ==> column_start <= x < column_start + column_widths@[column as int],
                    c <= 4,
                    rgba@.len() == rgba_at(width as int, x as int, y as int, c as int),
                    forall|j: int| 0 <= j < rgba@.len() ==> rgba@[j] == target[j],
                decreases 4 - c,
            {
                proof {
                    lemma_pixel_decode(width as int, height as int, x as int, y as int, c as int);
                }
                let value: u8 = if row < rows && column < columns {
                    assert(row * columns + column < rows * columns) by (nonlinear_arith)
                        requires
                            row < rows,
                            column < columns,
                    ;
                    let index = row * columns + column;
                    proof {
                        vstd::arithmetic::div_mod::lemma_fundamental_div_mod_converse(index as int, columns as int, row as int, column as int);
                    }
                    let cell = &decoded_cells[index];
                    let cell_x = x - column_start;
                    let cell_y = y - row_start;
                    proof {
                        lemma_pixel_decode(cell.width as int, cell.height as int, cell_x as int, cell_y as int, c as int);
                    }
                    let total = cell.rgba.len();
                    assert(cell_y * cell.width <= total);
                    cell.rgba[(cell_y * cell.width + cell_x) * 4 + c]
                } else {
                    0
                };
                rgba.push(value);
                c = c + 1;
            }
            x = x + 1;
        }
        proof {
            lemma_next_row(width as int, y as int);
        }
        y = y + 1;
    }
    proof {
        assert(rgba_at(width as int, 0, height as int, 0) == width * height * 4) by (nonlinear_arith);
        assert(rgba@ =~= target);
    }
    Ok(ImageBuffer { width, height, rgba })
}

/// Each cell lands at the sum of the widths of the columns before it and the sum
/// of the heights of the rows above it: every byte of the cell that falls inside
/// the output is copied there.
pub proof fn lemma_grid_cell_placement(
    cells: Seq<ImageBuffer>,
    widths: Seq<usize>,
    heights: Seq<usize>,
    width: int,
    height: int,
    row: int,
    column: int,
    cell_x: int,
    cell_y: int,
    c: int,
)
    requires
        cells.len() == heights.len() * widths.len(),
        cells_fit_bands(cells, widths, heights),
        0 <= row < heights.len(),
        0 <= column < widths.len(),
        0 <= cell_x < widths[column],
        0 <= cell_y < heights[row],
        prefix_sum(widths, column) + cell_x < width,
        prefix_sum(heights, row) + cell_y < height,
        0 <= c < 4,
    ensures
        grid_bytes(cells, widths, heights, width, height)[rgba_at(width, prefix_sum(widths, column) + cell_x, prefix_sum(heights, row) + cell_y, c)]
            == cells[row * widths.len() + column].rgba@[rgba_at(widths[column] as int, cell_x, cell_y, c)],
{
    let x = prefix_sum(widths, column) + cell_x;
    let y = prefix_sum(heights, row) + cell_y;
    lemma_prefix_monotonic(widths, 0, column);
    lemma_prefix_monotonic(heights, 0, row);
    lemma_pixel_decode(width, height, x, y, c);
    lemma_band_of(widths, x, column);
    lemma_band_of(heights, y, row);
    let k = row * widths.len() + column;
    assert(0 <= k < cells.len()) by (nonlinear_arith)
        requires
            k == row * widths.len() + column,
            0 <= row < heights.len(),
            0 <= column < widths.len(),
            cells.len() == heights.len() * widths.len(),
    ;
    vstd::arithmetic::div_mod::lemma_fundamental_div_mod_converse(k, widths.len() as int, row, column);
}

/// Output pixels past the last column or row of cells are zero.
pub proof fn lemma_grid_uncovered_zero(cells: Seq<ImageBuffer>, widths: Seq<usize>, heights: Seq<usize>, width: int, height: int, x: int, y: int, c: int)
    requires
        0 <= x < width,
        0 <= y < height,
        0 <= c < 4,
        x >= prefix_sum(widths, widths.len() as int) || y >= prefix_sum(heights, heights.len() as int),
    ensures
        grid_bytes(cells, widths, heights, width, height)[rgba_at(width, x, y, c)] == 0,
{
    lemma_pixel_decode(width, height, x, y, c);
    if x >= prefix_sum(widths, widths.len() as int) {
        lemma_band_past(widths, x);
    } else {
        lemma_band_past(heights, y);
    }
}

/// The largest sample of `bit_depth` bits.
pub open spec fn sample_max(bit_depth: u8) -> int {
    vstd::arithmetic::power2::pow2(bit_depth as nat) - 1
}

/// A sample of `bit_depth` bits rescaled to 8 bits, rounding to nearest (truncated
/// to a byte, as a sample above the maximum wraps).
pub open spec fn scaled_to_u8(sample: u16, bit_depth: u8) -> u8 {
    ((sample * 255 + sample_max(bit_depth) / 2) / sample_max(bit_depth)) as u8
}

/// Rescales a sample of `bit_depth` bits to 8 bits.
pub fn scale_sample_to_u8(sample: u16, bit_depth: u8) -> (scaled: u8)
    requires
        1 <= bit_depth < 32,
    ensures
        scaled == scaled_to_u8(sample, bit_depth),
{
    proof {
        vstd::arithmetic::power2::lemma_pow2_strictly_increases(0, bit_depth as nat);
        vstd::arithmetic::power2::lemma2_to64();
        vstd::bits::lemma_u32_pow2_no_overflow(bit_depth as nat);
        vstd::bits::lemma_u32_shl_is_mul(1, bit_depth as u32);
    }
    let maximum = (1u32 << bit_depth as u32) - 1;
    ((sample as u32 * 255 + maximum / 2) / maximum) as u8
}

/// The alpha sample for output pixel (`x`, `y`): the subsampled position, clamped
/// to the alpha plane.
pub open spec fn alpha_sample_index(x: usize, y: usize, alpha_width: usize, alpha_height: usize, alpha_subsampling_x: u8, alpha_subsampling_y: u8) -> int {
    let alpha_y = if (y >> alpha_subsampling_y as usize) < alpha_height - 1 { (y >> alpha_subsampling_y as usize) as int } else { alpha_height - 1 };
    let alpha_x = if (x >> alpha_subsampling_x as usize) < alpha_width - 1 { (x >> alpha_subsampling_x as usize) as int } else { alpha_width - 1 };
    alpha_y * alpha_width + alpha_x
}

/// Byte `i` of whole rows starting at image row `first_row` after their alpha is
/// written: the alpha byte of each pixel comes from the alpha plane, every other
/// byte (and a trailing partial row) is kept.
pub open spec fn alpha_rows_byte(
    before: Seq<u8>,
    first_row: usize,
    width: usize,
    alpha_width: usize,
    alpha_height: usize,
    alpha_subsampling_x: u8,
    alpha_subsampling_y: u8,
    alpha_samples: Seq<u16>,
    bit_depth: u8,
    i: int,
) -> u8 {
    if width > 0 && i < (before.len() as int / width as int / 4) * width * 4 && i % 4 == 3 {
        scaled_to_u8(
            alpha_samples[alpha_sample_index(
                pixel_x(width as int, i) as usize,
                (first_row + pixel_y(width as int, i)) as usize,
                alpha_width,
                alpha_height,
                alpha_subsampling_x,
                alpha_subsampling_y,
            )],
            bit_depth,
        )
    } else {
        before[i]
    }
}

/// Writes the alpha byte of every pixel of the whole rows in `rgba`, which start at
/// image row `first_row`, from an alpha plane of `bit_depth`-bit samples.
pub fn apply_alpha_rows(
    rgba: &mut [u8],
    first_row: usize,
    width: usize,
    alpha_width: usize,
    alpha_height: usize,
    alpha_subsampling_x: u8,
    alpha_subsampling_y: u8,
    alpha_samples: &[u16],
    bit_depth: u8,
)
    requires
        1 <= bit_depth < 32,
        alpha_subsampling_x < 32,
        alpha_subsampling_y < 32,
        1 <= alpha_width,
        1 <= alpha_height,
        alpha_width * alpha_height <= alpha_samples@.len(),
        first_row + old(rgba)@.len() <= usize::MAX,
    ensures
        final(rgba)@.len() == old(rgba)@.len(),
        forall|i: int|
            0 <= i < old(rgba)@.len() ==> #[trigger] final(rgba)@[i] == alpha_rows_byte(
                old(rgba)@,
                first_row,
                width,
                alpha_width,
                alpha_height,
                alpha_subsampling_x,
                alpha_subsampling_y,
                alpha_samples@,
                bit_depth,
                i,
            ),
{
    let row_count = rgba.len() / (if width > 1 { width } else { 1 }) / 4;
    let ghost before = rgba@;
    proof {
        if width > 0 {
            let q = before.len() as int / width as int;
            vstd::arithmetic::div_mod::lemma_fundamental_div_mod(before.len() as int, width as int);
            vstd::arithmetic::div_mod::lemma_mod_bound(before.len() as int, width as int);
            vstd::arithmetic::div_mod::lemma_fundamental_div_mod(q, 4);
            vstd::arithmetic::div_mod::lemma_mod_bound(q, 4);
            assert(row_count * width * 4 <= before.len()) by (nonlinear_arith)
                requires
                    row_count == q / 4,
                    q == 4 * (q / 4) + q % 4,
                    q % 4 >= 0,
                    before.len() == width * q + before.len() as int % width as int,
                    before.len() as int % width as int >= 0,
                    width > 0,
            ;
        }
    }
    let mut local_y: usize = 0;
    while local_y < row_count
        invariant
            rgba@.len() == before.len(),
            local_y <= row_count,
            row_count == before.len() as int / (if width > 1 { width as int } else { 1 }) / 4,
            width > 0 ==> row_count * width * 4 <= before.len(),
            1 <= bit_depth < 32,
            alpha_subsampling_x < 32,
            alpha_subsampling_y < 32,
            1 <= alpha_width,
            1 <= alpha_height,
            alpha_width * alpha_height <= alpha_samples@.len(),
            first_row + before.len() <= usize::MAX,
            forall|i: int|
                0 <= i < before.len() ==> #[trigger] rgba@[i] == if i < rgba_at(width as int, 0, local_y as int, 0) {
                    alpha_rows_byte(before, first_row, width, alpha_width, alpha_height, alpha_subsampling_x, alpha_subsampling_y, alpha_samples@, bit_depth, i)
                } else {
                    before[i]
                },
        decreases row_count - local_y,
    {
        assert(local_y <= before.len()) by (nonlinear_arith)
            requires
                local_y < row_count,
                row_count == before.len() as int / (if width > 1 { width as int } else { 1 }) / 4,
        ;
        let y = first_row + local_y;
        let shifted_y = y >> alpha_subsampling_y as usize;
        let alpha_y = if shifted_y < alpha_height - 1 { shifted_y } else { alpha_height - 1 };
        let mut x: usize = 0;
        while x < width
            invariant
                rgba@.len() == before.len(),
                local_y < row_count,
                row_count == before.len() as int / (if width > 1 { width as int } else { 1 }) / 4,
                width > 0 ==> row_count * width * 4 <= before.len(),
                x <= width,
                y == first_row + local_y,
                alpha_y == if (y >> alpha_subsampling_y as usize) < alpha_height - 1 { (y >> alpha_subsampling_y as usize) as int } else { alpha_height - 1 },
                alpha_y < alpha_height,
                1 <= bit_depth < 32,
                alpha_subsampling_x < 32,
                1 <= alpha_width,
                alpha_width * alpha_height <= alpha_samples@.len(),
                forall|i: int|
                    0 <= i < before.len() ==> #[trigger] rgba@[i] == if i < rgba_at(width as int, x as int, local_y as int, 0) {
                        alpha_rows_byte(before, first_row, width, alpha_width, alpha_height, alpha_subsampling_x, alpha_subsampling_y, alpha_samples@, bit_depth, i)
                    } else {
                        before[i]
                    },
            decreases width - x,
        {
            let shifted_x = x >> alpha_subsampling_x as usize;
            let alpha_x = if shifted_x < alpha_width - 1 { shifted_x } else { alpha_width - 1 };
            assert(alpha_y * alpha_width + alpha_x < alpha_width * alpha_height) by (nonlinear_arith)
                requires
                    alpha_y < alpha_height,
                    alpha_x < alpha_width,
            ;
            let total = alpha_samples.len();
            let value = scale_sample_to_u8(alpha_samples[alpha_y * alpha_width + alpha_x], bit_depth);
            proof {
                lemma_pixel_decode(width as int, row_count as int, x as int, local_y as int, 3);
                lemma_pixel_decode(width as int, row_count as int, x as int, local_y as int, 0);
            }
            let total_rgba = rgba.len();
            assert(width * row_count == row_count * width) by (nonlinear_arith);
            assert(rgba_at(width as int, x as int, local_y as int, 3) < total_rgba);
            assert(local_y * width <= total_rgba);
            let index = (local_y * width + x) * 4 + 3;
            let ghost previous = rgba@;
            rgba[index] = value;
            proof {
                assert(rgba@[index as int] == value);
                assert(value == alpha_rows_byte(before, first_row, width, alpha_width, alpha_height, alpha_subsampling_x, alpha_subsampling_y, alpha_samples@, bit_depth, index as int));
                assert forall|i: int|
                    0 <= i < before.len() implies #[trigger] rgba@[i] == if i < rgba_at(width as int, x + 1, local_y as int, 0) {
                        alpha_rows_byte(before, first_row, width, alpha_width, alpha_height, alpha_subsampling_x, alpha_subsampling_y, alpha_samples@, bit_depth, i)
                    } else {
                        before[i]
                    } by {
                    if i != index && rgba_at(width as int, x as int, local_y as int, 0) <= i < rgba_at(width as int, x + 1, local_y as int, 0) {
                        assert(i % 4 != 3) by {
                            vstd::arithmetic::div_mod::lemma_fundamental_div_mod_converse(
                                i,
                                4,
                                local_y * width + x,
                                i - rgba_at(width as int, x as int, local_y as int, 0),
                            );
                        }
                    }
                    assert(previous[i] == (if i < rgba_at(width as int, x as int, local_y as int, 0) {
                        alpha_rows_byte(before, first_row, width, alpha_width, alpha_height, alpha_subsampling_x, alpha_subsampling_y, alpha_samples@, bit_depth, i)
                    } else {
                        before[i]
                    }));
                }
            }
            x = x + 1;
        }
        proof {
            lemma_next_row(width as int, local_y as int);
        }
        local_y = local_y + 1;
    }
    proof {
        assert forall|i: int| 0 <= i < before.len() implies #[trigger] rgba@[i] == alpha_rows_byte(
            before, first_row, width, alpha_width, alpha_height, alpha_subsampling_x, alpha_subsampling_y, alpha_samples@, bit_depth, i,
        ) by {
            if width > 0 && i >= rgba_at(width as int, 0, row_count as int, 0) {
                assert(rgba_at(width as int, 0, row_count as int, 0) == row_count * width * 4) by (nonlinear_arith);
            }
        }
    }
}

/// Writes the alpha byte of every pixel of the whole rows of `rgba`, an image
/// `width` pixels wide, from a decoded alpha plane of `bit_depth`-bit samples.
pub fn apply_alpha_plane_rows(rgba: &mut [u8], width: usize, _height: usize, alpha_plane: &PlaneBuffer, bit_depth: u8)
    requires
        1 <= bit_depth < 32,
        alpha_plane.layout.subsampling_x < 32,
        alpha_plane.layout.subsampling_y < 32,
        1 <= alpha_plane.layout.width,
        1 <= alpha_plane.layout.height,
        alpha_plane.layout.width * alpha_plane.layout.height <= alpha_plane.samples@.len(),
    ensures
        final(rgba)@.len() == old(rgba)@.len(),
        forall|i: int|
            0 <= i < old(rgba)@.len() ==> #[trigger] final(rgba)@[i] == alpha_rows_byte(
                old(rgba)@,
                0,
                width,
                alpha_plane.layout.width,
                alpha_plane.layout.height,
                alpha_plane.layout.subsampling_x,
                alpha_plane.layout.subsampling_y,
                alpha_plane.samples@,
                bit_depth,
                i,
            ),
{
    let total = rgba.len();
    apply_alpha_rows(
        rgba,
        0,
        width,
        alpha_plane.layout.width,
        alpha_plane.layout.height,
        alpha_plane.layout.subsampling_x,
        alpha_plane.layout.subsampling_y,
        alpha_plane.samples.as_slice(),
        bit_depth,
    );
}

/// The number of whole `width`-pixel rows in `len` RGBA bytes, as the alpha writer
/// counts them, is the largest `n` with `n` rows fitting.
proof fn lemma_whole_rows(len: int, width: int)
    requires
        0 <= len,
        0 < width,
    ensures
        0 <= len / width / 4,
        len / width / 4 * width * 4 <= len < (len / width / 4 + 1) * width * 4,
{
    let q1 = len / width;
    let q2 = q1 / 4;
    vstd::arithmetic::div_mod::lemma_fundamental_div_mod(len, width);
    vstd::arithmetic::div_mod::lemma_mod_bound(len, width);
    vstd::arithmetic::div_mod::lemma_div_pos_is_pos(len, width);
    vstd::arithmetic::div_mod::lemma_fundamental_div_mod(q1, 4);
    vstd::arithmetic::div_mod::lemma_mod_bound(q1, 4);
    vstd::arithmetic::div_mod::lemma_div_pos_is_pos(q1, 4);
    assert(q2 * width * 4 <= len < (q2 + 1) * width * 4) by (nonlinear_arith)
        requires
            len == width * q1 + len % width,
            0 <= len % width < width,
            q1 == 4 * q2 + q1 % 4,
            0 <= q1 % 4 < 4,
            0 < width,
    ;
}

/// A row count `n` with `n` rows fitting in `len` bytes but not `n + 1` is the
/// whole-row count.
proof fn lemma_whole_rows_unique(len: int, width: int, n: int)
    requires
        0 <= len,
        0 < width,
        0 <= n,
        n * width * 4 <= len < (n + 1) * width * 4,
    ensures
        len / width / 4 == n,
{
    lemma_whole_rows(len, width);
    let m = len / width / 4;
    assert(m == n) by (nonlinear_arith)
        requires
            m * width * 4 <= len < (m + 1) * width * 4,
            n * width * 4 <= len < (n + 1) * width * 4,
            0 < width,
    ;
}

/// Byte `j` of a buffer starting `rows` whole rows into a `width`-pixel image lies
/// at pixel (x, rows + y) where (x, y) is its position in the buffer.
proof fn lemma_row_offset_pixel(width: int, rows: int, j: int)
    requires
        0 < width,
        0 <= rows,
        0 <= j,
    ensures
        pixel_x(width, rows * width * 4 + j) == pixel_x(width, j),
        pixel_y(width, rows * width * 4 + j) == rows + pixel_y(width, j),
        (rows * width * 4 + j) % 4 == j % 4,
{
    let i = rows * width * 4 + j;
    let p = j / 4;
    vstd::arithmetic::div_mod::lemma_fundamental_div_mod(j, 4);
    vstd::arithmetic::div_mod::lemma_mod_bound(j, 4);
    vstd::arithmetic::div_mod::lemma_div_pos_is_pos(j, 4);
    assert(i == 4 * (rows * width + p) + j % 4) by (nonlinear_arith)
        requires
            i == rows * width * 4 + j,
            j == 4 * p + j % 4,
    ;
    vstd::arithmetic::div_mod::lemma_fundamental_div_mod_converse(i, 4, rows * width + p, j % 4);
    vstd::arithmetic::div_mod::lemma_fundamental_div_mod(p, width);
    vstd::arithmetic::div_mod::lemma_mod_bound(p, width);
    assert(rows * width + p == width * (rows + p / width) + p % width) by (nonlinear_arith)
        requires
            p == width * (p / width) + p % width,
    ;
    vstd::arithmetic::div_mod::lemma_fundamental_div_mod_converse(rows * width + p, width, rows + p / width, p % width);
}

/// Writing alpha into a run of whole rows on its own, starting from that run's first
/// image row, gives the same bytes as writing it into the whole buffer: the run
/// starts `rows` whole rows in and either holds whole rows only or reaches the end
/// of the buffer. This is why the rows can be split between workers.
pub proof fn lemma_alpha_rows_chunk(
    before: Seq<u8>,
    first_row: usize,
    width: usize,
    alpha_width: usize,
    alpha_height: usize,
    alpha_subsampling_x: u8,
    alpha_subsampling_y: u8,
    alpha_samples: Seq<u16>,
    bit_depth: u8,
    rows: int,
    end: int,
    j: int,
)
    requires
        0 <= rows,
        first_row + rows <= usize::MAX,
        rows * width * 4 <= end <= before.len(),
        end == before.len() || (0 < width && (end - rows * width * 4) % (width * 4) == 0),
        0 <= j < end - rows * width * 4,
    ensures
        alpha_rows_byte(
            before.subrange(rows * width * 4, end),
            (first_row + rows) as usize,
            width,
            alpha_width,
            alpha_height,
            alpha_subsampling_x,
            alpha_subsampling_y,
            alpha_samples,
            bit_depth,
            j,
        ) == alpha_rows_byte(
            before,
            first_row,
            width,
            alpha_width,
            alpha_height,
            alpha_subsampling_x,
            alpha_subsampling_y,
            alpha_samples,
            bit_depth,
            rows * width * 4 + j,
        ),
{
    let start = rows * width * 4;
    let chunk = before.subrange(start, end);
    let i = start + j;
    if width > 0 {
        let w = width as int;
        let total_rows = before.len() as int / w / 4;
        let chunk_rows = chunk.len() as int / w / 4;
        lemma_whole_rows(before.len() as int, w);
        assert(0 <= start) by (nonlinear_arith)
            requires
                0 <= rows,
                0 < w,
                start == rows * w * 4,
        ;
        if end == before.len() {
            assert(rows <= total_rows) by (nonlinear_arith)
                requires
                    rows * w * 4 <= before.len(),
                    before.len() < (total_rows + 1) * w * 4,
                    0 < w,
            ;
            assert((total_rows - rows) * w * 4 <= chunk.len() < (total_rows - rows + 1) * w * 4) by (nonlinear_arith)
                requires
                    chunk.len() == before.len() - rows * w * 4,
                    total_rows * w * 4 <= before.len() < (total_rows + 1) * w * 4,
            ;
            lemma_whole_rows_unique(chunk.len() as int, w, total_rows - rows);
            assert(chunk_rows * w * 4 == total_rows * w * 4 - start) by (nonlinear_arith)
                requires
                    chunk_rows == total_rows - rows,
                    start == rows * w * 4,
            ;
        } else {
            let k = chunk.len() as int / (w * 4);
            vstd::arithmetic::div_mod::lemma_fundamental_div_mod(chunk.len() as int, w * 4);
            vstd::arithmetic::div_mod::lemma_div_pos_is_pos(chunk.len() as int, w * 4);
            assert(k * w * 4 <= chunk.len() < (k + 1) * w * 4) by (nonlinear_arith)
                requires
                    chunk.len() == (w * 4) * k + chunk.len() as int % (w * 4),
                    chunk.len() as int % (w * 4) == 0,
                    0 < w,
            ;
            lemma_whole_rows_unique(chunk.len() as int, w, k);
            assert(chunk.len() == (w * 4) * k);
            assert(end == start + chunk.len());
            assert(rows + k <= total_rows) by (nonlinear_arith)
                requires
                    end == rows * w * 4 + (w * 4) * k,
                    end <= before.len(),
                    before.len() < (total_rows + 1) * w * 4,
                    0 < w,
            ;
            assert(chunk_rows * w * 4 == chunk.len()) by (nonlinear_arith)
                requires
                    chunk_rows == k,
                    chunk.len() == (w * 4) * k,
            ;
            assert(chunk.len() + start <= total_rows * w * 4) by (nonlinear_arith)
                requires
                    rows + k <= total_rows,
                    chunk.len() == (w * 4) * k,
                    start == rows * w * 4,
                    0 < w,
            ;
        }
        lemma_row_offset_pixel(w, rows, j);
    }
}

/// An alpha sample of `source_depth` bits rescaled to `target_depth` bits, rounding
/// to nearest (the result is taken modulo 2^16).
pub open spec fn rescaled_alpha(sample: u16, source_depth: u8, target_depth: u8) -> u16 {
    let source_max = vstd::arithmetic::power2::pow2(source_depth as nat) - 1;
    let target_max = vstd::arithmetic::power2::pow2(target_depth as nat) - 1;
    ((sample * target_max + source_max / 2) / source_max) as u16
}

/// Rescaling the samples between these depths stays within 32-bit arithmetic.
pub open spec fn alpha_rescale_fits(samples: Seq<u16>, source_depth: u8, target_depth: u8) -> bool {
    &&& 1 <= source_depth < 32
    &&& target_depth < 32
    &&& forall|i: int|
        0 <= i < samples.len() ==> #[trigger] samples[i] * (vstd::arithmetic::power2::pow2(target_depth as nat) - 1) + (
        vstd::arithmetic::power2::pow2(source_depth as nat) - 1) / 2 <= u32::MAX
}

/// Some plane of the frame is already its alpha plane (plane index 3).
pub open spec fn has_alpha_plane(planes: Seq<PlaneView>) -> bool {
    exists|p: int| 0 <= p < planes.len() && (#[trigger] planes[p]).layout.plane == 3
}

/// An alpha plane as appended to a frame: marked as plane 3, its samples rescaled
/// from their own bit depth to the frame's.
pub open spec fn appended_alpha(plane: PlaneView, source_depth: u8, target_depth: u8) -> PlaneView {
    PlaneView {
        layout: PlaneLayout { plane: 3, ..plane.layout },
        samples: if source_depth == target_depth {
            plane.samples
        } else {
            Seq::new(plane.samples.len(), |i: int| rescaled_alpha(plane.samples[i], source_depth, target_depth))
        },
    }
}

/// The frame with an alpha plane appended.
pub open spec fn with_alpha_plane(frame: DecodedFrameView, plane: PlaneView, source_depth: u8) -> DecodedFrameView {
    DecodedFrameView {
        buffers: FrameBuffersView {
            planes: frame.buffers.planes.push(appended_alpha(plane, source_depth, frame.bit_depth)),
            ..frame.buffers
        },
        ..frame
    }
}

/// `pow2(depth) - 1` for a depth below 32.
fn depth_max(depth: u8) -> (maximum: u32)
    requires
        depth < 32,
    ensures
        maximum == vstd::arithmetic::power2::pow2(depth as nat) - 1,
{
    proof {
        vstd::arithmetic::power2::lemma_pow2_pos(depth as nat);
        vstd::bits::lemma_u32_pow2_no_overflow(depth as nat);
        vstd::bits::lemma_u32_shl_is_mul(1, depth as u32);
    }
    (1u32 << depth as u32) - 1
}

/// Appends an alpha plane of `alpha_bit_depth`-bit samples to the frame as plane 3,
/// rescaling its samples to the frame's bit depth. An empty plane, or a frame that
/// already has an alpha plane, is a bitstream error that leaves the frame as it was.
pub fn append_alpha_plane_buffer(frame: &mut DecodedFrame, alpha_plane: PlaneBuffer, alpha_bit_depth: u8) -> (result:
    Result<(), DecoderError>)
    requires
        0 < alpha_plane.layout.width && 0 < alpha_plane.layout.height && !has_alpha_plane(old(frame)@.buffers.planes)
            && alpha_bit_depth != old(frame).bit_depth ==> alpha_rescale_fits(
            alpha_plane.samples@,
            alpha_bit_depth,
            old(frame).bit_depth,
        ),
    ensures
        result is Ok <==> 0 < alpha_plane.layout.width && 0 < alpha_plane.layout.height && !has_alpha_plane(
            old(frame)@.buffers.planes,
        ),
        match result {
            Ok(()) => final(frame)@ == with_alpha_plane(old(frame)@, alpha_plane@, alpha_bit_depth),
            Err(error) => error.kind() == ErrorKind::Bitstream && final(frame)@ == old(frame)@,
        },
{
    if alpha_plane.layout.width == 0 || alpha_plane.layout.height == 0 {
        return Err(DecoderError::Bitstream("AVIF alpha plane has zero dimensions".to_string()));
    }
    let mut p: usize = 0;
    while p < frame.buffers.planes.len()
        invariant
            p <= frame.buffers.planes@.len(),
            forall|q: int| 0 <= q < p ==> (#[trigger] frame.buffers.planes@[q]).layout.plane != 3,
        decreases frame.buffers.planes@.len() - p,
    {
        if frame.buffers.planes[p].layout.plane == 3 {
            assert(frame@.buffers.planes[p as int].layout.plane == 3);
            return Err(DecoderError::Bitstream("AVIF primary image contains duplicate alpha planes".to_string()));
        }
        p = p + 1;
    }
    assert(!has_alpha_plane(frame@.buffers.planes)) by {
        if has_alpha_plane(frame@.buffers.planes) {
            let q = choose|q: int| 0 <= q < frame@.buffers.planes.len() && (#[trigger] frame@.buffers.planes[q]).layout.plane == 3;
            assert(frame.buffers.planes@[q].layout.plane == 3);
        }
    }
    let ghost expected = appended_alpha(alpha_plane@, alpha_bit_depth, frame.bit_depth);
    let samples = if alpha_bit_depth != frame.bit_depth {
        let source_max = depth_max(alpha_bit_depth);
        let target_max = depth_max(frame.bit_depth);
        let mut rescaled: Vec<u16> = Vec::new();
        let mut i: usize = 0;
        while i < alpha_plane.samples.len()
            invariant
                i <= alpha_plane.samples@.len(),
                alpha_rescale_fits(alpha_plane.samples@, alpha_bit_depth, frame.bit_depth),
                source_max == vstd::arithmetic::power2::pow2(alpha_bit_depth as nat) - 1,
                target_max == vstd::arithmetic::power2::pow2(frame.bit_depth as nat) - 1,
                rescaled@.len() == i,
                forall|k: int| 0 <= k < i ==> rescaled@[k] == rescaled_alpha(alpha_plane.samples@[k], alpha_bit_depth, frame.bit_depth),
            decreases alpha_plane.samples@.len() - i,
        {
            let sample = alpha_plane.samples[i];
            assert(sample * target_max + source_max / 2 <= u32::MAX);
            proof {
                vstd::arithmetic::power2::lemma_pow2_strictly_increases(0, alpha_bit_depth as nat);
                vstd::arithmetic::power2::lemma2_to64();
            }
            rescaled.push(((sample as u32 * target_max + source_max / 2) / source_max) as u16);
            i = i + 1;
        }
        assert(rescaled@ =~= expected.samples);
        rescaled
    } else {
        alpha_plane.samples
    };
    let layout = PlaneLayout { plane: 3, ..alpha_plane.layout };
    frame.buffers.planes.push(PlaneBuffer { layout, samples });
    proof {
        assert(frame@.buffers.planes =~= old(frame)@.buffers.planes.push(expected));
    }
    Ok(())
}

/// Appends the single plane of a decoded alpha image to the frame (see
/// `append_alpha_plane_buffer`). The alpha image must have the frame's dimensions
/// (else a bitstream error) and exactly one plane (else unsupported).
pub fn append_alpha_plane(frame: &mut DecodedFrame, alpha_frame: &DecodedFrame) -> (result: Result<(), DecoderError>)
    requires
        alpha_frame.width == old(frame).width && alpha_frame.height == old(frame).height && alpha_frame.buffers.planes@.len()
            == 1 && 0 < alpha_frame.buffers.planes@[0].layout.width && 0 < alpha_frame.buffers.planes@[0].layout.height
            && !has_alpha_plane(old(frame)@.buffers.planes) && alpha_frame.bit_depth != old(frame).bit_depth
            ==> alpha_rescale_fits(alpha_frame.buffers.planes@[0].samples@, alpha_frame.bit_depth, old(frame).bit_depth),
    ensures
        match result {
            Ok(()) => {
                &&& alpha_frame.width == old(frame).width && alpha_frame.height == old(frame).height
                &&& alpha_frame@.buffers.planes.len() == 1
                &&& final(frame)@ == with_alpha_plane(old(frame)@, alpha_frame@.buffers.planes[0], alpha_frame.bit_depth)
            },
            Err(error) => final(frame)@ == old(frame)@ && if alpha_frame.width != old(frame).width || alpha_frame.height
                != old(frame).height {
                error.kind() == ErrorKind::Bitstream
            } else if alpha_frame.buffers.planes@.len() != 1 {
                error.kind() == ErrorKind::Unsupported
            } else {
                error.kind() == ErrorKind::Bitstream && (alpha_frame.buffers.planes@[0].layout.width == 0
                    || alpha_frame.buffers.planes@[0].layout.height == 0 || has_alpha_plane(old(frame)@.buffers.planes))
            },
        },
{
    if alpha_frame.width != frame.width || alpha_frame.height != frame.height {
        return Err(DecoderError::Bitstream("AVIF alpha auxiliary dimensions do not match the primary image".to_string()));
    }
    if alpha_frame.buffers.planes.len() != 1 {
        return Err(DecoderError::Unsupported("AVIF alpha auxiliary image must be monochrome".to_string()));
    }
    let source = &alpha_frame.buffers.planes[0];
    let plane = PlaneBuffer { layout: source.layout, samples: vstd::slice::slice_to_vec(source.samples.as_slice()) };
    assert(plane@ == alpha_frame@.buffers.planes[0]);
    append_alpha_plane_buffer(frame, plane, alpha_frame.bit_depth)
}

} // verus!
