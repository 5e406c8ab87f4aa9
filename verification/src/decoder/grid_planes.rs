//! Composition of decoded grid cells into whole planes (before colour conversion)
//! and whole images.
use vstd::prelude::*;
use crate::av1::planes::{PlaneBuffer, PlaneLayout, PlaneView};
use crate::av1::headers::ColorConfig;
use crate::av1::planes::{plane_views, FrameBuffersView};
use crate::container::types::{AvifInfo, ColorInformation, ColorInformationView, GridImage};
use crate::decoder::frame::{color_information_view, frame_views, DecodedFrame, DecodedFrameView};
use crate::decoder::native::{lemma_cell_decode, lemma_cell_encode, plane_covered};
use crate::decoder::still::{cells_fit_bands, compose_grid_images, grid_bytes, lemma_prefix_monotonic, prefix_sum};
use crate::image::ImageBuffer;
use crate::error::{DecoderError, ErrorKind};

verus! {

/// `dest` (rows `dest_width` long) after the first `n` samples, in raster order, of
/// the `copy_width` by `copy_height` window at the top-left of `src` (rows
/// `src_width` long) are copied to (`dx`, `dy`).
pub open spec fn copy_window(
    dest: Seq<u16>,
    dest_width: int,
    dx: int,
    dy: int,
    src: Seq<u16>,
    src_width: int,
    copy_width: int,
    copy_height: int,
    n: int,
) -> Seq<u16> {
    Seq::new(
        dest.len(),
        |i: int|
            {
                let y = i / dest_width;
                let x = i % dest_width;
                if dy <= y < dy + copy_height && dx <= x < dx + copy_width && (y - dy) * copy_width + (x - dx) < n {
                    src[(y - dy) * src_width + (x - dx)]
                } else {
                    dest[i]
                }
            },
    )
}

/// Copies the `copy_width` by `copy_height` window at the top-left of `src` into
/// `dest` at (`dx`, `dy`).
pub fn copy_window_into(
    dest: &mut Vec<u16>,
    dest_width: usize,
    dest_height: usize,
    dx: usize,
    dy: usize,
    src: &[u16],
    src_width: usize,
    copy_width: usize,
    copy_height: usize,
)
    requires
        old(dest)@.len() == dest_width * dest_height,
        dx + copy_width <= dest_width,
        dy + copy_height <= dest_height,
        copy_width <= src_width,
        src_width * copy_height <= src@.len(),
    ensures
        final(dest)@ == copy_window(
            old(dest)@,
            dest_width as int,
            dx as int,
            dy as int,
            src@,
            src_width as int,
            copy_width as int,
            copy_height as int,
            copy_width * copy_height,
        ),
{
    let ghost before = dest@;
    let total = dest.len();
    assert(copy_width * copy_height <= dest_width * dest_height) by (nonlinear_arith)
        requires
            dx + copy_width <= dest_width,
            dy + copy_height <= dest_height,
            0 <= dx,
            0 <= dy,
    ;
    let count = copy_width * copy_height;
    let mut j: usize = 0;
    while j < count
        invariant
            before.len() == dest_width * dest_height,
            dest@.len() == before.len(),
            dx + copy_width <= dest_width,
            dy + copy_height <= dest_height,
            copy_width <= src_width,
            src_width * copy_height <= src@.len(),
            count == copy_width * copy_height,
            j <= count,
            dest@ == copy_window(before, dest_width as int, dx as int, dy as int, src@, src_width as int, copy_width as int, copy_height as int, j as int),
        decreases count - j,
    {
        let row = j / copy_width;
        let column = j % copy_width;
        proof {
            lemma_cell_encode(copy_width as int, copy_height as int, j as int);
            lemma_cell_decode(dest_width as int, dest_height as int, dx + column, dy + row);
            lemma_cell_decode(src_width as int, copy_height as int, column as int, row as int);
        }
        let total = dest.len();
        let target = (dy + row) * dest_width + dx + column;
        let src_total = src.len();
        let value = src[row * src_width + column];
        let ghost previous = dest@;
        dest.set(target, value);
        proof {
            let next = copy_window(before, dest_width as int, dx as int, dy as int, src@, src_width as int, copy_width as int, copy_height as int, j + 1);
            assert forall|i: int| 0 <= i < dest@.len() implies dest@[i] == next[i] by {
                let y = i / dest_width as int;
                let x = i % dest_width as int;
                lemma_cell_encode(dest_width as int, dest_height as int, i);
                if dy <= y < dy + copy_height && dx <= x < dx + copy_width {
                    let window = (y - dy) * copy_width + (x - dx);
                    lemma_cell_decode(copy_width as int, copy_height as int, x - dx, y - dy);
                    if window == j {
                        assert(i == target);
                    } else {
                        assert(i != target);
                    }
                } else {
                    assert(i != target);
                }
            }
            assert(dest@ =~= next);
        }
        j = j + 1;
    }
}

/// The layout of a grid composed into one plane: cell columns and rows (in image
/// samples), the plane's subsampling scales, the plane's size, and whether a row's
/// placement stops advancing at the plane's right edge.
pub struct PlaneGrid {
    pub stops_at_edge: bool,
    pub column_widths: Seq<usize>,
    pub row_heights: Seq<usize>,
    pub scale_x: int,
    pub scale_y: int,
    pub width: int,
    pub height: int,
}

/// The first column, from `c` on, whose cells start at or past the plane's right
/// edge (the column count if none).
pub open spec fn first_outside(sizes: Seq<usize>, scale: int, limit: int, c: int) -> int
    decreases sizes.len() - c,
{
    if c >= sizes.len() {
        sizes.len() as int
    } else if prefix_sum(sizes, c) / scale >= limit {
        c
    } else {
        first_outside(sizes, scale, limit, c + 1)
    }
}

/// The image-sample row at which the cells of grid row `r` are placed.
pub open spec fn row_offset(grid: PlaneGrid, r: int) -> int {
    prefix_sum(grid.row_heights, r)
}

/// The image-sample column at which cell (`r`, `c`) is placed: the sum of the
/// widths of the columns before it. Where placement stops at the edge, it stops
/// advancing at the first cell that starts past the plane's right edge, and stays 0
/// in a row that starts past the plane's bottom edge.
pub open spec fn column_offset(grid: PlaneGrid, r: int, c: int) -> int {
    let c0 = first_outside(grid.column_widths, grid.scale_x, grid.width, 0);
    if !grid.stops_at_edge {
        prefix_sum(grid.column_widths, c)
    } else if row_offset(grid, r) / grid.scale_y < grid.height {
        prefix_sum(grid.column_widths, if c < c0 { c } else { c0 })
    } else {
        0
    }
}

/// Cell (`r`, `c`) is placed on sample boundaries of the plane.
pub open spec fn cell_aligned(grid: PlaneGrid, r: int, c: int) -> bool {
    row_offset(grid, r) % grid.scale_y == 0 && column_offset(grid, r, c) % grid.scale_x == 0
}

/// Cell (`r`, `c`) starts inside the plane, so part of it is copied.
pub open spec fn cell_copied(grid: PlaneGrid, r: int, c: int) -> bool {
    column_offset(grid, r, c) / grid.scale_x < grid.width && row_offset(grid, r) / grid.scale_y < grid.height
}

/// The plane after the first `k` cells, in raster order, are copied in: a cell that
/// starts inside the plane contributes its top-left window, clipped to the plane;
/// a later cell overwrites an earlier one; samples no cell covers are zero.
pub open spec fn composed_plane(grid: PlaneGrid, cells: Seq<PlaneView>, k: int) -> Seq<u16>
    decreases k,
{
    if k <= 0 {
        Seq::new((grid.width * grid.height) as nat, |i: int| 0u16)
    } else {
        let previous = composed_plane(grid, cells, k - 1);
        let columns = grid.column_widths.len() as int;
        let r = (k - 1) / columns;
        let c = (k - 1) % columns;
        if cell_copied(grid, r, c) {
            let source = cells[k - 1];
            let dx = column_offset(grid, r, c) / grid.scale_x;
            let dy = row_offset(grid, r) / grid.scale_y;
            let copy_width = if source.layout.width < grid.width - dx { source.layout.width as int } else { grid.width - dx };
            let copy_height = if source.layout.height < grid.height - dy { source.layout.height as int } else { grid.height - dy };
            copy_window(previous, grid.width, dx, dy, source.samples, source.layout.width as int, copy_width, copy_height, copy_width * copy_height)
        } else {
            previous
        }
    }
}

/// Plane `plane_index` of each of the first `count` cells.
pub open spec fn cell_planes(cells: Seq<DecodedFrameView>, plane_index: int, count: int) -> Seq<PlaneView> {
    Seq::new(count as nat, |k: int| cells[k].buffers.planes[plane_index])
}

/// Every cell's plane `plane_index` has the given subsampling.
pub open spec fn cell_subsampling_matches(cells: Seq<DecodedFrameView>, plane_index: int, count: int, subsampling_x: u8, subsampling_y: u8) -> bool {
    forall|k: int|
        0 <= k < count ==> (#[trigger] cells[k]).buffers.planes[plane_index].layout.subsampling_x == subsampling_x
            && cells[k].buffers.planes[plane_index].layout.subsampling_y == subsampling_y
}

/// Every cell of the grid is placed on sample boundaries.
pub open spec fn grid_aligned(grid: PlaneGrid) -> bool {
    forall|r: int, c: int|
        0 <= r < grid.row_heights.len() && 0 <= c < grid.column_widths.len() ==> #[trigger] cell_aligned(grid, r, c)
}

/// The search for the first column outside the plane stops at a column that is
/// outside, after columns that are all inside.
pub proof fn lemma_first_outside(sizes: Seq<usize>, scale: int, limit: int, start: int)
    requires
        0 <= start <= sizes.len(),
    ensures
        start <= first_outside(sizes, scale, limit, start) <= sizes.len(),
        forall|c: int| start <= c < first_outside(sizes, scale, limit, start) ==> #[trigger] prefix_sum(sizes, c) / scale < limit,
        first_outside(sizes, scale, limit, start) < sizes.len() ==> prefix_sum(sizes, first_outside(sizes, scale, limit, start)) / scale >= limit,
    decreases sizes.len() - start,
{
    if start < sizes.len() && prefix_sum(sizes, start) / scale < limit {
        lemma_first_outside(sizes, scale, limit, start + 1);
    }
}

/// The sum of all sizes, or `None` where it does not fit a `usize`.
pub fn band_total(sizes: &[usize]) -> (total: Option<usize>)
    ensures
        match total {
            Some(t) => t == prefix_sum(sizes@, sizes@.len() as int),
            None => prefix_sum(sizes@, sizes@.len() as int) > usize::MAX,
        },
{
    let mut total: usize = 0;
    let mut k: usize = 0;
    while k < sizes.len()
        invariant
            k <= sizes@.len(),
            total == prefix_sum(sizes@, k as int),
        decreases sizes@.len() - k,
    {
        if total > usize::MAX - sizes[k] {
            proof {
                lemma_prefix_monotonic(sizes@, k + 1, sizes@.len() as int);
            }
            return None;
        }
        total = total + sizes[k];
        k = k + 1;
    }
    Some(total)
}

/// Composes plane `plane_index` of the decoded cells, in raster order, into a plane
/// of `width` by `height` samples (see `composed_plane`). A cell whose plane has
/// another subsampling, or that is placed off the plane's sample boundaries, is
/// unsupported.
pub fn compose_grid_plane(
    stops_at_edge: bool,
    cells: &[DecodedFrame],
    plane_index: usize,
    column_widths: &[usize],
    row_heights: &[usize],
    subsampling_x: u8,
    subsampling_y: u8,
    scale_x: usize,
    scale_y: usize,
    width: usize,
    height: usize,
) -> (result: Result<Vec<u16>, DecoderError>)
    requires
        0 < scale_x,
        0 < scale_y,
        width * height <= usize::MAX,
        prefix_sum(column_widths@, column_widths@.len() as int) <= usize::MAX,
        prefix_sum(row_heights@, row_heights@.len() as int) <= usize::MAX,
        column_widths@.len() * row_heights@.len() <= cells@.len(),
        forall|k: int|
            0 <= k < column_widths@.len() * row_heights@.len() ==> plane_index < (#[trigger] cells@[k]).buffers.planes@.len()
                && plane_covered(cells@[k].buffers.planes@[plane_index as int]@),
    ensures
        ({
            let grid = PlaneGrid {
                stops_at_edge,
                column_widths: column_widths@,
                row_heights: row_heights@,
                scale_x: scale_x as int,
                scale_y: scale_y as int,
                width: width as int,
                height: height as int,
            };
            let count = (column_widths@.len() * row_heights@.len()) as int;
            let views = frame_views(cells@);
            &&& result is Ok <==> cell_subsampling_matches(views, plane_index as int, count, subsampling_x, subsampling_y)
                && grid_aligned(grid)
            &&& match result {
                Ok(samples) => samples@ == composed_plane(grid, cell_planes(views, plane_index as int, count), count),
                Err(error) => error.kind() == ErrorKind::Unsupported,
            }
        }),
{
    let ghost grid = PlaneGrid {
        stops_at_edge,
        column_widths: column_widths@,
        row_heights: row_heights@,
        scale_x: scale_x as int,
        scale_y: scale_y as int,
        width: width as int,
        height: height as int,
    };
    let ghost views = frame_views(cells@);
    let columns = column_widths.len();
    let rows = row_heights.len();
    let ghost count = (columns * rows) as int;
    let ghost planes = cell_planes(views, plane_index as int, count);
    let ghost c0 = first_outside(column_widths@, scale_x as int, width as int, 0);
    proof {
        lemma_first_outside(column_widths@, scale_x as int, width as int, 0);
    }
    let area = width * height;
    let mut samples: Vec<u16> = Vec::new();
    let mut i: usize = 0;
    while i < area
        invariant
            i <= area,
            samples@.len() == i,
            forall|j: int| 0 <= j < i ==> samples@[j] == 0u16,
        decreases area - i,
    {
        samples.push(0);
        i = i + 1;
    }
    assert(samples@ =~= composed_plane(grid, planes, 0));
    let mut y_offset: usize = 0;
    let mut row: usize = 0;
    while row < rows
        invariant
            grid == (PlaneGrid {
                stops_at_edge,
                column_widths: column_widths@,
                row_heights: row_heights@,
                scale_x: scale_x as int,
                scale_y: scale_y as int,
                width: width as int,
                height: height as int,
            }),
            views == frame_views(cells@),
            count == columns * rows,
            planes == cell_planes(views, plane_index as int, count),
            c0 == first_outside(column_widths@, scale_x as int, width as int, 0),
            0 <= c0 <= columns,
            forall|c: int| 0 <= c < c0 ==> #[trigger] prefix_sum(column_widths@, c) / (scale_x as int) < width,
            (c0 < columns) ==> prefix_sum(column_widths@, c0) / (scale_x as int) >= width,
            columns == column_widths@.len(),
            rows == row_heights@.len(),
            0 < scale_x,
            0 < scale_y,
            area == width * height,
            prefix_sum(column_widths@, columns as int) <= usize::MAX,
            prefix_sum(row_heights@, rows as int) <= usize::MAX,
            columns * rows <= cells@.len(),
            forall|k: int|
                0 <= k < columns * rows ==> plane_index < (#[trigger] cells@[k]).buffers.planes@.len()
                    && plane_covered(cells@[k].buffers.planes@[plane_index as int]@),
            row <= rows,
            y_offset == prefix_sum(row_heights@, row as int),
            samples@.len() == area,
            samples@ == composed_plane(grid, planes, row * columns),
            forall|k: int| 0 <= k < row * columns ==> (#[trigger] views[k]).buffers.planes[plane_index as int].layout.subsampling_x
                == subsampling_x && views[k].buffers.planes[plane_index as int].layout.subsampling_y == subsampling_y,
            forall|r: int, c: int| 0 <= r < row && 0 <= c < columns ==> #[trigger] cell_aligned(grid, r, c),
        decreases rows - row,
    {
        let mut x_offset: usize = 0;
        let mut column: usize = 0;
        proof {
            lemma_prefix_monotonic(row_heights@, row as int, rows as int);
        }
        while column < columns
            invariant
                grid == (PlaneGrid {
                    stops_at_edge,
                    column_widths: column_widths@,
                    row_heights: row_heights@,
                    scale_x: scale_x as int,
                    scale_y: scale_y as int,
                    width: width as int,
                    height: height as int,
                }),
                views == frame_views(cells@),
                count == columns * rows,
                planes == cell_planes(views, plane_index as int, count),
                c0 == first_outside(column_widths@, scale_x as int, width as int, 0),
                0 <= c0 <= columns,
                forall|c: int| 0 <= c < c0 ==> #[trigger] prefix_sum(column_widths@, c) / (scale_x as int) < width,
                (c0 < columns) ==> prefix_sum(column_widths@, c0) / (scale_x as int) >= width,
                columns == column_widths@.len(),
                rows == row_heights@.len(),
                0 < scale_x,
                0 < scale_y,
                area == width * height,
                samples@.len() == area,
                prefix_sum(column_widths@, columns as int) <= usize::MAX,
                prefix_sum(row_heights@, rows as int) <= usize::MAX,
                columns * rows <= cells@.len(),
                forall|k: int|
                    0 <= k < columns * rows ==> plane_index < (#[trigger] cells@[k]).buffers.planes@.len()
                        && plane_covered(cells@[k].buffers.planes@[plane_index as int]@),
                row < rows,
                column <= columns,
                y_offset == prefix_sum(row_heights@, row as int),
                y_offset <= prefix_sum(row_heights@, rows as int),
                x_offset == column_offset(grid, row as int, column as int),
                samples@ == composed_plane(grid, planes, row * columns + column),
                forall|k: int| 0 <= k < row * columns + column ==> (#[trigger] views[k]).buffers.planes[plane_index as int].layout.subsampling_x
                    == subsampling_x && views[k].buffers.planes[plane_index as int].layout.subsampling_y == subsampling_y,
                forall|r: int, c: int| 0 <= r < row && 0 <= c < columns ==> #[trigger] cell_aligned(grid, r, c),
                forall|c: int| 0 <= c < column ==> #[trigger] cell_aligned(grid, row as int, c),
            decreases columns - column,
        {
            assert(row * columns + column < columns * rows) by (nonlinear_arith)
                requires
                    row < rows,
                    column < columns,
            ;
            let cell_total = cells.len();
            let index = row * columns + column;
            proof {
                assert(views[index as int] == cells@[index as int]@);
                lemma_prefix_monotonic(column_widths@, if (column as int) < c0 { column as int } else { c0 }, columns as int);
                assert(index as int / columns as int == row && index as int % columns as int == column) by {
                    vstd::arithmetic::div_mod::lemma_fundamental_div_mod_converse(index as int, columns as int, row as int, column as int);
                }
            }
            let source = &cells[index].buffers.planes[plane_index];
            if source.layout.subsampling_x != subsampling_x || source.layout.subsampling_y != subsampling_y {
                return Err(DecoderError::Unsupported("grid cells use different chroma subsampling".to_string()));
            }
            if x_offset % scale_x != 0 || y_offset % scale_y != 0 {
                assert(!cell_aligned(grid, row as int, column as int));
                return Err(DecoderError::Unsupported("grid cell boundary is not aligned to chroma samples".to_string()));
            }
            let destination_x = x_offset / scale_x;
            let destination_y = y_offset / scale_y;
            if destination_x < width && destination_y < height {
                let copy_width = if source.layout.width < width - destination_x { source.layout.width } else { width - destination_x };
                let copy_height = if source.layout.height < height - destination_y { source.layout.height } else { height - destination_y };
                proof {
                    let layout = source.layout;
                    assert(layout.width * copy_height <= layout.width * layout.height) by (nonlinear_arith)
                        requires
                            copy_height <= layout.height,
                    ;
                }
                copy_window_into(
                    &mut samples,
                    width,
                    height,
                    destination_x,
                    destination_y,
                    source.samples.as_slice(),
                    source.layout.width,
                    copy_width,
                    copy_height,
                );
                proof {
                    if (column as int) >= c0 {
                        assert(prefix_sum(column_widths@, c0) / (scale_x as int) >= width);
                    }
                    lemma_prefix_monotonic(column_widths@, column as int + 1, columns as int);
                }
                x_offset = x_offset + column_widths[column];
            } else if stops_at_edge {
                proof {
                    if row_offset(grid, row as int) / (scale_y as int) < height {
                        if (column as int) < c0 {
                            assert(prefix_sum(column_widths@, column as int) / (scale_x as int) < width);
                        }
                    }
                }
            } else {
                proof {
                    lemma_prefix_monotonic(column_widths@, column as int + 1, columns as int);
                }
                x_offset = x_offset + column_widths[column];
            }
            column = column + 1;
        }
        proof {
            assert((row + 1) * columns == row * columns + columns) by (nonlinear_arith);
        }
        proof {
            lemma_prefix_monotonic(row_heights@, row + 1, rows as int);
        }
        y_offset = y_offset + row_heights[row];
        row = row + 1;
    }
    assert(rows * columns == columns * rows) by (nonlinear_arith);
    Ok(samples)
}

/// Every plane of a decoded frame holds its samples, and its subsampling shifts are
/// below the width of `usize`.
pub open spec fn decoded_planes_valid(frame: DecodedFrameView) -> bool {
    forall|p: int|
        0 <= p < frame.buffers.planes.len() ==> plane_covered(#[trigger] frame.buffers.planes[p])
            && frame.buffers.planes[p].layout.subsampling_x < usize::BITS && frame.buffers.planes[p].layout.subsampling_y
            < usize::BITS
}

/// The width of grid cell (`r`, `c`).
pub open spec fn cell_width(grid: GridImage, r: int, c: int) -> u32 {
    grid.cells@[r * grid.columns + c].width
}

/// The height of grid cell (`r`, `c`).
pub open spec fn cell_height(grid: GridImage, r: int, c: int) -> u32 {
    grid.cells@[r * grid.columns + c].height
}

/// Along each column, a cell after one of nonzero width has that width; along each
/// row, a cell after one of nonzero height has that height.
pub open spec fn grid_cells_consistent(grid: GridImage) -> bool {
    &&& forall|r: int, c: int|
        1 <= r < grid.rows && 0 <= c < grid.columns ==> #[trigger] cell_width(grid, r - 1, c) == 0 || cell_width(grid, r - 1, c)
            == cell_width(grid, r, c)
    &&& forall|r: int, c: int|
        0 <= r < grid.rows && 1 <= c < grid.columns ==> #[trigger] cell_height(grid, r, c - 1) == 0 || cell_height(grid, r, c - 1)
            == cell_height(grid, r, c)
}

/// Each grid cell has a decoded frame of the declared size.
pub open spec fn decoded_cells_match(grid: GridImage, decoded: Seq<DecodedFrameView>) -> bool {
    &&& grid.rows * grid.columns <= decoded.len()
    &&& forall|r: int, c: int|
        0 <= r < grid.rows && 0 <= c < grid.columns ==> (#[trigger] decoded[r * grid.columns + c]).width == cell_width(grid, r, c)
            && decoded[r * grid.columns + c].height == cell_height(grid, r, c)
}

/// The width of each grid column: that of its cell in the last row (zero without rows).
pub open spec fn grid_column_widths(grid: GridImage) -> Seq<usize> {
    Seq::new(grid.columns as nat, |c: int| if grid.rows > 0 { cell_width(grid, grid.rows - 1, c) as usize } else { 0usize })
}

/// The height of each grid row: that of its cell in the last column (zero without
/// columns).
pub open spec fn grid_row_heights(grid: GridImage) -> Seq<usize> {
    Seq::new(grid.rows as nat, |r: int| if grid.columns > 0 { cell_height(grid, r, grid.columns - 1) as usize } else { 0usize })
}

/// What is wrong, if anything, with a decoded alpha cell next to the first one: no
/// plane (a bitstream error), or another subsampling or bit depth (unsupported).
pub open spec fn alpha_cell_issue(first: DecodedFrameView, cell: DecodedFrameView) -> Option<ErrorKind> {
    if cell.buffers.planes.len() == 0 {
        Some(ErrorKind::Bitstream)
    } else if cell.buffers.planes[0].layout.subsampling_x != first.buffers.planes[0].layout.subsampling_x
        || cell.buffers.planes[0].layout.subsampling_y != first.buffers.planes[0].layout.subsampling_y
        || cell.bit_depth != first.bit_depth {
        Some(ErrorKind::Unsupported)
    } else {
        None
    }
}

/// The issue of the first of the first `n` cells that has one.
pub open spec fn first_alpha_cell_issue(first: DecodedFrameView, cells: Seq<DecodedFrameView>, n: int) -> Option<ErrorKind>
    decreases n,
{
    if n <= 0 {
        None
    } else {
        match first_alpha_cell_issue(first, cells, n - 1) {
            Some(kind) => Some(kind),
            None => alpha_cell_issue(first, cells[n - 1]),
        }
    }
}

/// `value` divided by `2^shift`, rounded up.
pub open spec fn ceil_pow2(value: int, shift: nat) -> int {
    (value + vstd::arithmetic::power2::pow2(shift) - 1) / (vstd::arithmetic::power2::pow2(shift) as int)
}

/// Halving (rounding up) or keeping a size never makes it larger.
proof fn lemma_ceil_pow2_at_most(value: int, shift: nat)
    requires
        0 <= value,
        shift <= 1,
    ensures
        0 <= ceil_pow2(value, shift) <= value,
{
    vstd::arithmetic::power2::lemma2_to64();
    if shift == 0 {
        assert(ceil_pow2(value, shift) == value);
    } else {
        assert(ceil_pow2(value, shift) == (value + 1) / 2);
    }
}

/// What composing the decoded cells of an alpha grid gives: the alpha plane (plane
/// 3, at the output size in the cells' subsampling) and its bit depth, or the kind
/// of the first error, checked in this order: the cell count, an empty output, cell
/// sizes along columns and rows and against their decoded frames, cells that do
/// not cover the output, cells without planes or of another configuration, a plane
/// too large to address, and cells off the sample grid.
pub open spec fn alpha_grid_plane_outcome(grid: GridImage, decoded: Seq<DecodedFrameView>) -> Result<(PlaneView, u8), ErrorKind> {
    let rows = grid.rows as int;
    let columns = grid.columns as int;
    let width = grid.output_width as int;
    let height = grid.output_height as int;
    let widths = grid_column_widths(grid);
    let heights = grid_row_heights(grid);
    if grid.cells@.len() != rows * columns {
        Err(ErrorKind::Bitstream)
    } else if width == 0 || height == 0 {
        Err(ErrorKind::Bitstream)
    } else if !grid_cells_consistent(grid) || !decoded_cells_match(grid, decoded) {
        Err(ErrorKind::Bitstream)
    } else if prefix_sum(widths, columns) > usize::MAX || prefix_sum(heights, rows) > usize::MAX {
        Err(ErrorKind::InvalidParam)
    } else if prefix_sum(widths, columns) < width || prefix_sum(heights, rows) < height {
        Err(ErrorKind::Bitstream)
    } else if decoded.len() == 0 || decoded[0].buffers.planes.len() == 0 {
        Err(ErrorKind::Bitstream)
    } else if first_alpha_cell_issue(decoded[0], decoded, decoded.len() as int) is Some {
        Err(first_alpha_cell_issue(decoded[0], decoded, decoded.len() as int)->Some_0)
    } else {
        let source = decoded[0].buffers.planes[0].layout;
        let plane_width = ceil_pow2(width, source.subsampling_x as nat);
        let plane_height = ceil_pow2(height, source.subsampling_y as nat);
        let plane_grid = PlaneGrid {
            stops_at_edge: true,
            column_widths: widths,
            row_heights: heights,
            scale_x: vstd::arithmetic::power2::pow2(source.subsampling_x as nat) as int,
            scale_y: vstd::arithmetic::power2::pow2(source.subsampling_y as nat) as int,
            width: plane_width,
            height: plane_height,
        };
        if plane_width * plane_height > usize::MAX {
            Err(ErrorKind::InvalidParam)
        } else if !grid_aligned(plane_grid) {
            Err(ErrorKind::Unsupported)
        } else {
            Ok(
                (
                    PlaneView {
                        layout: PlaneLayout {
                            plane: 3,
                            width: plane_width as usize,
                            height: plane_height as usize,
                            subsampling_x: source.subsampling_x,
                            subsampling_y: source.subsampling_y,
                            sample_count: (plane_width * plane_height) as usize,
                        },
                        samples: composed_plane(plane_grid, cell_planes(decoded, 0, rows * columns), rows * columns),
                    },
                    decoded[0].bit_depth,
                ),
            )
        }
    }
}

/// `2^shift` for a shift below the width of `usize`.
fn shift_scale(shift: u8) -> (scale: usize)
    requires
        shift < usize::BITS,
    ensures
        scale == vstd::arithmetic::power2::pow2(shift as nat),
        0 < scale,
{
    proof {
        vstd::bits::lemma_usize_pow2_no_overflow(shift as nat);
        vstd::bits::lemma_usize_shl_is_mul(1, shift as usize);
        vstd::arithmetic::power2::lemma_pow2_pos(shift as nat);
    }
    1usize << shift as usize
}

/// Checks the cell sizes of a grid along its columns and rows, and returns the
/// column widths and row heights.
pub fn grid_band_sizes(grid: &GridImage, what: &str) -> (result: Result<(Vec<usize>, Vec<usize>), DecoderError>)
    requires
        grid.cells@.len() == grid.rows * grid.columns,
    ensures
        match result {
            Ok((widths, heights)) => {
                &&& grid_cells_consistent(*grid)
                &&& widths@ == grid_column_widths(*grid)
                &&& heights@ == grid_row_heights(*grid)
            },
            Err(error) => error.kind() == ErrorKind::Bitstream && !grid_cells_consistent(*grid),
        },
{
    let rows = grid.rows as usize;
    let columns = grid.columns as usize;
    let mut column_widths: Vec<usize> = Vec::new();
    let mut c: usize = 0;
    while c < columns
        invariant
            c <= columns,
            column_widths@.len() == c,
            forall|k: int| 0 <= k < c ==> column_widths@[k] == 0usize,
        decreases columns - c,
    {
        column_widths.push(0);
        c = c + 1;
    }
    let mut row_heights: Vec<usize> = Vec::new();
    let mut r: usize = 0;
    while r < rows
        invariant
            r <= rows,
            row_heights@.len() == r,
            forall|k: int| 0 <= k < r ==> row_heights@[k] == 0usize,
        decreases rows - r,
    {
        row_heights.push(0);
        r = r + 1;
    }
    let mut row: usize = 0;
    while row < rows
        invariant
            rows == grid.rows,
            columns == grid.columns,
            grid.cells@.len() == rows * columns,
            row <= rows,
            column_widths@.len() == columns,
            row_heights@.len() == rows,
            forall|k: int| 0 <= k < columns ==> column_widths@[k] == if row > 0 { cell_width(*grid, row - 1, k) as usize } else { 0usize },
            forall|k: int| 0 <= k < rows ==> row_heights@[k] == if k < row && columns > 0 { cell_height(*grid, k, columns - 1) as usize } else { 0usize },
            forall|r: int, c: int|
                1 <= r < row && 0 <= c < columns ==> #[trigger] cell_width(*grid, r - 1, c) == 0 || cell_width(*grid, r - 1, c)
                    == cell_width(*grid, r, c),
            forall|r: int, c: int|
                0 <= r < row && 1 <= c < columns ==> #[trigger] cell_height(*grid, r, c - 1) == 0 || cell_height(*grid, r, c - 1)
                    == cell_height(*grid, r, c),
        decreases rows - row,
    {
        let mut column: usize = 0;
        while column < columns
            invariant
                rows == grid.rows,
                columns == grid.columns,
                grid.cells@.len() == rows * columns,
                row < rows,
                column <= columns,
                column_widths@.len() == columns,
                row_heights@.len() == rows,
                forall|k: int| 0 <= k < columns ==> column_widths@[k] == if k < column { cell_width(*grid, row as int, k) as usize } else if row > 0 { cell_width(*grid, row - 1, k) as usize } else { 0usize },
                forall|k: int| 0 <= k < rows ==> row_heights@[k] == if k < row && columns > 0 { cell_height(*grid, k, columns - 1) as usize } else if k == row && column > 0 { cell_height(*grid, k, column - 1) as usize } else { 0usize },
                forall|r: int, c: int|
                    1 <= r < row && 0 <= c < columns ==> #[trigger] cell_width(*grid, r - 1, c) == 0 || cell_width(*grid, r - 1, c)
                        == cell_width(*grid, r, c),
                forall|c: int| 0 <= c < column && row >= 1 ==> #[trigger] cell_width(*grid, row - 1, c) == 0 || cell_width(*grid, row - 1, c)
                    == cell_width(*grid, row as int, c),
                forall|r: int, c: int|
                    0 <= r < row && 1 <= c < columns ==> #[trigger] cell_height(*grid, r, c - 1) == 0 || cell_height(*grid, r, c - 1)
                        == cell_height(*grid, r, c),
                forall|c: int| 1 <= c < column ==> #[trigger] cell_height(*grid, row as int, c - 1) == 0 || cell_height(*grid, row as int, c - 1)
                    == cell_height(*grid, row as int, c),
            decreases columns - column,
        {
            assert(row * columns + column < rows * columns) by (nonlinear_arith)
                requires
                    row < rows,
                    column < columns,
            ;
            let total_cells = grid.cells.len();
            let index = row * columns + column;
            let cell_w = grid.cells[index].width as usize;
            let cell_h = grid.cells[index].height as usize;
            assert(cell_w == cell_width(*grid, row as int, column as int));
            assert(cell_h == cell_height(*grid, row as int, column as int));
            if column_widths[column] != 0 && column_widths[column] != cell_w {
                proof {
                    assert(!grid_cells_consistent(*grid)) by {
                        assert(cell_width(*grid, row - 1, column as int) != 0);
                    }
                }
                return Err(DecoderError::Bitstream(crate::text::concat(what, " cells in one column have different widths")));
            }
            if row_heights[row] != 0 && row_heights[row] != cell_h {
                proof {
                    assert(!grid_cells_consistent(*grid)) by {
                        assert(cell_height(*grid, row as int, column - 1) != 0);
                    }
                }
                return Err(DecoderError::Bitstream(crate::text::concat(what, " cells in one row have different heights")));
            }
            column_widths.set(column, cell_w);
            row_heights.set(row, cell_h);
            column = column + 1;
        }
        row = row + 1;
    }
    proof {
        assert(column_widths@ =~= grid_column_widths(*grid));
        assert(row_heights@ =~= grid_row_heights(*grid));
    }
    Ok((column_widths, row_heights))
}

/// Whether each grid cell has a decoded frame of the declared size.
fn decoded_sizes_match(grid: &GridImage, decoded: &[DecodedFrame]) -> (matched: bool)
    requires
        grid.cells@.len() == grid.rows * grid.columns,
    ensures
        matched == decoded_cells_match(*grid, frame_views(decoded@)),
{
    let ghost views = frame_views(decoded@);
    let rows = grid.rows as usize;
    let columns = grid.columns as usize;
    let mut row: usize = 0;
    while row < rows
        invariant
            views == frame_views(decoded@),
            rows == grid.rows,
            columns == grid.columns,
            grid.cells@.len() == rows * columns,
            row <= rows,
            forall|r: int, c: int|
                0 <= r < row && 0 <= c < columns ==> r * columns + c < decoded@.len() && (#[trigger] views[r * columns + c]).width
                    == cell_width(*grid, r, c) && views[r * columns + c].height == cell_height(*grid, r, c),
        decreases rows - row,
    {
        let mut column: usize = 0;
        while column < columns
            invariant
                views == frame_views(decoded@),
                rows == grid.rows,
                columns == grid.columns,
                grid.cells@.len() == rows * columns,
                row < rows,
                column <= columns,
                forall|r: int, c: int|
                    0 <= r < row && 0 <= c < columns ==> r * columns + c < decoded@.len() && (#[trigger] views[r * columns + c]).width
                        == cell_width(*grid, r, c) && views[r * columns + c].height == cell_height(*grid, r, c),
                forall|c: int|
                    0 <= c < column ==> row * columns + c < decoded@.len() && (#[trigger] views[row * columns + c]).width
                        == cell_width(*grid, row as int, c) && views[row * columns + c].height == cell_height(*grid, row as int, c),
            decreases columns - column,
        {
            assert(row * columns + column < rows * columns) by (nonlinear_arith)
                requires
                    row < rows,
                    column < columns,
            ;
            let total_cells = grid.cells.len();
            let index = row * columns + column;
            if index >= decoded.len() {
                proof {
                    assert(grid.rows * grid.columns > index) by (nonlinear_arith)
                        requires
                            index == row * columns + column,
                            row < rows,
                            column < columns,
                            rows == grid.rows,
                            columns == grid.columns,
                    ;
                }
                return false;
            }
            if decoded[index].width != grid.cells[index].width as usize || decoded[index].height != grid.cells[index].height as usize {
                proof {
                    assert(views[index as int] == decoded@[index as int]@);
                    if grid.rows * grid.columns <= views.len() {
                        assert(!(views[row * columns + column].width == cell_width(*grid, row as int, column as int)
                            && views[row * columns + column].height == cell_height(*grid, row as int, column as int)));
                    }
                }
                return false;
            }
            assert(views[index as int] == decoded@[index as int]@);
            column = column + 1;
        }
        row = row + 1;
    }
    proof {
        if rows * columns > decoded@.len() {
            if rows > 0 && columns > 0 {
                let last_row = rows - 1;
                let last_column = columns - 1;
                assert(views[last_row * columns + last_column].width == cell_width(*grid, last_row, last_column));
                assert(last_row * columns + last_column == rows * columns - 1) by (nonlinear_arith)
                    requires
                        last_row == rows - 1,
                        last_column == columns - 1,
                ;
            } else {
                assert(rows * columns == 0) by (nonlinear_arith)
                    requires
                        !(rows > 0 && columns > 0),
                        rows >= 0,
                        columns >= 0,
                ;
            }
        }
    }
    true
}

/// Checks the cell sizes of a grid along its columns and rows and against the
/// decoded cells, and returns the column widths and row heights.
fn grid_bands(grid: &GridImage, decoded: &[DecodedFrame], what: &str) -> (result: Result<(Vec<usize>, Vec<usize>), DecoderError>)
    requires
        grid.cells@.len() == grid.rows * grid.columns,
    ensures
        match result {
            Ok((widths, heights)) => {
                &&& grid_cells_consistent(*grid)
                &&& decoded_cells_match(*grid, frame_views(decoded@))
                &&& widths@ == grid_column_widths(*grid)
                &&& heights@ == grid_row_heights(*grid)
            },
            Err(error) => error.kind() == ErrorKind::Bitstream && !(grid_cells_consistent(*grid) && decoded_cells_match(
                *grid,
                frame_views(decoded@),
            )),
        },
{
    let bands = grid_band_sizes(grid, what)?;
    if !decoded_sizes_match(grid, decoded) {
        return Err(DecoderError::Bitstream(crate::text::concat(what, " cell decoded size differs from its metadata")));
    }
    Ok(bands)
}

/// Composes the decoded cells of an alpha grid into one alpha plane, returned with
/// its bit depth (see `alpha_grid_plane_outcome`).
pub fn compose_alpha_grid_plane(grid: &GridImage, decoded_cells: &[DecodedFrame]) -> (result: Result<(PlaneBuffer, u8), DecoderError>)
    requires
        forall|k: int| 0 <= k < decoded_cells@.len() ==> decoded_planes_valid((#[trigger] decoded_cells@[k])@),
    ensures
        match (result, alpha_grid_plane_outcome(*grid, frame_views(decoded_cells@))) {
            (Ok((plane, depth)), Ok((expected, expected_depth))) => plane@ == expected && depth == expected_depth,
            (Err(error), Err(kind)) => error.kind() == kind,
            _ => false,
        },
{
    let ghost views = frame_views(decoded_cells@);
    let rows = grid.rows as usize;
    let columns = grid.columns as usize;
    assert(rows * columns <= 255 * 255) by (nonlinear_arith)
        requires
            rows <= 255,
            columns <= 255,
    ;
    let cell_count = rows * columns;
    if grid.cells.len() != cell_count {
        return Err(DecoderError::Bitstream("AVIF alpha grid cell count does not match its dimensions".to_string()));
    }
    let width = grid.output_width as usize;
    let height = grid.output_height as usize;
    if width == 0 || height == 0 {
        return Err(DecoderError::Bitstream("alpha grid output dimensions must be non-zero".to_string()));
    }
    let (column_widths, row_heights) = grid_bands(grid, decoded_cells, "alpha grid")?;
    let total_width = match band_total(column_widths.as_slice()) {
        Some(total) => total,
        None => return Err(DecoderError::InvalidParam("alpha grid column widths overflow".to_string())),
    };
    let total_height = match band_total(row_heights.as_slice()) {
        Some(total) => total,
        None => return Err(DecoderError::InvalidParam("alpha grid row heights overflow".to_string())),
    };
    if total_width < width || total_height < height {
        return Err(DecoderError::Bitstream("alpha grid cell dimensions do not cover the declared output".to_string()));
    }
    if decoded_cells.len() == 0 {
        return Err(DecoderError::Bitstream("alpha grid has no cells".to_string()));
    }
    let first = &decoded_cells[0];
    if first.buffers.planes.len() == 0 {
        return Err(DecoderError::Bitstream("alpha grid cell has no plane".to_string()));
    }
    let source = first.buffers.planes[0].layout;
    assert(views[0] == first@);
    check_alpha_cells(decoded_cells)?;
    proof {
        assert(decoded_planes_valid(first@));
        assert(plane_covered(first@.buffers.planes[0]));
    }
    let scale_x = shift_scale(source.subsampling_x);
    let scale_y = shift_scale(source.subsampling_y);
    let plane_width = crate::decoder::ceil_shift(width, source.subsampling_x as usize);
    let plane_height = crate::decoder::ceil_shift(height, source.subsampling_y as usize);
    let sample_count = match plane_width.checked_mul(plane_height) {
        Some(count) => count,
        None => return Err(DecoderError::InvalidParam("alpha grid plane sample count overflows".to_string())),
    };
    proof {
        assert forall|k: int| 0 <= k < views.len() implies (#[trigger] views[k]).buffers.planes.len() > 0
            && views[k].buffers.planes[0].layout.subsampling_x == source.subsampling_x
            && views[k].buffers.planes[0].layout.subsampling_y == source.subsampling_y by {
            lemma_no_first_issue(first@, views, views.len() as int, k);
        }
        assert(column_widths@.len() * row_heights@.len() == rows * columns) by (nonlinear_arith)
            requires
                column_widths@.len() == columns,
                row_heights@.len() == rows,
        ;
        assert forall|k: int| 0 <= k < column_widths@.len() * row_heights@.len() implies 0 < (#[trigger] decoded_cells@[k]).buffers.planes@.len()
            && plane_covered(decoded_cells@[k].buffers.planes@[0]@) by {
            assert(views[k] == decoded_cells@[k]@);
            assert(decoded_planes_valid(decoded_cells@[k]@));
            assert(decoded_cells@[k]@.buffers.planes[0] == decoded_cells@[k].buffers.planes@[0]@);
        }
        assert(column_widths@.len() * row_heights@.len() == rows * columns) by (nonlinear_arith)
            requires
                column_widths@.len() == columns,
                row_heights@.len() == rows,
        ;
    }
    let samples = compose_grid_plane(
        true,
        decoded_cells,
        0,
        column_widths.as_slice(),
        row_heights.as_slice(),
        source.subsampling_x,
        source.subsampling_y,
        scale_x,
        scale_y,
        plane_width,
        plane_height,
    )?;
    let layout = PlaneLayout {
        plane: 3,
        width: plane_width,
        height: plane_height,
        subsampling_x: source.subsampling_x,
        subsampling_y: source.subsampling_y,
        sample_count,
    };
    Ok((PlaneBuffer { layout, samples }, first.bit_depth))
}

/// With no issue among the first `n` cells, each of them has a plane with the first
/// cell's subsampling.
proof fn lemma_no_first_issue(first: DecodedFrameView, cells: Seq<DecodedFrameView>, n: int, k: int)
    requires
        0 <= k < n,
        first_alpha_cell_issue(first, cells, n) is None,
    ensures
        cells[k].buffers.planes.len() > 0,
        cells[k].buffers.planes[0].layout.subsampling_x == first.buffers.planes[0].layout.subsampling_x,
        cells[k].buffers.planes[0].layout.subsampling_y == first.buffers.planes[0].layout.subsampling_y,
        cells[k].bit_depth == first.bit_depth,
    decreases n,
{
    if k < n - 1 {
        lemma_no_first_issue(first, cells, n - 1, k);
    }
}

/// Checks every decoded alpha cell against the first (see `alpha_cell_issue`).
fn check_alpha_cells(decoded_cells: &[DecodedFrame]) -> (result: Result<(), DecoderError>)
    requires
        decoded_cells@.len() > 0,
        decoded_cells@[0].buffers.planes@.len() > 0,
    ensures
        ({
            let views = frame_views(decoded_cells@);
            match first_alpha_cell_issue(views[0], views, views.len() as int) {
                None => result is Ok,
                Some(kind) => result matches Err(error) && error.kind() == kind,
            }
        }),
{
    let ghost views = frame_views(decoded_cells@);
    let first = &decoded_cells[0];
    assert(views[0] == first@);
    let source = first.buffers.planes[0].layout;
    let mut k: usize = 0;
    while k < decoded_cells.len()
        invariant
            views == frame_views(decoded_cells@),
            views[0] == first@,
            first.buffers.planes@.len() > 0,
            source == first.buffers.planes@[0].layout,
            k <= decoded_cells@.len(),
            first_alpha_cell_issue(first@, views, k as int) is None,
        decreases decoded_cells@.len() - k,
    {
        let cell = &decoded_cells[k];
        assert(views[k as int] == cell@);
        if cell.buffers.planes.len() == 0 {
            proof {
                lemma_first_issue_stays(first@, views, k as int, views.len() as int);
            }
            return Err(DecoderError::Bitstream("alpha grid cell has no plane".to_string()));
        }
        let plane = &cell.buffers.planes[0];
        if plane.layout.subsampling_x != source.subsampling_x || plane.layout.subsampling_y != source.subsampling_y
            || cell.bit_depth != first.bit_depth {
            proof {
                lemma_first_issue_stays(first@, views, k as int, views.len() as int);
            }
            return Err(DecoderError::Unsupported("alpha grid cells use different plane configurations".to_string()));
        }
        k = k + 1;
    }
    Ok(())
}

/// Once cell `k` is the first with an issue, that issue is the first among any
/// longer prefix.
proof fn lemma_first_issue_stays(first: DecodedFrameView, cells: Seq<DecodedFrameView>, k: int, n: int)
    requires
        0 <= k < n,
        first_alpha_cell_issue(first, cells, k) is None,
        alpha_cell_issue(first, cells[k]) is Some,
    ensures
        first_alpha_cell_issue(first, cells, n) == alpha_cell_issue(first, cells[k]),
    decreases n,
{
    if n > k + 1 {
        lemma_first_issue_stays(first, cells, k, n - 1);
    }
}

/// The position of the first plane, from `p` on, with plane index `index`.
pub open spec fn find_plane(planes: Seq<PlaneView>, index: u8, p: int) -> Option<int>
    decreases planes.len() - p,
{
    if p < 0 || p >= planes.len() {
        None
    } else if planes[p].layout.plane == index {
        Some(p)
    } else {
        find_plane(planes, index, p + 1)
    }
}

/// The position of the first cell, from `k` on, that is not monochrome.
pub open spec fn first_colour_cell(cells: Seq<DecodedFrameView>, k: int) -> Option<int>
    decreases cells.len() - k,
{
    if k < 0 || k >= cells.len() {
        None
    } else if !cells[k].color_config.monochrome {
        Some(k)
    } else {
        first_colour_cell(cells, k + 1)
    }
}

/// Some cell has an alpha plane.
pub open spec fn cells_have_alpha(cells: Seq<DecodedFrameView>) -> bool {
    exists|k: int| 0 <= k < cells.len() && (#[trigger] find_plane(cells[k].buffers.planes, 3, 0)) is Some
}

/// A plane of `width` by `height` samples, all `value`.
pub open spec fn filled_plane(plane: u8, width: int, height: int, subsampling_x: u8, subsampling_y: u8, value: u16) -> PlaneView {
    PlaneView {
        layout: PlaneLayout {
            plane,
            width: width as usize,
            height: height as usize,
            subsampling_x,
            subsampling_y,
            sample_count: (width * height) as usize,
        },
        samples: Seq::new((width * height) as nat, |i: int| value),
    }
}

/// A grid cell made to match the grid's colour cells: a monochrome cell keeps its
/// luma (and alpha) plane, gains two chroma planes of mid-grey in the target's
/// subsampling, and takes the target's colour configuration and colour box; where
/// the grid has alpha, a cell without an alpha plane gains an opaque one. A
/// monochrome cell without luma is a bitstream error, and a plane too large to
/// address an invalid parameter.
pub open spec fn normalized_cell(
    cell: DecodedFrameView,
    target_config: ColorConfig,
    target_information: Option<ColorInformationView>,
    target_depth: u8,
    with_alpha: bool,
) -> Result<DecodedFrameView, ErrorKind> {
    let recoloured = if cell.color_config.monochrome {
        match find_plane(cell.buffers.planes, 0, 0) {
            None => Err(ErrorKind::Bitstream),
            Some(luma) => {
                let chroma_x: u8 = if target_config.subsampling_x { 1 } else { 0 };
                let chroma_y: u8 = if target_config.subsampling_y { 1 } else { 0 };
                let chroma_width = ceil_pow2(cell.width as int, chroma_x as nat);
                let chroma_height = ceil_pow2(cell.height as int, chroma_y as nat);
                if chroma_width * chroma_height > usize::MAX {
                    Err(ErrorKind::InvalidParam)
                } else {
                    let neutral = vstd::arithmetic::power2::pow2(if target_depth > 0 { (target_depth - 1) as nat } else { 0 }) as u16;
                    let planes = seq![
                        cell.buffers.planes[luma],
                        filled_plane(1, chroma_width, chroma_height, chroma_x, chroma_y, neutral),
                        filled_plane(2, chroma_width, chroma_height, chroma_x, chroma_y, neutral),
                    ] + match find_plane(cell.buffers.planes, 3, 0) {
                        Some(alpha) => seq![cell.buffers.planes[alpha]],
                        None => Seq::<PlaneView>::empty(),
                    };
                    Ok(
                        DecodedFrameView {
                            color_config: target_config,
                            color_information: target_information,
                            buffers: FrameBuffersView { planes, ..cell.buffers },
                            ..cell
                        },
                    )
                }
            },
        }
    } else {
        Ok(cell)
    };
    match recoloured {
        Err(kind) => Err(kind),
        Ok(recoloured) => if with_alpha && find_plane(recoloured.buffers.planes, 3, 0) is None {
            if recoloured.width * recoloured.height > usize::MAX {
                Err(ErrorKind::InvalidParam)
            } else {
                let opaque = (vstd::arithmetic::power2::pow2(target_depth as nat) - 1) as u16;
                Ok(
                    DecodedFrameView {
                        buffers: FrameBuffersView {
                            planes: recoloured.buffers.planes.push(
                                filled_plane(3, recoloured.width as int, recoloured.height as int, 0, 0, opaque),
                            ),
                            ..recoloured.buffers
                        },
                        ..recoloured
                    },
                )
            }
        } else {
            Ok(recoloured)
        },
    }
}

/// The first `n` cells normalized in order, or the first error.
pub open spec fn normalized_prefix(
    cells: Seq<DecodedFrameView>,
    target_config: ColorConfig,
    target_information: Option<ColorInformationView>,
    target_depth: u8,
    with_alpha: bool,
    n: int,
) -> Result<Seq<DecodedFrameView>, ErrorKind>
    decreases n,
{
    if n <= 0 {
        Ok(Seq::empty())
    } else {
        match normalized_prefix(cells, target_config, target_information, target_depth, with_alpha, n - 1) {
            Err(kind) => Err(kind),
            Ok(done) => match normalized_cell(cells[n - 1], target_config, target_information, target_depth, with_alpha) {
                Err(kind) => Err(kind),
                Ok(cell) => Ok(done.push(cell)),
            },
        }
    }
}

/// What normalizing the grid cells gives: with no colour cell the cells as they
/// are; otherwise every cell normalized against the first colour cell (see
/// `normalized_cell`), alpha being added where any cell has it.
pub open spec fn normalized_cells(cells: Seq<DecodedFrameView>) -> Result<Seq<DecodedFrameView>, ErrorKind> {
    match first_colour_cell(cells, 0) {
        None => Ok(cells),
        Some(t) => normalized_prefix(
            cells,
            cells[t].color_config,
            cells[t].color_information,
            cells[t].bit_depth,
            cells_have_alpha(cells),
            cells.len() as int,
        ),
    }
}

/// The position of the first plane with plane index `index`.
fn position_of_plane(planes: &Vec<PlaneBuffer>, index: u8) -> (position: Option<usize>)
    ensures
        match position {
            Some(p) => find_plane(plane_views(planes@), index, 0) == Some(p as int),
            None => find_plane(plane_views(planes@), index, 0) is None,
        },
{
    let ghost views = plane_views(planes@);
    let mut p: usize = 0;
    while p < planes.len()
        invariant
            views == plane_views(planes@),
            p <= planes@.len(),
            find_plane(views, index, 0) == find_plane(views, index, p as int),
        decreases planes@.len() - p,
    {
        assert(views[p as int] == planes@[p as int]@);
        if planes[p].layout.plane == index {
            return Some(p);
        }
        p = p + 1;
    }
    None
}

/// A copy of a plane.
fn copy_plane(plane: &PlaneBuffer) -> (copy: PlaneBuffer)
    ensures
        copy@ == plane@,
{
    PlaneBuffer { layout: plane.layout, samples: vstd::slice::slice_to_vec(plane.samples.as_slice()) }
}

/// A copy of a colour box.
fn copy_color_information(info: &Option<ColorInformation>) -> (copy: Option<ColorInformation>)
    ensures
        color_information_view(copy) == color_information_view(*info),
{
    match info {
        Some(info) => Some(ColorInformation { color_type: info.color_type, payload: vstd::slice::slice_to_vec(info.payload.as_slice()) }),
        None => None,
    }
}

/// A plane of `width` by `height` samples, all `value`.
fn filled_plane_buffer(plane: u8, width: usize, height: usize, subsampling_x: u8, subsampling_y: u8, value: u16) -> (buffer:
    PlaneBuffer)
    requires
        width * height <= usize::MAX,
    ensures
        buffer@ == filled_plane(plane, width as int, height as int, subsampling_x, subsampling_y, value),
{
    let count = width * height;
    let mut samples: Vec<u16> = Vec::new();
    let mut i: usize = 0;
    while i < count
        invariant
            i <= count,
            samples@.len() == i,
            forall|j: int| 0 <= j < i ==> samples@[j] == value,
        decreases count - i,
    {
        samples.push(value);
        i = i + 1;
    }
    let buffer = PlaneBuffer {
        layout: PlaneLayout { plane, width, height, subsampling_x, subsampling_y, sample_count: count },
        samples,
    };
    assert(buffer@.samples =~= filled_plane(plane, width as int, height as int, subsampling_x, subsampling_y, value).samples);
    buffer
}

/// Normalizes one grid cell (see `normalized_cell`).
fn normalize_cell(
    cell: &DecodedFrame,
    target_config: ColorConfig,
    target_information: &Option<ColorInformation>,
    target_depth: u8,
    with_alpha: bool,
) -> (result: Result<DecodedFrame, DecoderError>)
    requires
        cell.color_config.monochrome ==> target_depth <= 16,
        with_alpha ==> target_depth < 32,
    ensures
        match (result, normalized_cell(cell@, target_config, color_information_view(*target_information), target_depth, with_alpha)) {
            (Ok(normalized), Ok(expected)) => normalized@ == expected,
            (Err(error), Err(kind)) => error.kind() == kind,
            _ => false,
        },
{
    let ghost target_view = color_information_view(*target_information);
    let ghost planes_view = cell@.buffers.planes;
    let mut planes: Vec<PlaneBuffer> = Vec::new();
    let mut color_config = cell.color_config;
    let mut color_information = copy_color_information(&cell.color_information);
    if cell.color_config.monochrome {
        proof {
            lemma_find_plane(planes_view, 0, 0);
            lemma_find_plane(planes_view, 3, 0);
        }
        let luma = match position_of_plane(&cell.buffers.planes, 0) {
            Some(p) => p,
            None => return Err(DecoderError::Bitstream("monochrome grid cell is missing its luma plane".to_string())),
        };
        let alpha = position_of_plane(&cell.buffers.planes, 3);
        let chroma_x: u8 = if target_config.subsampling_x { 1 } else { 0 };
        let chroma_y: u8 = if target_config.subsampling_y { 1 } else { 0 };
        let chroma_width = crate::decoder::ceil_shift(cell.width, chroma_x as usize);
        let chroma_height = crate::decoder::ceil_shift(cell.height, chroma_y as usize);
        if chroma_width.checked_mul(chroma_height).is_none() {
            return Err(DecoderError::InvalidParam("grid chroma plane size overflows".to_string()));
        }
        let shift: u16 = if target_depth > 0 { (target_depth - 1) as u16 } else { 0 };
        proof {
            vstd::bits::lemma_u16_pow2_no_overflow(shift as nat);
            vstd::bits::lemma_u16_shl_is_mul(1, shift);
        }
        let neutral: u16 = 1u16 << shift;
        assert(planes_view[luma as int] == cell.buffers.planes@[luma as int]@);
        let luma_plane = copy_plane(&cell.buffers.planes[luma]);
        let first_chroma = filled_plane_buffer(1, chroma_width, chroma_height, chroma_x, chroma_y, neutral);
        let second_chroma = filled_plane_buffer(2, chroma_width, chroma_height, chroma_x, chroma_y, neutral);
        let ghost luma_view = luma_plane@;
        let ghost first_view = first_chroma@;
        let ghost second_view = second_chroma@;
        planes.push(luma_plane);
        planes.push(first_chroma);
        planes.push(second_chroma);
        assert(planes@.len() == 3 && planes@[0]@ == luma_view && planes@[1]@ == first_view && planes@[2]@ == second_view);
        match alpha {
            Some(a) => {
                assert(planes_view[a as int] == cell.buffers.planes@[a as int]@);
                let alpha_plane = copy_plane(&cell.buffers.planes[a]);
                let ghost alpha_view = alpha_plane@;
                planes.push(alpha_plane);
                assert(planes@.len() == 4 && planes@[0]@ == luma_view && planes@[1]@ == first_view && planes@[2]@ == second_view && planes@[3]@ == alpha_view);
                assert(find_plane(planes_view, 3, 0) == Some(a as int));
                assert(plane_views(planes@)[3] == planes_view[a as int]);
            },
            None => {},
        }
        color_config = target_config;
        color_information = copy_color_information(target_information);
        proof {
            let chroma_width_spec = ceil_pow2(cell.width as int, chroma_x as nat);
            let chroma_height_spec = ceil_pow2(cell.height as int, chroma_y as nat);
            assert(chroma_width == chroma_width_spec);
            assert(chroma_height == chroma_height_spec);
            let expected = seq![
                planes_view[luma as int],
                filled_plane(1, chroma_width_spec, chroma_height_spec, chroma_x, chroma_y, neutral),
                filled_plane(2, chroma_width_spec, chroma_height_spec, chroma_x, chroma_y, neutral),
            ] + match find_plane(planes_view, 3, 0) {
                Some(a) => seq![planes_view[a]],
                None => Seq::<PlaneView>::empty(),
            };
            let got = plane_views(planes@);
            assert(luma_view == planes_view[luma as int]);
            assert(got[0] == expected[0]);
            assert(got[1] == expected[1]);
            assert(got[2] == expected[2]);
            assert(got.len() == expected.len());
            if let Some(a) = find_plane(planes_view, 3, 0) {
                assert(alpha == Some(a as usize));
                assert(got[3] == expected[3]);
            }
            assert(got =~= expected);
        }
    } else {
        let mut p: usize = 0;
        while p < cell.buffers.planes.len()
            invariant
                planes_view == cell@.buffers.planes,
                p <= cell.buffers.planes@.len(),
                planes@.len() == p,
                forall|q: int| 0 <= q < p ==> (#[trigger] planes@[q])@ == planes_view[q],
            decreases cell.buffers.planes@.len() - p,
        {
            planes.push(copy_plane(&cell.buffers.planes[p]));
            p = p + 1;
        }
    }
    let mut normalized = DecodedFrame {
        width: cell.width,
        height: cell.height,
        render_width: cell.render_width,
        render_height: cell.render_height,
        bit_depth: cell.bit_depth,
        color_config,
        color_information,
        alpha_premultiplied: cell.alpha_premultiplied,
        buffers: crate::av1::planes::FrameBuffers { width: cell.buffers.width, height: cell.buffers.height, planes },
    };
    let ghost recoloured = normalized_cell(cell@, target_config, target_view, target_depth, false);
    proof {
        if cell.color_config.monochrome {
            assert(normalized@.buffers.planes =~= recoloured->Ok_0.buffers.planes);
        } else {
            assert(normalized@.buffers.planes =~= planes_view);
        }
        assert(normalized@ == recoloured->Ok_0);
    }
    if with_alpha {
        let has_alpha = position_of_plane(&normalized.buffers.planes, 3);
        if has_alpha.is_none() {
            let alpha_count = normalized.width.checked_mul(normalized.height);
            if alpha_count.is_none() {
                return Err(DecoderError::InvalidParam("grid alpha plane size overflows".to_string()));
            }
            proof {
                vstd::bits::lemma_u32_pow2_no_overflow(target_depth as nat);
                vstd::bits::lemma_u32_shl_is_mul(1, target_depth as u32);
                vstd::arithmetic::power2::lemma_pow2_pos(target_depth as nat);
            }
            let opaque = (#[verifier::truncate] (((1u32 << target_depth as u32) - 1) as u16));
            let ghost before = normalized@.buffers.planes;
            normalized.buffers.planes.push(filled_plane_buffer(3, normalized.width, normalized.height, 0, 0, opaque));
            proof {
                assert(normalized@.buffers.planes =~= before.push(
                    filled_plane(3, normalized.width as int, normalized.height as int, 0, 0, opaque),
                ));
            }
        }
    }
    Ok(normalized)
}

/// A plane found by `find_plane` lies in the list and has the index searched for,
/// and no plane between the start and it has.
pub proof fn lemma_find_plane(planes: Seq<PlaneView>, index: u8, p: int)
    requires
        0 <= p,
    ensures
        match find_plane(planes, index, p) {
            Some(q) => p <= q < planes.len() && planes[q].layout.plane == index,
            None => forall|q: int| p <= q < planes.len() ==> (#[trigger] planes[q]).layout.plane != index,
        },
    decreases planes.len() - p,
{
    if p < planes.len() && planes[p].layout.plane != index {
        lemma_find_plane(planes, index, p + 1);
    }
}

/// Once normalizing stops at an error, it stays stopped there.
proof fn lemma_normalized_prefix_error(
    cells: Seq<DecodedFrameView>,
    target_config: ColorConfig,
    target_information: Option<ColorInformationView>,
    target_depth: u8,
    with_alpha: bool,
    k: int,
    n: int,
)
    requires
        0 <= k <= n,
        normalized_prefix(cells, target_config, target_information, target_depth, with_alpha, k) is Err,
    ensures
        normalized_prefix(cells, target_config, target_information, target_depth, with_alpha, n) == normalized_prefix(
            cells,
            target_config,
            target_information,
            target_depth,
            with_alpha,
            k,
        ),
    decreases n - k,
{
    if n > k {
        lemma_normalized_prefix_error(cells, target_config, target_information, target_depth, with_alpha, k, n - 1);
    }
}

/// The bit depth the cells are normalized to where needed: that of the first colour
/// cell, which must allow mid-grey chroma for a monochrome cell and opaque alpha
/// where any cell has alpha.
pub open spec fn normalize_depth_fits(cells: Seq<DecodedFrameView>) -> bool {
    match first_colour_cell(cells, 0) {
        Some(t) => (forall|k: int| 0 <= k < cells.len() && (#[trigger] cells[k]).color_config.monochrome ==> cells[t].bit_depth <= 16)
            && (cells_have_alpha(cells) ==> cells[t].bit_depth < 32),
        None => true,
    }
}

/// The first colour cell found from `k` on is at or after `k`, is a colour cell, and
/// every cell between is monochrome.
proof fn lemma_first_colour_cell(cells: Seq<DecodedFrameView>, k: int)
    requires
        0 <= k,
    ensures
        match first_colour_cell(cells, k) {
            Some(t) => k <= t < cells.len() && !cells[t].color_config.monochrome,
            None => forall|j: int| k <= j < cells.len() ==> (#[trigger] cells[j]).color_config.monochrome,
        },
    decreases cells.len() - k,
{
    if k < cells.len() && cells[k].color_config.monochrome {
        lemma_first_colour_cell(cells, k + 1);
    }
}

/// Makes the decoded grid cells agree in colour layout (see `normalized_cells`).
/// On an error, the cells before the failing one are already normalized.
pub fn normalize_grid_cells(decoded_cells: &mut [DecodedFrame]) -> (result: Result<(), DecoderError>)
    requires
        normalize_depth_fits(frame_views(old(decoded_cells)@)),
    ensures
        match (result, normalized_cells(frame_views(old(decoded_cells)@))) {
            (Ok(()), Ok(cells)) => frame_views(final(decoded_cells)@) == cells,
            (Err(error), Err(kind)) => error.kind() == kind,
            _ => false,
        },
{
    let ghost original = frame_views(decoded_cells@);
    proof {
        lemma_first_colour_cell(original, 0);
    }
    let mut t: usize = 0;
    while t < decoded_cells.len() && decoded_cells[t].color_config.monochrome
        invariant
            original == frame_views(decoded_cells@),
            t <= decoded_cells@.len(),
            first_colour_cell(original, 0) == first_colour_cell(original, t as int),
        decreases decoded_cells@.len() - t,
    {
        assert(original[t as int] == decoded_cells@[t as int]@);
        t = t + 1;
    }
    if t == decoded_cells.len() {
        return Ok(());
    }
    assert(original[t as int] == decoded_cells@[t as int]@);
    assert(first_colour_cell(original, 0) == Some(t as int));
    let target_config = decoded_cells[t].color_config;
    let target_information = copy_color_information(&decoded_cells[t].color_information);
    let target_depth = decoded_cells[t].bit_depth;
    let mut with_alpha = false;
    let mut k: usize = 0;
    while k < decoded_cells.len()
        invariant
            original == frame_views(decoded_cells@),
            k <= decoded_cells@.len(),
            with_alpha <==> exists|j: int| 0 <= j < k && (#[trigger] find_plane(original[j].buffers.planes, 3, 0)) is Some,
        decreases decoded_cells@.len() - k,
    {
        assert(original[k as int] == decoded_cells@[k as int]@);
        let found = position_of_plane(&decoded_cells[k].buffers.planes, 3);
        assert(plane_views(decoded_cells@[k as int].buffers.planes@) == original[k as int].buffers.planes);
        if found.is_some() {
            assert(find_plane(original[k as int].buffers.planes, 3, 0) is Some);
            with_alpha = true;
        }
        k = k + 1;
    }
    assert(with_alpha == cells_have_alpha(original));
    let ghost target_view = color_information_view(target_information);
    let mut k: usize = 0;
    while k < decoded_cells.len()
        invariant
            k <= decoded_cells@.len(),
            original == frame_views(old(decoded_cells)@),
            decoded_cells@.len() == original.len(),
            first_colour_cell(original, 0) == Some(t as int),
            t < original.len(),
            target_config == original[t as int].color_config,
            target_view == original[t as int].color_information,
            target_view == color_information_view(target_information),
            target_depth == original[t as int].bit_depth,
            with_alpha == cells_have_alpha(original),
            normalize_depth_fits(original),
            normalized_prefix(original, target_config, target_view, target_depth, with_alpha, k as int) matches Ok(done)
                && forall|j: int| 0 <= j < k ==> (#[trigger] frame_views(decoded_cells@)[j]) == done[j],
            normalized_prefix(original, target_config, target_view, target_depth, with_alpha, k as int)->Ok_0.len() == k,
            forall|j: int| k <= j < original.len() ==> (#[trigger] frame_views(decoded_cells@)[j]) == original[j],
        decreases decoded_cells@.len() - k,
    {
        assert(frame_views(decoded_cells@)[k as int] == original[k as int]);
        let normalized = match normalize_cell(&decoded_cells[k], target_config, &target_information, target_depth, with_alpha) {
            Ok(cell) => cell,
            Err(error) => {
                proof {
                    assert(normalized_cell(original[k as int], target_config, target_view, target_depth, with_alpha) is Err);
                    assert(normalized_prefix(original, target_config, target_view, target_depth, with_alpha, k + 1) is Err);
                    lemma_normalized_prefix_error(original, target_config, target_view, target_depth, with_alpha, k + 1, original.len() as int);
                    assert(normalized_cells(original) == normalized_prefix(original, target_config, target_view, target_depth, with_alpha, k + 1));
                }
                return Err(error);
            },
        };
        let ghost before = decoded_cells@;
        decoded_cells[k] = normalized;
        proof {
            assert(decoded_cells@ == before.update(k as int, normalized));
            assert forall|j: int| 0 <= j < decoded_cells@.len() && j != k implies #[trigger] frame_views(decoded_cells@)[j] == frame_views(before)[j] by {
                assert(decoded_cells@[j] == before[j]);
            }
        }
        k = k + 1;
    }
    proof {
        let done = normalized_prefix(original, target_config, target_view, target_depth, with_alpha, original.len() as int)->Ok_0;
        assert(frame_views(decoded_cells@) =~= done);
    }
    Ok(())
}

/// Normalizing a cell whose planes are valid gives a cell whose planes are valid.
pub proof fn lemma_normalized_cell_valid(
    cell: DecodedFrameView,
    target_config: ColorConfig,
    target_information: Option<ColorInformationView>,
    target_depth: u8,
    with_alpha: bool,
)
    requires
        decoded_planes_valid(cell),
    ensures
        normalized_cell(cell, target_config, target_information, target_depth, with_alpha) matches Ok(normalized) ==> decoded_planes_valid(normalized)
            && normalized.width == cell.width && normalized.height == cell.height,
{
    lemma_find_plane(cell.buffers.planes, 0, 0);
    lemma_find_plane(cell.buffers.planes, 3, 0);
    let recoloured = normalized_cell(cell, target_config, target_information, target_depth, false);
    if let Ok(r) = recoloured {
        if cell.color_config.monochrome {
            let luma = find_plane(cell.buffers.planes, 0, 0)->Some_0;
            let chroma_x: u8 = if target_config.subsampling_x { 1 } else { 0 };
            let chroma_y: u8 = if target_config.subsampling_y { 1 } else { 0 };
            let chroma_width = ceil_pow2(cell.width as int, chroma_x as nat);
            let chroma_height = ceil_pow2(cell.height as int, chroma_y as nat);
            vstd::arithmetic::power2::lemma2_to64();
            lemma_ceil_pow2_at_most(cell.width as int, chroma_x as nat);
            lemma_ceil_pow2_at_most(cell.height as int, chroma_y as nat);
            assert(0 <= chroma_width <= cell.width);
            assert(0 <= chroma_height <= cell.height);
            assert forall|p: int| 0 <= p < r.buffers.planes.len() implies plane_covered(#[trigger] r.buffers.planes[p])
                && r.buffers.planes[p].layout.subsampling_x < usize::BITS && r.buffers.planes[p].layout.subsampling_y
                < usize::BITS by {
                if p == 0 {
                    assert(r.buffers.planes[p] == cell.buffers.planes[luma]);
                } else if p == 3 {
                    assert(r.buffers.planes[p] == cell.buffers.planes[find_plane(cell.buffers.planes, 3, 0)->Some_0]);
                }
            }
        }
        assert(decoded_planes_valid(r));
        lemma_find_plane(r.buffers.planes, 3, 0);
        if with_alpha && r.width * r.height <= usize::MAX {
            let opaque = (#[verifier::truncate] ((vstd::arithmetic::power2::pow2(target_depth as nat) - 1) as u16));
            let extended = r.buffers.planes.push(filled_plane(3, r.width as int, r.height as int, 0, 0, opaque));
            assert forall|p: int| 0 <= p < extended.len() implies plane_covered(#[trigger] extended[p]) && extended[p].layout.subsampling_x
                < usize::BITS && extended[p].layout.subsampling_y < usize::BITS by {
                if p < r.buffers.planes.len() {
                    assert(extended[p] == r.buffers.planes[p]);
                }
            }
        }
    }
}

/// Normalizing cells whose planes are valid gives cells whose planes are valid, of
/// the same sizes.
pub proof fn lemma_normalized_prefix_valid(
    cells: Seq<DecodedFrameView>,
    target_config: ColorConfig,
    target_information: Option<ColorInformationView>,
    target_depth: u8,
    with_alpha: bool,
    n: int,
)
    requires
        0 <= n <= cells.len(),
        forall|k: int| 0 <= k < cells.len() ==> decoded_planes_valid(#[trigger] cells[k]),
    ensures
        normalized_prefix(cells, target_config, target_information, target_depth, with_alpha, n) matches Ok(done) ==> done.len() == n
            && forall|k: int| 0 <= k < n ==> decoded_planes_valid(#[trigger] done[k]) && done[k].width == cells[k].width
                && done[k].height == cells[k].height,
    decreases n,
{
    if n > 0 {
        lemma_normalized_prefix_valid(cells, target_config, target_information, target_depth, with_alpha, n - 1);
        lemma_normalized_cell_valid(cells[n - 1], target_config, target_information, target_depth, with_alpha);
    }
}

/// Grid cell (`r`, `c`) has a nonzero width and height.
pub open spec fn cell_nonzero(grid: GridImage, r: int, c: int) -> bool {
    cell_width(grid, r, c) != 0 && cell_height(grid, r, c) != 0
}

/// Every cell of the grid has a nonzero width and height.
pub open spec fn grid_cells_nonzero(grid: GridImage) -> bool {
    forall|r: int, c: int| 0 <= r < grid.rows && 0 <= c < grid.columns ==> #[trigger] cell_nonzero(grid, r, c)
}

/// Every decoded cell has the first cell's plane count, bit depth and colour
/// configuration.
pub open spec fn cells_share_layout(cells: Seq<DecodedFrameView>) -> bool {
    forall|k: int|
        0 <= k < cells.len() ==> (#[trigger] cells[k]).buffers.planes.len() == cells[0].buffers.planes.len() && cells[k].bit_depth
            == cells[0].bit_depth && cells[k].color_config == cells[0].color_config
}

/// The layout of plane `p` of a colour grid of `width` by `height` image samples,
/// in the subsampling of the first cell's plane `p`.
pub open spec fn colour_plane_grid(grid: GridImage, source: PlaneLayout, width: int, height: int) -> PlaneGrid {
    PlaneGrid {
        stops_at_edge: false,
        column_widths: grid_column_widths(grid),
        row_heights: grid_row_heights(grid),
        scale_x: vstd::arithmetic::power2::pow2(source.subsampling_x as nat) as int,
        scale_y: vstd::arithmetic::power2::pow2(source.subsampling_y as nat) as int,
        width: ceil_pow2(width, source.subsampling_x as nat),
        height: ceil_pow2(height, source.subsampling_y as nat),
    }
}

/// Plane `p` of the colour grid can be composed: every cell's plane `p` has the
/// first cell's subsampling, and every cell lies on that plane's sample grid.
pub open spec fn colour_plane_composable(grid: GridImage, cells: Seq<DecodedFrameView>, p: int, width: int, height: int) -> bool {
    let source = cells[0].buffers.planes[p].layout;
    cell_subsampling_matches(cells, p, grid.rows * grid.columns, source.subsampling_x, source.subsampling_y) && grid_aligned(
        colour_plane_grid(grid, source, width, height),
    )
}

/// The plane `p` of the composed colour grid fits in a `usize`.
pub open spec fn colour_plane_fits(grid: GridImage, first: DecodedFrameView, p: int, width: int, height: int) -> bool {
    let plane_grid = colour_plane_grid(grid, first.buffers.planes[p].layout, width, height);
    plane_grid.width * plane_grid.height <= usize::MAX
}

/// Plane `p` of the composed colour grid.
pub open spec fn composed_colour_plane(grid: GridImage, cells: Seq<DecodedFrameView>, p: int, width: int, height: int) -> PlaneView {
    let source = cells[0].buffers.planes[p].layout;
    let plane_grid = colour_plane_grid(grid, source, width, height);
    let count = grid.rows * grid.columns;
    PlaneView {
        layout: PlaneLayout {
            plane: source.plane,
            width: plane_grid.width as usize,
            height: plane_grid.height as usize,
            subsampling_x: source.subsampling_x,
            subsampling_y: source.subsampling_y,
            sample_count: (plane_grid.width * plane_grid.height) as usize,
        },
        samples: composed_plane(plane_grid, cell_planes(cells, p, count), count),
    }
}

/// What composing the decoded cells of the primary grid gives (before alpha and the
/// item's geometric transforms): the frame at the grid's output size with each plane
/// composed from the normalized cells, in the first cell's bit depth and colour
/// configuration and with the item's colour box; or the kind of the first error,
/// checked in this order: no grid, the cell count, an empty output, normalization,
/// cell sizes (zero, along columns and rows, and against the decoded frames), column
/// and row totals that overflow or do not cover the output, cells of another
/// layout, a plane too large to address, and cells of another subsampling or off
/// the sample grid.
pub open spec fn grid_frame_outcome(info: AvifInfo, decoded: Seq<DecodedFrameView>) -> Result<DecodedFrameView, ErrorKind> {
    match info.primary_grid {
        None => Err(ErrorKind::Bitstream),
        Some(grid) => {
            let rows = grid.rows as int;
            let columns = grid.columns as int;
            let count = rows * columns;
            let width = grid.output_width as int;
            let height = grid.output_height as int;
            let widths = grid_column_widths(grid);
            let heights = grid_row_heights(grid);
            if grid.cells@.len() != count {
                Err(ErrorKind::Bitstream)
            } else if width == 0 || height == 0 {
                Err(ErrorKind::Bitstream)
            } else {
                match normalized_cells(decoded) {
                    Err(kind) => Err(kind),
                    Ok(cells) => if !grid_cells_nonzero(grid) || !grid_cells_consistent(grid) || !decoded_cells_match(grid, cells) {
                        Err(ErrorKind::Bitstream)
                    } else if prefix_sum(widths, columns) > usize::MAX || prefix_sum(heights, rows) > usize::MAX {
                        Err(ErrorKind::InvalidParam)
                    } else if prefix_sum(widths, columns) < width || prefix_sum(heights, rows) < height {
                        Err(ErrorKind::Bitstream)
                    } else if cells.len() == 0 {
                        Err(ErrorKind::Bitstream)
                    } else if !cells_share_layout(cells) {
                        Err(ErrorKind::Unsupported)
                    } else if exists|p: int|
                        0 <= p < cells[0].buffers.planes.len() && !#[trigger] colour_plane_fits(grid, cells[0], p, width, height) {
                        Err(ErrorKind::InvalidParam)
                    } else if exists|p: int|
                        0 <= p < cells[0].buffers.planes.len() && !#[trigger] colour_plane_composable(grid, cells, p, width, height) {
                        Err(ErrorKind::Unsupported)
                    } else {
                        Ok(
                            DecodedFrameView {
                                width: width as usize,
                                height: height as usize,
                                render_width: width as usize,
                                render_height: height as usize,
                                bit_depth: cells[0].bit_depth,
                                color_config: cells[0].color_config,
                                color_information: color_information_view(info.color_information),
                                alpha_premultiplied: info.alpha_premultiplied,
                                buffers: FrameBuffersView {
                                    width: width as usize,
                                    height: height as usize,
                                    planes: Seq::new(
                                        cells[0].buffers.planes.len(),
                                        |p: int| composed_colour_plane(grid, cells, p, width, height),
                                    ),
                                },
                            },
                        )
                    },
                }
            }
        },
    }
}

/// Whether every cell of the grid has a nonzero width and height.
fn grid_cells_all_nonzero(grid: &GridImage) -> (nonzero: bool)
    requires
        grid.cells@.len() == grid.rows * grid.columns,
    ensures
        nonzero == grid_cells_nonzero(*grid),
{
    let rows = grid.rows as usize;
    let columns = grid.columns as usize;
    let mut r: usize = 0;
    while r < rows
        invariant
            rows == grid.rows,
            columns == grid.columns,
            grid.cells@.len() == rows * columns,
            r <= rows,
            forall|i: int, c: int| 0 <= i < r && 0 <= c < columns ==> #[trigger] cell_nonzero(*grid, i, c),
        decreases rows - r,
    {
        let mut c: usize = 0;
        while c < columns
            invariant
                rows == grid.rows,
                columns == grid.columns,
                grid.cells@.len() == rows * columns,
                r < rows,
                c <= columns,
                forall|i: int, j: int| 0 <= i < r && 0 <= j < columns ==> #[trigger] cell_nonzero(*grid, i, j),
                forall|j: int| 0 <= j < c ==> #[trigger] cell_nonzero(*grid, r as int, j),
            decreases columns - c,
        {
            assert(r * columns + c < rows * columns) by (nonlinear_arith)
                requires
                    r < rows,
                    c < columns,
            ;
            let total = grid.cells.len();
            let cell = &grid.cells[r * columns + c];
            if cell.width == 0 || cell.height == 0 {
                assert(!cell_nonzero(*grid, r as int, c as int));
                return false;
            }
            c = c + 1;
        }
        r = r + 1;
    }
    true
}

/// Whether every decoded cell has the first cell's plane count, bit depth and colour
/// configuration.
fn cells_all_share_layout(cells: &[DecodedFrame]) -> (shared: bool)
    requires
        cells@.len() > 0,
    ensures
        shared == cells_share_layout(frame_views(cells@)),
{
    let ghost views = frame_views(cells@);
    assert(views[0] == cells@[0]@);
    let plane_count = cells[0].buffers.planes.len();
    let mut k: usize = 0;
    while k < cells.len()
        invariant
            views == frame_views(cells@),
            cells@.len() > 0,
            views[0] == cells@[0]@,
            plane_count == cells@[0].buffers.planes@.len(),
            k <= cells@.len(),
            forall|j: int| 0 <= j < k ==> (#[trigger] views[j]).buffers.planes.len() == views[0].buffers.planes.len()
                && views[j].bit_depth == views[0].bit_depth && views[j].color_config == views[0].color_config,
        decreases cells@.len() - k,
    {
        assert(views[k as int] == cells@[k as int]@);
        if cells[k].buffers.planes.len() != plane_count || cells[k].bit_depth != cells[0].bit_depth
            || cells[k].color_config != cells[0].color_config {
            return false;
        }
        k = k + 1;
    }
    true
}

/// Whether every plane of the grid, in the first cell's subsampling, is small enough
/// to address.
fn colour_planes_fit(grid: &GridImage, first: &DecodedFrame, width: usize, height: usize) -> (fit: bool)
    requires
        decoded_planes_valid(first@),
    ensures
        fit == forall|p: int| 0 <= p < first@.buffers.planes.len() ==> #[trigger] colour_plane_fits(*grid, first@, p, width as int, height as int),
{
    let mut p: usize = 0;
    while p < first.buffers.planes.len()
        invariant
            decoded_planes_valid(first@),
            p <= first@.buffers.planes.len(),
            forall|q: int| 0 <= q < p ==> #[trigger] colour_plane_fits(*grid, first@, q, width as int, height as int),
        decreases first@.buffers.planes.len() - p,
    {
        let source = first.buffers.planes[p].layout;
        assert(source == first@.buffers.planes[p as int].layout);
        let plane_width = crate::decoder::ceil_shift(width, source.subsampling_x as usize);
        let plane_height = crate::decoder::ceil_shift(height, source.subsampling_y as usize);
        if plane_width.checked_mul(plane_height).is_none() {
            assert(!colour_plane_fits(*grid, first@, p as int, width as int, height as int));
            return false;
        }
        p = p + 1;
    }
    true
}

/// Composes every plane of the colour grid from the normalized cells (see
/// `composed_colour_plane`).
fn compose_colour_planes(
    grid: &GridImage,
    cells: &[DecodedFrame],
    column_widths: &[usize],
    row_heights: &[usize],
    width: usize,
    height: usize,
) -> (result: Result<Vec<PlaneBuffer>, DecoderError>)
    requires
        cells@.len() > 0,
        cells_share_layout(frame_views(cells@)),
        forall|k: int| 0 <= k < cells@.len() ==> decoded_planes_valid((#[trigger] cells@[k])@),
        decoded_cells_match(*grid, frame_views(cells@)),
        column_widths@ == grid_column_widths(*grid),
        row_heights@ == grid_row_heights(*grid),
        prefix_sum(column_widths@, column_widths@.len() as int) <= usize::MAX,
        prefix_sum(row_heights@, row_heights@.len() as int) <= usize::MAX,
        forall|p: int| 0 <= p < cells@[0]@.buffers.planes.len() ==> #[trigger] colour_plane_fits(*grid, cells@[0]@, p, width as int, height as int),
    ensures
        ({
            let views = frame_views(cells@);
            let all_fit = forall|p: int|
                0 <= p < views[0].buffers.planes.len() ==> #[trigger] colour_plane_composable(*grid, views, p, width as int, height as int);
            &&& result is Ok <==> all_fit
            &&& match result {
                Ok(planes) => plane_views(planes@) == Seq::new(
                    views[0].buffers.planes.len(),
                    |p: int| composed_colour_plane(*grid, views, p, width as int, height as int),
                ),
                Err(error) => error.kind() == ErrorKind::Unsupported,
            }
        }),
{
    let ghost views = frame_views(cells@);
    assert(views[0] == cells@[0]@);
    let columns = column_widths.len();
    let rows = row_heights.len();
    let ghost count = grid.rows * grid.columns;
    proof {
        assert(column_widths@.len() * row_heights@.len() == count) by (nonlinear_arith)
            requires
                column_widths@.len() == grid.columns,
                row_heights@.len() == grid.rows,
                count == grid.rows * grid.columns,
        ;
    }
    let plane_count = cells[0].buffers.planes.len();
    let mut planes: Vec<PlaneBuffer> = Vec::new();
    let mut p: usize = 0;
    while p < plane_count
        invariant
            views == frame_views(cells@),
            cells@.len() > 0,
            views[0] == cells@[0]@,
            plane_count == cells@[0].buffers.planes@.len(),
            cells_share_layout(views),
            forall|k: int| 0 <= k < cells@.len() ==> decoded_planes_valid((#[trigger] cells@[k])@),
            decoded_cells_match(*grid, views),
            column_widths@ == grid_column_widths(*grid),
            row_heights@ == grid_row_heights(*grid),
            column_widths@.len() * row_heights@.len() == count,
            count == grid.rows * grid.columns,
            prefix_sum(column_widths@, column_widths@.len() as int) <= usize::MAX,
            prefix_sum(row_heights@, row_heights@.len() as int) <= usize::MAX,
            forall|q: int| 0 <= q < plane_count ==> #[trigger] colour_plane_fits(*grid, views[0], q, width as int, height as int),
            p <= plane_count,
            planes@.len() == p,
            forall|q: int| 0 <= q < p ==> (#[trigger] planes@[q])@ == composed_colour_plane(*grid, views, q, width as int, height as int),
            forall|q: int| 0 <= q < p ==> #[trigger] colour_plane_composable(*grid, views, q, width as int, height as int),
        decreases plane_count - p,
    {
        let source = cells[0].buffers.planes[p].layout;
        assert(source == views[0].buffers.planes[p as int].layout);
        let ghost plane_grid = colour_plane_grid(*grid, source, width as int, height as int);
        proof {
            assert(decoded_planes_valid(views[0]));
        }
        let scale_x = shift_scale(source.subsampling_x);
        let scale_y = shift_scale(source.subsampling_y);
        let plane_width = crate::decoder::ceil_shift(width, source.subsampling_x as usize);
        let plane_height = crate::decoder::ceil_shift(height, source.subsampling_y as usize);
        proof {
            assert(colour_plane_fits(*grid, views[0], p as int, width as int, height as int));
            assert(plane_grid.width * plane_grid.height <= usize::MAX);
            assert forall|k: int| 0 <= k < column_widths@.len() * row_heights@.len() implies p < (#[trigger] cells@[k]).buffers.planes@.len()
                && plane_covered(cells@[k].buffers.planes@[p as int]@) by {
                assert(views[k] == cells@[k]@);
                assert(views[k].buffers.planes.len() == views[0].buffers.planes.len());
                assert(decoded_planes_valid(cells@[k]@));
                assert(cells@[k]@.buffers.planes[p as int] == cells@[k].buffers.planes@[p as int]@);
            }
        }
        assert(plane_grid == (PlaneGrid {
            stops_at_edge: false,
            column_widths: column_widths@,
            row_heights: row_heights@,
            scale_x: scale_x as int,
            scale_y: scale_y as int,
            width: plane_width as int,
            height: plane_height as int,
        }));
        let samples = match compose_grid_plane(
            false,
            cells,
            p,
            column_widths,
            row_heights,
            source.subsampling_x,
            source.subsampling_y,
            scale_x,
            scale_y,
            plane_width,
            plane_height,
        ) {
            Ok(samples) => samples,
            Err(error) => {
                assert(!colour_plane_composable(*grid, views, p as int, width as int, height as int));
                return Err(error);
            },
        };
        assert(colour_plane_composable(*grid, views, p as int, width as int, height as int));
        let layout = PlaneLayout {
            plane: source.plane,
            width: plane_width,
            height: plane_height,
            subsampling_x: source.subsampling_x,
            subsampling_y: source.subsampling_y,
            sample_count: plane_width * plane_height,
        };
        planes.push(PlaneBuffer { layout, samples });
        p = p + 1;
    }
    proof {
        assert(plane_views(planes@) =~= Seq::new(
            views[0].buffers.planes.len(),
            |p: int| composed_colour_plane(*grid, views, p, width as int, height as int),
        ));
    }
    Ok(planes)
}

/// Composes the decoded cells of the primary grid into one frame (see
/// `grid_frame_outcome`); the cells are normalized first.
pub fn compose_grid_frame(info: &AvifInfo, decoded_cells: Vec<DecodedFrame>) -> (result: Result<DecodedFrame, DecoderError>)
    requires
        forall|k: int| 0 <= k < decoded_cells@.len() ==> decoded_planes_valid((#[trigger] decoded_cells@[k])@),
        normalize_depth_fits(frame_views(decoded_cells@)),
    ensures
        match (result, grid_frame_outcome(*info, frame_views(decoded_cells@))) {
            (Ok(frame), Ok(expected)) => frame@ == expected,
            (Err(error), Err(kind)) => error.kind() == kind,
            _ => false,
        },
        info.primary_grid is None ==> result is Err && result->Err_0.detail() == "AVIF grid metadata is missing"@,
        match info.primary_grid {
            Some(grid) => grid.cells@.len() != grid.rows * grid.columns ==> result is Err && result->Err_0.detail() == "grid has "@
                + crate::text::decimal_spec(grid.cells@.len()) + " cells, expected "@ + crate::text::decimal_spec(
                (grid.rows * grid.columns) as nat,
            ),
            None => true,
        },
{
    let ghost original = frame_views(decoded_cells@);
    let grid = match &info.primary_grid {
        Some(grid) => grid,
        None => return Err(DecoderError::Bitstream("AVIF grid metadata is missing".to_string())),
    };
    let rows = grid.rows as usize;
    let columns = grid.columns as usize;
    assert(rows * columns <= 255 * 255) by (nonlinear_arith)
        requires
            rows <= 255,
            columns <= 255,
    ;
    let cell_count = rows * columns;
    if grid.cells.len() != cell_count {
        let head = crate::text::concat("grid has ", crate::text::decimal(grid.cells.len() as u64).as_str());
        let head = crate::text::concat(head.as_str(), " cells, expected ");
        return Err(DecoderError::Bitstream(crate::text::concat(head.as_str(), crate::text::decimal(cell_count as u64).as_str())));
    }
    let width = grid.output_width as usize;
    let height = grid.output_height as usize;
    if width == 0 || height == 0 {
        return Err(DecoderError::Bitstream("grid output dimensions must be non-zero".to_string()));
    }
    let mut cells = decoded_cells;
    normalize_grid_cells(cells.as_mut_slice())?;
    let ghost normalized = frame_views(cells@);
    proof {
        match first_colour_cell(original, 0) {
            Some(t) => {
                lemma_normalized_prefix_valid(
                    original,
                    original[t].color_config,
                    original[t].color_information,
                    original[t].bit_depth,
                    cells_have_alpha(original),
                    original.len() as int,
                );
            },
            None => {},
        }
        assert forall|k: int| 0 <= k < cells@.len() implies decoded_planes_valid((#[trigger] cells@[k])@) by {
            assert(normalized[k] == cells@[k]@);
        }
    }
    if !grid_cells_all_nonzero(grid) {
        return Err(DecoderError::Bitstream("grid cell has zero dimensions".to_string()));
    }
    let (column_widths, row_heights) = grid_bands(grid, cells.as_slice(), "grid")?;
    let total_width = match band_total(column_widths.as_slice()) {
        Some(total) => total,
        None => return Err(DecoderError::InvalidParam("grid column widths overflow".to_string())),
    };
    let total_height = match band_total(row_heights.as_slice()) {
        Some(total) => total,
        None => return Err(DecoderError::InvalidParam("grid row heights overflow".to_string())),
    };
    if total_width < width || total_height < height {
        return Err(DecoderError::Bitstream("grid cell dimensions do not cover the declared output".to_string()));
    }
    if cells.len() == 0 {
        return Err(DecoderError::Bitstream("grid has no cells".to_string()));
    }
    if !cells_all_share_layout(cells.as_slice()) {
        return Err(DecoderError::Unsupported("grid cells use different AV1 plane or colour configurations".to_string()));
    }
    assert(normalized[0] == cells@[0]@);
    if !colour_planes_fit(grid, &cells[0], width, height) {
        return Err(DecoderError::InvalidParam("grid plane sample count overflows".to_string()));
    }
    let planes = compose_colour_planes(grid, cells.as_slice(), column_widths.as_slice(), row_heights.as_slice(), width, height)?;
    let frame = DecodedFrame {
        width,
        height,
        render_width: width,
        render_height: height,
        bit_depth: cells[0].bit_depth,
        color_config: cells[0].color_config,
        color_information: copy_color_information(&info.color_information),
        alpha_premultiplied: info.alpha_premultiplied,
        buffers: crate::av1::planes::FrameBuffers { width, height, planes },
    };
    Ok(frame)
}

/// What composing decoded RGBA cells of the primary grid gives (before alpha and
/// the item's geometric transforms): the output width, height and bytes; or the kind
/// of the first error, checked in this order: no grid, the cell count, an empty
/// output, cell sizes (zero, or along columns and rows), column and row totals that
/// overflow or do not cover the output, then composition (see `compose_grid_images`).
pub open spec fn grid_image_outcome(info: AvifInfo, decoded: Seq<ImageBuffer>) -> Result<(int, int, Seq<u8>), ErrorKind> {
    match info.primary_grid {
        None => Err(ErrorKind::Bitstream),
        Some(grid) => {
            let rows = grid.rows as int;
            let columns = grid.columns as int;
            let width = grid.output_width as int;
            let height = grid.output_height as int;
            let widths = grid_column_widths(grid);
            let heights = grid_row_heights(grid);
            if grid.cells@.len() != rows * columns {
                Err(ErrorKind::Bitstream)
            } else if width == 0 || height == 0 {
                Err(ErrorKind::Bitstream)
            } else if !grid_cells_nonzero(grid) || !grid_cells_consistent(grid) {
                Err(ErrorKind::Bitstream)
            } else if prefix_sum(widths, columns) > usize::MAX || prefix_sum(heights, rows) > usize::MAX {
                Err(ErrorKind::InvalidParam)
            } else if prefix_sum(widths, columns) < width || prefix_sum(heights, rows) < height {
                Err(ErrorKind::Bitstream)
            } else if decoded.len() != rows * columns || width * height * 4 > usize::MAX {
                Err(ErrorKind::InvalidParam)
            } else if !cells_fit_bands(decoded, widths, heights) {
                Err(ErrorKind::Bitstream)
            } else {
                Ok((width, height, grid_bytes(decoded, widths, heights, width, height)))
            }
        },
    }
}

/// Composes decoded RGBA cells of the primary grid into one image (see
/// `grid_image_outcome`).
pub fn compose_grid_image(info: &AvifInfo, decoded_cells: &[ImageBuffer]) -> (result: Result<ImageBuffer, DecoderError>)
    requires
        forall|k: int| 0 <= k < decoded_cells@.len() ==> (#[trigger] decoded_cells@[k]).well_formed(),
    ensures
        match (result, grid_image_outcome(*info, decoded_cells@)) {
            (Ok(image), Ok((width, height, rgba))) => image.width == width && image.height == height && image.rgba@ == rgba,
            (Err(error), Err(kind)) => error.kind() == kind,
            _ => false,
        },
{
    let grid = match &info.primary_grid {
        Some(grid) => grid,
        None => return Err(DecoderError::Bitstream("AVIF grid metadata is missing".to_string())),
    };
    let rows = grid.rows as usize;
    let columns = grid.columns as usize;
    assert(rows * columns <= 255 * 255) by (nonlinear_arith)
        requires
            rows <= 255,
            columns <= 255,
    ;
    let cell_count = rows * columns;
    if grid.cells.len() != cell_count {
        let head = crate::text::concat("grid has ", crate::text::decimal(grid.cells.len() as u64).as_str());
        let head = crate::text::concat(head.as_str(), " cells, expected ");
        return Err(DecoderError::Bitstream(crate::text::concat(head.as_str(), crate::text::decimal(cell_count as u64).as_str())));
    }
    let width = grid.output_width as usize;
    let height = grid.output_height as usize;
    if width == 0 || height == 0 {
        return Err(DecoderError::Bitstream("grid output dimensions must be non-zero".to_string()));
    }
    if !grid_cells_all_nonzero(grid) {
        return Err(DecoderError::Bitstream("grid cell has zero dimensions".to_string()));
    }
    let (column_widths, row_heights) = grid_band_sizes(grid, "grid")?;
    let total_width = match band_total(column_widths.as_slice()) {
        Some(total) => total,
        None => return Err(DecoderError::InvalidParam("grid column widths overflow".to_string())),
    };
    let total_height = match band_total(row_heights.as_slice()) {
        Some(total) => total,
        None => return Err(DecoderError::InvalidParam("grid row heights overflow".to_string())),
    };
    if total_width < width || total_height < height {
        return Err(DecoderError::Bitstream("grid cell dimensions do not cover the declared output".to_string()));
    }
    assert(column_widths@.len() == columns && row_heights@.len() == rows);
    let result = compose_grid_images(grid, decoded_cells, column_widths.as_slice(), row_heights.as_slice());
    assert(result matches Ok(image) ==> image.width == width && image.height == height);
    result
}

/// What composing the decoded RGBA cells of an alpha grid for an image of the given
/// size gives: the alpha image's bytes, or the kind of the first error, checked in
/// this order: an output size other than the image's, the cell count, cell sizes
/// along columns and rows, column or row totals that overflow, then composition
/// (see `compose_grid_images`).
pub open spec fn alpha_grid_outcome(image_width: usize, image_height: usize, grid: GridImage, decoded: Seq<ImageBuffer>) -> Result<Seq<u8>, ErrorKind> {
    let rows = grid.rows as int;
    let columns = grid.columns as int;
    let width = grid.output_width as int;
    let height = grid.output_height as int;
    let widths = grid_column_widths(grid);
    let heights = grid_row_heights(grid);
    if grid.output_width != image_width as u32 || grid.output_height != image_height as u32 {
        Err(ErrorKind::Bitstream)
    } else if grid.cells@.len() != rows * columns {
        Err(ErrorKind::Bitstream)
    } else if !grid_cells_consistent(grid) {
        Err(ErrorKind::Bitstream)
    } else if prefix_sum(widths, columns) > usize::MAX || prefix_sum(heights, rows) > usize::MAX {
        Err(ErrorKind::InvalidParam)
    } else if decoded.len() != rows * columns || width * height * 4 > usize::MAX {
        Err(ErrorKind::InvalidParam)
    } else if !cells_fit_bands(decoded, widths, heights) {
        Err(ErrorKind::Bitstream)
    } else {
        Ok(grid_bytes(decoded, widths, heights, width, height))
    }
}

/// The bytes of an RGBA image after the alpha byte of each pixel is taken from the
/// first byte of the matching pixel of `alpha`, as far as both have whole pixels.
pub open spec fn alpha_taken_from(rgba: Seq<u8>, alpha: Seq<u8>) -> Seq<u8> {
    let pixels = if rgba.len() / 4 < alpha.len() / 4 { rgba.len() / 4 } else { alpha.len() / 4 };
    Seq::new(rgba.len(), |i: int| if i % 4 == 3 && i / 4 < pixels { alpha[i - 3] } else { rgba[i] })
}

/// Sets the alpha of the image from an alpha grid whose cells are already decoded to
/// RGBA (their first byte is the alpha sample), see `alpha_grid_outcome`. On an
/// error the image is left as it was.
pub fn apply_alpha_grid(image: &mut ImageBuffer, grid: &GridImage, decoded_cells: &[ImageBuffer]) -> (result: Result<(), DecoderError>)
    requires
        forall|k: int| 0 <= k < decoded_cells@.len() ==> (#[trigger] decoded_cells@[k]).well_formed(),
    ensures
        final(image).width == old(image).width,
        final(image).height == old(image).height,
        match (result, alpha_grid_outcome(old(image).width, old(image).height, *grid, decoded_cells@)) {
            (Ok(()), Ok(alpha)) => final(image).rgba@ == alpha_taken_from(old(image).rgba@, alpha),
            (Err(error), Err(kind)) => error.kind() == kind && final(image).rgba@ == old(image).rgba@,
            _ => false,
        },
{
    if grid.output_width != image.width as u32 || grid.output_height != image.height as u32 {
        return Err(DecoderError::Bitstream("AVIF alpha grid dimensions do not match the primary grid".to_string()));
    }
    let rows = grid.rows as usize;
    let columns = grid.columns as usize;
    assert(rows * columns <= 255 * 255) by (nonlinear_arith)
        requires
            rows <= 255,
            columns <= 255,
    ;
    if grid.cells.len() != rows * columns {
        return Err(DecoderError::Bitstream("AVIF alpha grid cell count does not match its dimensions".to_string()));
    }
    let (column_widths, row_heights) = grid_band_sizes(grid, "alpha grid")?;
    if band_total(column_widths.as_slice()).is_none() || band_total(row_heights.as_slice()).is_none() {
        return Err(DecoderError::InvalidParam("alpha grid column widths or row heights overflow".to_string()));
    }
    let alpha = compose_grid_images(grid, decoded_cells, column_widths.as_slice(), row_heights.as_slice())?;
    let ghost before = image.rgba@;
    let ghost expected = alpha_taken_from(before, alpha.rgba@);
    let pixel_count = if image.rgba.len() / 4 < alpha.rgba.len() / 4 { image.rgba.len() / 4 } else { alpha.rgba.len() / 4 };
    let mut k: usize = 0;
    while k < pixel_count
        invariant
            pixel_count == (if before.len() / 4 < alpha.rgba@.len() / 4 { before.len() / 4 } else { alpha.rgba@.len() / 4 }),
            expected == alpha_taken_from(before, alpha.rgba@),
            k <= pixel_count,
            image.width == old(image).width,
            image.height == old(image).height,
            image.rgba@.len() == before.len(),
            forall|i: int| 0 <= i < before.len() ==> #[trigger] image.rgba@[i] == if i < 4 * k { expected[i] } else { before[i] },
        decreases pixel_count - k,
    {
        let alpha_total = alpha.rgba.len();
        let total = image.rgba.len();
        assert(4 * k + 3 < alpha_total && 4 * k + 3 < total);
        let value = alpha.rgba[4 * k];
        image.rgba.set(4 * k + 3, value);
        proof {
            assert forall|i: int| 0 <= i < before.len() implies #[trigger] image.rgba@[i] == if i < 4 * (k + 1) { expected[i] } else { before[i] } by {
                if 4 * k <= i < 4 * k + 3 {
                    assert(i / 4 == k && i % 4 != 3);
                } else if i == 4 * k + 3 {
                    assert(i / 4 == k && i % 4 == 3);
                }
            }
        }
        k = k + 1;
    }
    proof {
        assert forall|i: int| 0 <= i < before.len() implies #[trigger] image.rgba@[i] == expected[i] by {
            if i >= 4 * pixel_count {
                assert(!(i % 4 == 3 && i / 4 < pixel_count));
            }
        }
        assert(image.rgba@ =~= expected);
    }
    Ok(())
}

} // verus!
