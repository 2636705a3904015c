//! Rendering of one band of pixels.

use vstd::prelude::*;
use crate::shade::{intensity, shade};

verus! {

/// The byte of the pixel in column `col` of row `row`, in a row-major buffer
/// whose rows are `width` pixels wide.
pub open spec fn pixel(buffer: Seq<u8>, width: int, col: int, row: int) -> u8 {
    buffer[row * width + col]
}

/// `level` is the grey level of an escape result that `sample` may give for
/// the pixel in column `col` of row `row`.
pub open spec fn paints<F: Fn(usize, usize) -> Option<u64>>(
    sample: F,
    col: usize,
    row: usize,
    level: u8,
) -> bool {
    exists|escape: Option<u64>| #[trigger]
        sample.ensures((col, row), escape) && level == intensity(escape)
}

/// `buffer` holds, for every pixel of an image of `width` by `height`, the
/// grey level of what `sample` gives for it.
pub open spec fn rendered<F: Fn(usize, usize) -> Option<u64>>(
    buffer: Seq<u8>,
    width: usize,
    height: usize,
    sample: F,
) -> bool {
    &&& buffer.len() == width * height
    &&& forall|col: usize, row: usize|
        col < width && row < height ==> paints(
            sample,
            col,
            row,
            #[trigger] pixel(buffer, width as int, col as int, row as int),
        )
}

/// The number of pixels of an image of `dims.0` by `dims.1`, which is the
/// length of its buffer; `None` where no buffer can be that long.
pub fn pixel_count(dims: (usize, usize)) -> (count: Option<usize>)
    ensures
        match count {
            Some(n) => n == dims.0 * dims.1,
            None => dims.0 * dims.1 > usize::MAX,
        },
{
    dims.0.checked_mul(dims.1)
}

/// Fills `pixels`, the row-major buffer of a band of `dims.0` by `dims.1`
/// pixels, with the grey level of the escape result that `sample` gives for
/// each pixel, asked by column and row.
pub fn render<F: Fn(usize, usize) -> Option<u64>>(
    pixels: &mut [u8],
    dims: (usize, usize),
    sample: F,
)
    requires
        dims.0 * dims.1 == old(pixels).len(),
        forall|col: usize, row: usize| col < dims.0 && row < dims.1 ==> sample.requires((col, row)),
    ensures
        rendered(final(pixels)@, dims.0, dims.1, sample),
{
    let (width, height) = dims;
    let mut row: usize = 0;
    while row < height
        invariant
            row <= height,
            pixels.len() == width * height,
            forall|c: usize, r: usize| c < width && r < height ==> sample.requires((c, r)),
            forall|c: usize, r: usize|
                c < width && r < row ==> paints(
                    sample,
                    c,
                    r,
                    #[trigger] pixel(pixels@, width as int, c as int, r as int),
                ),
        decreases height - row,
    {
        let mut col: usize = 0;
        while col < width
            invariant
                row < height,
                col <= width,
                pixels.len() == width * height,
                forall|c: usize, r: usize| c < width && r < height ==> sample.requires((c, r)),
                forall|c: usize, r: usize|
                    c < width && (r < row || (r == row && c < col)) ==> paints(
                        sample,
                        c,
                        r,
                        #[trigger] pixel(pixels@, width as int, c as int, r as int),
                    ),
            decreases width - col,
        {
            proof {
                lemma_index_in_bounds(width as int, height as int, col as int, row as int);
            }
            let idx: usize = row * width + col;
            let escape = sample(col, row);
            let ghost before = pixels@;
            pixels[idx] = shade(escape);
            proof {
                assert forall|c: usize, r: usize|
                    c < width && (r < row || (r == row && c < col + 1)) implies paints(
                    sample,
                    c,
                    r,
                    #[trigger] pixel(pixels@, width as int, c as int, r as int),
                ) by {
                    lemma_index_in_bounds(width as int, height as int, c as int, r as int);
                    if c == col && r == row {
                    } else {
                        if r * width + c == row * width + col {
                            lemma_index_unique(
                                width as int,
                                c as int,
                                r as int,
                                col as int,
                                row as int,
                            );
                        }
                        assert(pixel(pixels@, width as int, c as int, r as int) == pixel(
                            before,
                            width as int,
                            c as int,
                            r as int,
                        ));
                    }
                }
            }
            col += 1;
        }
        row += 1;
    }
}

/// The image of `width` by `height` pixels in which every pixel has the
/// grey level of what `whole` gives for its column and row.
pub open spec fn shaded(
    width: usize,
    height: usize,
    whole: spec_fn(usize, usize) -> Option<u64>,
) -> Seq<u8> {
    Seq::new(
        (width * height) as nat,
        |i: int| intensity(whole((i % (width as int)) as usize, (i / (width as int)) as usize)),
    )
}

/// `sample` gives for every pixel of the image what `whole` gives, and
/// nothing else.
pub open spec fn samples<F: Fn(usize, usize) -> Option<u64>>(
    sample: F,
    width: usize,
    height: usize,
    whole: spec_fn(usize, usize) -> Option<u64>,
) -> bool {
    forall|col: usize, row: usize, escape: Option<u64>|
        col < width && row < height && #[trigger] sample.ensures((col, row), escape) ==> escape
            == whole(col, row)
}

/// A sampler that gives one result for each pixel leaves no choice: the
/// rendered buffer is the shaded image of its results.
pub proof fn lemma_render_is_shaded<F: Fn(usize, usize) -> Option<u64>>(
    buffer: Seq<u8>,
    width: usize,
    height: usize,
    sample: F,
    whole: spec_fn(usize, usize) -> Option<u64>,
)
    requires
        rendered(buffer, width, height, sample),
        samples(sample, width, height, whole),
    ensures
        buffer == shaded(width, height, whole),
{
    let image = shaded(width, height, whole);
    assert forall|i: int| 0 <= i < buffer.len() implies buffer[i] == image[i] by {
        lemma_pixel_of_index(width as int, height as int, i);
        let col = (i % (width as int)) as usize;
        let row = (i / (width as int)) as usize;
        assert(paints(sample, col, row, pixel(buffer, width as int, col as int, row as int)));
    }
    assert(buffer =~= image);
}

/// An image of one pixel holds the grey level of what the sampler gives
/// for that pixel.
pub proof fn lemma_single_pixel<F: Fn(usize, usize) -> Option<u64>>(buffer: Seq<u8>, sample: F)
    requires
        rendered(buffer, 1, 1, sample),
    ensures
        buffer.len() == 1,
        paints(sample, 0, 0, buffer[0]),
{
    assert(paints(sample, 0, 0, pixel(buffer, 1, 0, 0)));
}

/// The index `i` of a row-major buffer is that of the pixel in column
/// `i % width` of row `i / width`.
pub proof fn lemma_pixel_of_index(width: int, height: int, i: int)
    requires
        0 <= i < width * height,
        0 <= height,
        0 <= width,
    ensures
        0 <= i % width < width,
        0 <= i / width < height,
        (i / width) * width + i % width == i,
{
    assert(width > 0) by (nonlinear_arith)
        requires
            0 <= i < width * height,
            0 <= width,
    ;
    assert(0 <= i % width < width && (i / width) * width + i % width == i && 0 <= i / width)
        by (nonlinear_arith)
        requires
            width > 0,
            i >= 0,
    ;
    assert(i / width < height) by (nonlinear_arith)
        requires
            (i / width) * width + i % width == i,
            0 <= i % width,
            i < width * height,
            width > 0,
    {
        if i / width >= height {
            assert((i / width) * width >= height * width);
        }
    }
}

/// The row-major index of a pixel inside the image lies inside the buffer.
pub proof fn lemma_index_in_bounds(width: int, height: int, col: int, row: int)
    requires
        0 <= col < width,
        0 <= row < height,
    ensures
        0 <= row * width + col < width * height,
        row * width + col < (row + 1) * width <= width * height,
{
    assert(row * width + col < (row + 1) * width <= width * height && 0 <= row * width)
        by (nonlinear_arith)
        requires
            0 <= col < width,
            0 <= row < height,
    ;
}

/// Two pixels with the same row-major index are the same pixel.
pub proof fn lemma_index_unique(width: int, col: int, row: int, col2: int, row2: int)
    requires
        0 <= col < width,
        0 <= col2 < width,
        0 <= row,
        0 <= row2,
        row * width + col == row2 * width + col2,
    ensures
        col == col2,
        row == row2,
{
    assert(row == row2) by (nonlinear_arith)
        requires
            0 <= col < width,
            0 <= col2 < width,
            row * width + col == row2 * width + col2,
    {
        if row < row2 {
            assert((row2 - row) * width >= width);
        }
        if row2 < row {
            assert((row - row2) * width >= width);
        }
    }
}

} // verus!
