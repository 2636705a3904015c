//! Rendering of a whole image, band by band.

use vstd::prelude::*;
use crate::band::{
    band_of_row, lemma_band_within, lemma_bands_are_disjoint, lemma_bands_tile,
    lemma_row_in_one_band, plan_bands, planned, rows_per_band, Band,
};
use crate::render::{lemma_index_in_bounds, lemma_pixel_of_index, paints, pixel, render, shaded};
use crate::shade::intensity;

verus! {

/// `level` is the grey level of an escape result that `sample` may give for
/// the pixel in column `col` of row `row` of the band `band`, the rows
/// counted from the band's first.
pub open spec fn paints_in_band<F: Fn(Band, usize, usize) -> Option<u64>>(
    sample: F,
    band: Band,
    col: usize,
    row: usize,
    level: u8,
) -> bool {
    exists|escape: Option<u64>| #[trigger]
        sample.ensures((band, col, row), escape) && level == intensity(escape)
}

/// `buffer` holds, for every pixel of an image of `width` by `height` cut
/// into bands for `workers` workers, the grey level of what `sample` gives
/// for that pixel within the band in which its row lies.
pub open spec fn rendered_in_bands<F: Fn(Band, usize, usize) -> Option<u64>>(
    buffer: Seq<u8>,
    width: usize,
    height: usize,
    workers: usize,
    sample: F,
) -> bool {
    &&& buffer.len() == width * height
    &&& forall|col: usize, row: usize|
        col < width && row < height ==> paints_in_band(
            sample,
            band_of_row(height as nat, workers as nat, row as int),
            col,
            (row - band_of_row(height as nat, workers as nat, row as int).start) as usize,
            #[trigger] pixel(buffer, width as int, col as int, row as int),
        )
}

/// The part of the row-major `buffer` of an image `width` wide that holds
/// the rows of `band`.
pub open spec fn band_slice(buffer: Seq<u8>, width: usize, band: Band) -> Seq<u8> {
    buffer.subrange(band.start * width, (band.start + band.rows) * width)
}

/// `slice` holds, for every pixel of `band` in an image `width` wide, the
/// grey level of what `sample` gives for it within the band.
pub open spec fn band_rendered<F: Fn(Band, usize, usize) -> Option<u64>>(
    slice: Seq<u8>,
    width: usize,
    band: Band,
    sample: F,
) -> bool {
    &&& slice.len() == band.rows * width
    &&& forall|col: usize, row: usize|
        col < width && row < band.rows ==> paints_in_band(
            sample,
            band,
            col,
            row,
            #[trigger] pixel(slice, width as int, col as int, row as int),
        )
}

/// Bands rendered apart make the image: where the part of the buffer that
/// belongs to each band of the plan holds that band rendered by itself, in
/// whatever order and by whomever, the buffer holds the image rendered
/// band by band.
pub proof fn lemma_bands_combine<F: Fn(Band, usize, usize) -> Option<u64>>(
    buffer: Seq<u8>,
    width: usize,
    height: usize,
    workers: usize,
    sample: F,
)
    requires
        workers > 0,
        buffer.len() == width * height,
        forall|i: int|
            0 <= i < planned(height as nat, workers as nat).len() ==> band_rendered(
                band_slice(buffer, width, #[trigger] planned(height as nat, workers as nat)[i]),
                width,
                planned(height as nat, workers as nat)[i],
                sample,
            ),
    ensures
        rendered_in_bands(buffer, width, height, workers, sample),
{
    assert forall|col: usize, row: usize| col < width && row < height implies paints_in_band(
        sample,
        band_of_row(height as nat, workers as nat, row as int),
        col,
        (row - band_of_row(height as nat, workers as nat, row as int).start) as usize,
        #[trigger] pixel(buffer, width as int, col as int, row as int),
    ) by {
        lemma_row_in_one_band(height as nat, workers as nat, row as int);
        let band = band_of_row(height as nat, workers as nat, row as int);
        let slice = band_slice(buffer, width, band);
        let r = (row - band.start) as usize;
        assert(band_rendered(slice, width, band, sample));
        lemma_index_in_bounds(width as int, band.rows as int, col as int, r as int);
        assert(width * band.rows == band.rows * width) by (nonlinear_arith);
        assert(row * width + col == band.start * width + (r * width + col)) by (nonlinear_arith)
            requires
                r == row - band.start,
        ;
        assert((band.start + band.rows) * width == band.start * width + band.rows * width)
            by (nonlinear_arith);
        lemma_band_within(
            height as nat,
            workers as nat,
            (row as int) / (rows_per_band(height as nat, workers as nat) as int),
        );
        assert(0 <= band.start * width && (band.start + band.rows) * width <= width * height)
            by (nonlinear_arith)
            requires
                0 <= band.start,
                band.start + band.rows <= height,
                0 <= width,
        ;
        assert(pixel(slice, width as int, col as int, r as int) == pixel(
            buffer,
            width as int,
            col as int,
            row as int,
        ));
    }
}

/// `sample` gives for a pixel, from whatever band it is asked, what `whole`
/// gives for that pixel in the image, and nothing else: the bands meet
/// without a seam.
pub open spec fn seamless<F: Fn(Band, usize, usize) -> Option<u64>>(
    sample: F,
    width: usize,
    height: usize,
    whole: spec_fn(usize, usize) -> Option<u64>,
) -> bool {
    forall|band: Band, col: usize, row: usize, escape: Option<u64>|
        col < width && band.start + row < height && #[trigger] sample.ensures(
            (band, col, row),
            escape,
        ) ==> escape == whole(col, (band.start + row) as usize)
}

/// With a seamless sampler the bands leave no trace: whatever the number
/// of workers, the buffer rendered band by band is the shaded image of the
/// sampler's results.
pub proof fn lemma_bands_leave_no_trace<F: Fn(Band, usize, usize) -> Option<u64>>(
    buffer: Seq<u8>,
    width: usize,
    height: usize,
    workers: usize,
    sample: F,
    whole: spec_fn(usize, usize) -> Option<u64>,
)
    requires
        workers > 0,
        rendered_in_bands(buffer, width, height, workers, sample),
        seamless(sample, width, height, whole),
    ensures
        buffer == shaded(width, height, whole),
{
    let image = shaded(width, height, whole);
    assert forall|i: int| 0 <= i < buffer.len() implies buffer[i] == image[i] by {
        lemma_pixel_of_index(width as int, height as int, i);
        let col = (i % (width as int)) as usize;
        let row = (i / (width as int)) as usize;
        let band = band_of_row(height as nat, workers as nat, row as int);
        lemma_row_in_one_band(height as nat, workers as nat, row as int);
        assert(paints_in_band(
            sample,
            band,
            col,
            (row - band.start) as usize,
            pixel(buffer, width as int, col as int, row as int),
        ));
    }
    assert(buffer =~= image);
}

/// The number of workers does not show in the image: with a seamless
/// sampler, rendering in the bands of one number of workers and in those
/// of another gives the same bytes.
pub proof fn lemma_worker_count_is_immaterial<F: Fn(Band, usize, usize) -> Option<u64>>(
    first: Seq<u8>,
    second: Seq<u8>,
    width: usize,
    height: usize,
    workers: usize,
    other_workers: usize,
    sample: F,
    whole: spec_fn(usize, usize) -> Option<u64>,
)
    requires
        workers > 0,
        other_workers > 0,
        rendered_in_bands(first, width, height, workers, sample),
        rendered_in_bands(second, width, height, other_workers, sample),
        seamless(sample, width, height, whole),
    ensures
        first == second,
{
    lemma_bands_leave_no_trace(first, width, height, workers, sample, whole);
    lemma_bands_leave_no_trace(second, width, height, other_workers, sample, whole);
}

/// Renders an image of `dims.0` by `dims.1` pixels into `pixels` one band
/// after the other, in the bands that `workers` workers would share: each
/// band is rendered into its own part of the buffer, with `sample` asked
/// for the band, the column and the row within the band.
pub fn render_bands<F: Fn(Band, usize, usize) -> Option<u64>>(
    pixels: &mut [u8],
    dims: (usize, usize),
    workers: usize,
    sample: F,
)
    requires
        workers > 0,
        dims.0 * dims.1 == old(pixels).len(),
        forall|i: int, col: usize, row: usize|
            0 <= i < planned(dims.1 as nat, workers as nat).len() && col < dims.0 && row < planned(
                dims.1 as nat,
                workers as nat,
            )[i].rows ==> #[trigger] sample.requires(
                (planned(dims.1 as nat, workers as nat)[i], col, row),
            ),
    ensures
        rendered_in_bands(final(pixels)@, dims.0, dims.1, workers, sample),
{
    let (width, height) = dims;
    let bands = plan_bands(height, workers);
    let ghost outcome = final(pixels)@;
    let ghost plan = planned(height as nat, workers as nat);
    let mut rest: &mut [u8] = pixels;
    let ghost mut done: Seq<u8> = Seq::empty();
    let ghost mut covered: int = 0;
    let mut i: usize = 0;
    proof {
        lemma_bands_tile(height as nat, workers as nat);
        assert((height - 0) * width == width * height) by (nonlinear_arith);
    }
    while i < bands.len()
        invariant
            workers > 0,
            i <= bands@.len(),
            bands@ == plan,
            plan == planned(height as nat, workers as nat),
            0 <= covered <= height,
            i < plan.len() ==> plan[i as int].start == covered,
            i == plan.len() ==> covered == height,
            done.len() == covered * width,
            rest.len() == (height - covered) * width,
            outcome == done + final(rest)@,
            forall|k: int, col: usize, row: usize|
                0 <= k < plan.len() && col < width && row < plan[k].rows
                    ==> #[trigger] sample.requires((plan[k], col, row)),
            forall|k: int|
                0 <= k < i ==> band_rendered(
                    band_slice(done, width, #[trigger] plan[k]),
                    width,
                    plan[k],
                    sample,
                ),
        decreases bands@.len() - i,
    {
        let band = bands[i];
        proof {
            lemma_band_within(height as nat, workers as nat, i as int);
            assert(band.rows * width <= (height - covered) * width) by (nonlinear_arith)
                requires
                    0 <= band.rows <= height - covered,
                    0 <= width,
            ;
        }
        let count: usize = band.rows * width;
        let current = rest;
        let (slice, tail) = current.split_at_mut(count);
        let sampler: &F = &sample;
        let local = |col: usize, row: usize| -> (escape: Option<u64>)
            requires
                sampler.requires((band, col, row)),
            ensures
                sampler.ensures((band, col, row), escape),
            { sampler(band, col, row) };
        assert(slice.len() == width * band.rows) by (nonlinear_arith)
            requires
                slice.len() == band.rows * width,
        ;
        render(slice, (width, band.rows), local);
        rest = tail;
        proof {
            let before = done;
            done = done + slice@;
            assert(outcome =~= done + final(rest)@);
            assert((height - (covered + band.rows)) * width == (height - covered) * width
                - band.rows * width) by (nonlinear_arith);
            assert((covered + band.rows) * width == covered * width + band.rows * width)
                by (nonlinear_arith);
            assert forall|k: int| 0 <= k < i + 1 implies band_rendered(
                band_slice(done, width, #[trigger] plan[k]),
                width,
                plan[k],
                sample,
            ) by {
                if k < i {
                    lemma_bands_are_disjoint(height as nat, workers as nat, k, i as int);
                    assert(0 <= plan[k].start * width <= (plan[k].start + plan[k].rows) * width
                        <= covered * width) by (nonlinear_arith)
                        requires
                            0 <= plan[k].start,
                            0 <= plan[k].rows,
                            plan[k].start + plan[k].rows <= covered,
                            0 <= width,
                    ;
                    assert(band_slice(done, width, plan[k]) =~= band_slice(before, width, plan[k]));
                } else {
                    assert(band_slice(done, width, band) =~= slice@);
                    assert forall|col: usize, row: usize|
                        col < width && row < band.rows implies paints_in_band(
                        sample,
                        band,
                        col,
                        row,
                        #[trigger] pixel(slice@, width as int, col as int, row as int),
                    ) by {
                        assert(paints(
                            local,
                            col,
                            row,
                            pixel(slice@, width as int, col as int, row as int),
                        ));
                        let escape = choose|escape: Option<u64>| #[trigger]
                            local.ensures((col, row), escape) && pixel(
                                slice@,
                                width as int,
                                col as int,
                                row as int,
                            ) == intensity(escape);
                        assert(sample.ensures((band, col, row), escape));
                    }
                }
            }
            covered = covered + band.rows;
        }
        i += 1;
    }
    proof {
        assert(height * width == width * height) by (nonlinear_arith);
        assert((height - height) * width == 0) by (nonlinear_arith);
        assert(outcome =~= done);
        lemma_bands_combine(outcome, width, height, workers, sample);
    }
}

} // verus!
