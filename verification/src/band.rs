//! The partition of an image's rows into bands, one for each worker.

use vstd::prelude::*;

verus! {

/// A run of consecutive rows of an image.
#[derive(Clone, Copy, Debug, PartialEq, Eq, Structural)]
pub struct Band {
    /// The first row of the band.
    pub start: usize,
    /// The number of rows in the band.
    pub rows: usize,
}

impl Band {
    /// The row `row` of the image lies in this band.
    pub open spec fn holds(self, row: int) -> bool {
        self.start <= row < self.start + self.rows
    }

    /// The index, in a row-major buffer of rows `width` wide, of the first
    /// pixel of the band.
    pub fn offset(&self, width: usize) -> (at: usize)
        requires
            (self.start + self.rows) * width <= usize::MAX,
        ensures
            at == self.start * width,
    {
        proof {
            lemma_mul_le(self.start as int, self.start + self.rows, width as int);
        }
        self.start * width
    }

    /// The two pixels whose points in the plane bound the band's share of
    /// it, in an image `width` wide: the first pixel of its first row for
    /// the upper left corner, and for the lower right corner the pixel one
    /// past the end of the row below its last, where the next band begins.
    pub fn corners(&self, width: usize) -> (pair: ((usize, usize), (usize, usize)))
        requires
            self.start + self.rows <= usize::MAX,
        ensures
            pair == ((0usize, self.start), (width, (self.start + self.rows) as usize)),
    {
        ((0, self.start), (width, self.start + self.rows))
    }

    /// The number of pixels of the band, in rows `width` wide.
    pub fn len(&self, width: usize) -> (count: usize)
        requires
            (self.start + self.rows) * width <= usize::MAX,
        ensures
            count == self.rows * width,
    {
        proof {
            lemma_mul_le(self.rows as int, self.start + self.rows, width as int);
        }
        self.rows * width
    }
}

/// The rows that each band gets when `height` rows are shared out among
/// `workers` workers: `height / workers`, rounded up.
pub open spec fn rows_per_band(height: nat, workers: nat) -> nat {
    if height % workers == 0 {
        height / workers
    } else {
        height / workers + 1
    }
}

/// The number of bands that `height` rows are cut into for `workers`
/// workers: as many as it takes to hold every row, none of them empty.
#[verifier::opaque]
pub open spec fn band_count(height: nat, workers: nat) -> nat {
    let per = rows_per_band(height, workers);
    if height == 0 {
        0
    } else if height % per == 0 {
        height / per
    } else {
        height / per + 1
    }
}

/// The band with index `i`: it starts `i` full bands down, and is a full
/// band unless the image ends before.
#[verifier::opaque]
pub open spec fn band_at(height: nat, workers: nat, i: int) -> Band {
    let per = rows_per_band(height, workers);
    let start = i * per;
    Band {
        start: start as usize,
        rows: (if height - start < per {
            height - start
        } else {
            per as int
        }) as usize,
    }
}

/// The bands of an image of `height` rows for `workers` workers, from the
/// top down.
pub open spec fn planned(height: nat, workers: nat) -> Seq<Band> {
    Seq::new(band_count(height, workers), |i: int| band_at(height, workers, i))
}

/// The band of the plan in which the row `row` lies.
#[verifier::opaque]
pub open spec fn band_of_row(height: nat, workers: nat, row: int) -> Band {
    band_at(height, workers, row / (rows_per_band(height, workers) as int))
}

/// Cuts the `height` rows of an image into bands for `workers` workers:
/// bands of `height / workers` rows, rounded up, from the top down, the last
/// one shorter where the rows run out.
pub fn plan_bands(height: usize, workers: usize) -> (bands: Vec<Band>)
    requires
        workers > 0,
    ensures
        bands@ == planned(height as nat, workers as nat),
{
    proof {
        reveal(band_count);
        lemma_rows_per_band(height as nat, workers as nat);
    }
    let per: usize = if height % workers == 0 {
        height / workers
    } else {
        height / workers + 1
    };
    let mut bands: Vec<Band> = Vec::new();
    let mut start: usize = 0;
    while start < height
        invariant
            workers > 0,
            per == rows_per_band(height as nat, workers as nat),
            per > 0 || height == 0,
            start <= height,
            bands@.len() <= band_count(height as nat, workers as nat),
            start < height ==> start == bands@.len() * per,
            start == height ==> bands@.len() == band_count(height as nat, workers as nat),
            forall|i: int|
                0 <= i < bands@.len() ==> bands@[i] == band_at(height as nat, workers as nat, i),
        decreases height - start,
    {
        let rows: usize = if height - start < per {
            height - start
        } else {
            per
        };
        proof {
            let i = bands@.len() as int;
            lemma_count_bounds(height as nat, workers as nat);
            let count = band_count(height as nat, workers as nat) as int;
            assert(i < count) by (nonlinear_arith)
                requires
                    i * per < height,
                    i <= count,
                    (count - 1) * per < height,
                    count * per >= height,
                    per > 0,
            ;
            lemma_band_shape(height as nat, workers as nat, i);
            reveal(band_at);
            assert((i + 1) * per == i * per + per) by (nonlinear_arith);
            if i < count - 1 {
                assert((i + 1) * per <= (count - 1) * per) by (nonlinear_arith)
                    requires
                        i + 1 <= count - 1,
                        per > 0,
                ;
            }
        }
        bands.push(Band { start, rows });
        start = start + rows;
    }
    proof {
        assert(bands@ =~= planned(height as nat, workers as nat));
    }
    bands
}

/// The rows of a band are the rows of the image divided by the number of
/// workers and rounded up: `workers` bands of that size hold every row, and
/// bands one row shorter would not.
pub proof fn lemma_rows_per_band(height: nat, workers: nat)
    requires
        workers > 0,
    ensures
        height > 0 ==> rows_per_band(height, workers) > 0,
        rows_per_band(height, workers) <= height,
        rows_per_band(height, workers) * workers >= height,
        (rows_per_band(height, workers) - 1) * workers < height || height == 0,
        height % workers == 0 ==> rows_per_band(height, workers) * workers == height,
{
    let q = height / workers;
    let r = height % workers;
    assert(height == q * workers + r && 0 <= r < workers && q <= height) by (nonlinear_arith)
        requires
            workers > 0,
            q == height / workers,
            r == height % workers,
    ;
    if r != 0 {
        assert((q + 1) * workers == q * workers + workers) by (nonlinear_arith);
        assert(q + 1 <= height) by (nonlinear_arith)
            requires
                height == q * workers + r,
                r > 0,
                workers > 0,
                q >= 0,
        ;
    } else {
        if height > 0 {
            assert(q > 0) by (nonlinear_arith)
                requires
                    height == q * workers,
                    height > 0,
                    q >= 0,
            ;
        }
        assert((q - 1) * workers == q * workers - workers) by (nonlinear_arith);
    }
}

/// The bands tile the image: there are at most `workers` of them, none is
/// empty, the first starts at the top, each starts where the one before it
/// ends, and the last ends with the image.
pub proof fn lemma_bands_tile(height: nat, workers: nat)
    requires
        workers > 0,
        height <= usize::MAX,
    ensures
        planned(height, workers).len() <= workers,
        height > 0 <==> planned(height, workers).len() > 0,
        forall|i: int|
            0 <= i < planned(height, workers).len() ==> (#[trigger] planned(
                height,
                workers,
            )[i]).rows > 0,
        forall|i: int|
            0 <= i < planned(height, workers).len() ==> (#[trigger] planned(
                height,
                workers,
            )[i]).rows <= rows_per_band(height, workers),
        height > 0 ==> planned(height, workers)[0].start == 0,
        forall|i: int|
            0 <= i < planned(height, workers).len() - 1 ==> (#[trigger] planned(
                height,
                workers,
            )[i]).start + planned(height, workers)[i].rows == planned(height, workers)[i + 1].start,
        height > 0 ==> planned(height, workers).last().start + planned(
            height,
            workers,
        ).last().rows == height,
{
    reveal(band_count);
    if height > 0 {
        lemma_count_bounds(height, workers);
        assert forall|i: int| 0 <= i < planned(height, workers).len() implies {
            &&& 0 < (#[trigger] planned(height, workers)[i]).rows <= rows_per_band(height, workers)
            &&& i + 1 < planned(height, workers).len() ==> planned(height, workers)[i].start
                + planned(height, workers)[i].rows == planned(height, workers)[i + 1].start
        } by {
            lemma_band_shape(height, workers, i);
            lemma_band_within(height, workers, i);
        }
        lemma_band_shape(height, workers, 0);
        lemma_band_within(height, workers, planned(height, workers).len() - 1);
    }
}

/// The number of bands is what it takes and no more than there are
/// workers: so many bands hold every row, and one band fewer would not.
proof fn lemma_count_bounds(height: nat, workers: nat)
    requires
        workers > 0,
        height > 0,
    ensures
        0 < band_count(height, workers) <= workers,
        (band_count(height, workers) - 1) * rows_per_band(height, workers) < height,
        band_count(height, workers) * rows_per_band(height, workers) >= height,
{
    reveal(band_count);
    lemma_rows_per_band(height, workers);
    let per = rows_per_band(height, workers);
    let q = height / per;
    let r = height % per;
    let count = band_count(height, workers);
    assert(height == q * per + r && 0 <= r < per) by (nonlinear_arith)
        requires
            per > 0,
            q == height / per,
            r == height % per,
    ;
    assert(q > 0) by (nonlinear_arith)
        requires
            height == q * per + r,
            per <= height,
            0 <= r < per,
            q >= 0,
    ;
    assert((count - 1) * per < height && count * per >= height) by (nonlinear_arith)
        requires
            height == q * per + r,
            0 <= r < per,
            count == if r == 0 {
                q
            } else {
                q + 1
            },
    ;
    assert(count <= workers) by (nonlinear_arith)
        requires
            (count - 1) * per < height,
            per * workers >= height,
            per > 0,
            count > 0,
            workers > 0,
    {
        if count > workers {
            assert((count - 1) * per >= workers * per);
        }
    }
}

/// The band with index `i` starts `i` full bands down, inside the image;
/// it is a full band unless it is the last, which ends with the image.
proof fn lemma_band_shape(height: nat, workers: nat, i: int)
    requires
        workers > 0,
        0 < height <= usize::MAX,
        0 <= i < band_count(height, workers),
    ensures
        band_at(height, workers, i).start == i * rows_per_band(height, workers),
        band_at(height, workers, i).start < height,
        0 < band_at(height, workers, i).rows <= rows_per_band(height, workers),
        band_at(height, workers, i).start + band_at(height, workers, i).rows <= height,
        i < band_count(height, workers) - 1 ==> band_at(height, workers, i).rows == rows_per_band(
            height,
            workers,
        ),
        i == band_count(height, workers) - 1 ==> band_at(height, workers, i).start + band_at(
            height,
            workers,
            i,
        ).rows == height,
{
    reveal(band_at);
    lemma_rows_per_band(height, workers);
    lemma_count_bounds(height, workers);
    let per = rows_per_band(height, workers) as int;
    let count = band_count(height, workers) as int;
    assert(0 <= i * per <= (count - 1) * per) by (nonlinear_arith)
        requires
            0 <= i <= count - 1,
            per > 0,
    ;
    if i < count - 1 {
        assert((i + 1) * per <= (count - 1) * per) by (nonlinear_arith)
            requires
                i + 1 <= count - 1,
                per > 0,
        ;
        assert((i + 1) * per == i * per + per) by (nonlinear_arith);
    } else {
        assert(count * per == (count - 1) * per + per) by (nonlinear_arith);
    }
}

/// The band with index `i` lies inside the image, and the next band, or
/// the end of the image, begins where it ends.
pub proof fn lemma_band_within(height: nat, workers: nat, i: int)
    requires
        workers > 0,
        height <= usize::MAX,
        0 <= i < planned(height, workers).len(),
    ensures
        planned(height, workers)[i].rows > 0,
        planned(height, workers)[i].start + planned(height, workers)[i].rows <= height,
        i + 1 < planned(height, workers).len() ==> planned(height, workers)[i + 1].start
            == planned(height, workers)[i].start + planned(height, workers)[i].rows,
        i + 1 == planned(height, workers).len() ==> planned(height, workers)[i].start + planned(
            height,
            workers,
        )[i].rows == height,
{
    reveal(band_count);
    lemma_band_shape(height, workers, i);
    if i + 1 < planned(height, workers).len() {
        lemma_band_shape(height, workers, i + 1);
        let per = rows_per_band(height, workers) as int;
        assert((i + 1) * per == i * per + per) by (nonlinear_arith);
    }
}

/// No two bands of the plan share a row: a band ends before any later band
/// begins.
pub proof fn lemma_bands_are_disjoint(height: nat, workers: nat, i: int, j: int)
    requires
        workers > 0,
        height <= usize::MAX,
        0 <= i < j < planned(height, workers).len(),
    ensures
        planned(height, workers)[i].start + planned(height, workers)[i].rows <= planned(
            height,
            workers,
        )[j].start,
    decreases j - i,
{
    lemma_band_within(height, workers, i);
    if i + 1 < j {
        lemma_band_within(height, workers, i + 1);
        lemma_bands_are_disjoint(height, workers, i + 1, j);
    }
}

/// Every row of the image lies in exactly one band of the plan, the one
/// that `band_of_row` names: no two bands share a row, and no row is left
/// out.
pub proof fn lemma_row_in_one_band(height: nat, workers: nat, row: int)
    requires
        workers > 0,
        height <= usize::MAX,
        0 <= row < height,
    ensures
        0 <= row / (rows_per_band(height, workers) as int) < planned(height, workers).len(),
        band_of_row(height, workers, row) == planned(height, workers)[row / (rows_per_band(
            height,
            workers,
        ) as int)],
        band_of_row(height, workers, row).holds(row),
        forall|i: int|
            0 <= i < planned(height, workers).len() && (#[trigger] planned(height, workers)[i]).holds(
                row,
            ) ==> i == row / (rows_per_band(height, workers) as int),
{
    reveal(band_of_row);
    lemma_rows_per_band(height, workers);
    lemma_count_bounds(height, workers);
    let per = rows_per_band(height, workers) as int;
    let count = band_count(height, workers) as int;
    let k = row / per;
    assert(row == k * per + row % per && 0 <= row % per < per && k >= 0) by (nonlinear_arith)
        requires
            per > 0,
            row >= 0,
            k == row / per,
    ;
    assert(k < count) by (nonlinear_arith)
        requires
            row == k * per + row % per,
            0 <= row % per,
            row < height,
            count * per >= height,
            per > 0,
    {
        if k >= count {
            assert(k * per >= count * per);
        }
    }
    lemma_band_shape(height, workers, k);
    assert forall|i: int|
        0 <= i < planned(height, workers).len() && (#[trigger] planned(height, workers)[i]).holds(
            row,
        ) implies i == k by {
        lemma_band_shape(height, workers, i);
        assert(i == k) by (nonlinear_arith)
            requires
                i * per <= row < i * per + per,
                k * per <= row < k * per + per,
                per > 0,
        {
            if i < k {
                assert((i + 1) * per <= k * per);
            }
            if k < i {
                assert((k + 1) * per <= i * per);
            }
        }
    }
}

/// Where the workers share the rows out evenly, there is one band for each
/// worker and every band has the same number of rows.
pub proof fn lemma_even_split(height: nat, workers: nat)
    requires
        workers > 0,
        0 < height <= usize::MAX,
        height % workers == 0,
    ensures
        planned(height, workers).len() == workers,
        forall|i: int|
            0 <= i < workers ==> (#[trigger] planned(height, workers)[i]).rows == height / workers,
{
    lemma_rows_per_band(height, workers);
    lemma_count_bounds(height, workers);
    let per = rows_per_band(height, workers) as int;
    let count = band_count(height, workers) as int;
    assert(count == workers) by (nonlinear_arith)
        requires
            per * workers == height,
            (count - 1) * per < height,
            count * per >= height,
            per > 0,
    {
        if count < workers {
            assert(count * per <= (workers - 1) * per);
            assert((workers - 1) * per == workers * per - per);
        }
        if count > workers {
            assert((count - 1) * per >= workers * per);
        }
    }
    assert forall|i: int| 0 <= i < workers implies (#[trigger] planned(height, workers)[i]).rows
        == height / workers by {
        lemma_band_shape(height, workers, i);
        if i == count - 1 {
            assert(workers * per == (workers - 1) * per + per) by (nonlinear_arith);
            assert(per * workers == workers * per) by (nonlinear_arith);
        }
    }
}

proof fn lemma_mul_le(a: int, b: int, c: int)
    requires
        0 <= a <= b,
        0 <= c,
    ensures
        0 <= a * c <= b * c,
{
    assert(0 <= a * c <= b * c) by (nonlinear_arith)
        requires
            0 <= a <= b,
            0 <= c,
    ;
}

} // verus!
