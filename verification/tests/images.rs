use mandelbrot::band::Band;
use mandelbrot::escape::escape_time;
use mandelbrot::render::{pixel_count, render};
use mandelbrot::schedule::render_bands;
use mandelbrot::shade::shade;

fn point(dims: (usize, usize), pixel: (usize, usize)) -> (f64, f64) {
    (
        -2.0 + pixel.0 as f64 * 3.0 / dims.0 as f64,
        1.0 - pixel.1 as f64 * 2.0 / dims.1 as f64,
    )
}

fn escape(c: (f64, f64)) -> Option<u64> {
    escape_time(
        (0.0, 0.0),
        255,
        |z: (f64, f64)| (z.0 * z.0 - z.1 * z.1 + c.0, 2.0 * z.0 * z.1 + c.1),
        |z: &(f64, f64)| z.0 * z.0 + z.1 * z.1 > 4.0,
    )
}

fn chessboard(col: usize, row: usize) -> Option<u64> {
    if (col + row) % 2 == 0 {
        Some((10 * row + col) as u64)
    } else {
        None
    }
}

#[test]
fn shade_of_escape_results() {
    assert_eq!(shade(None), 0);
    assert_eq!(shade(Some(0)), 255);
    assert_eq!(shade(Some(1)), 254);
    assert_eq!(shade(Some(100)), 155);
    assert_eq!(shade(Some(254)), 1);
    assert_eq!(shade(Some(255)), 0);
}

#[test]
fn shade_beyond_a_byte_wraps() {
    assert_eq!(shade(Some(256)), 255);
    assert_eq!(shade(Some(257)), 254);
    assert_eq!(shade(Some(511)), 0);
    assert_eq!(shade(Some(u64::MAX)), 0);
}

#[test]
fn pixel_count_of_an_image() {
    assert_eq!(pixel_count((100, 100)), Some(10_000));
    assert_eq!(pixel_count((1920, 1080)), Some(2_073_600));
    assert_eq!(pixel_count((0, 5)), Some(0));
    assert_eq!(pixel_count((usize::MAX, 1)), Some(usize::MAX));
    assert_eq!(pixel_count((usize::MAX, 2)), None);
    assert_eq!(pixel_count((usize::MAX, usize::MAX)), None);
}

#[test]
fn render_is_row_major() {
    let mut pixels: Vec<u8> = vec![7; 6];
    render(&mut pixels, (3, 2), chessboard);
    assert_eq!(pixels, vec![255, 0, 253, 0, 244, 0]);
}

#[test]
fn render_overwrites_every_pixel() {
    let mut pixels: Vec<u8> = vec![99; 12];
    render(&mut pixels, (4, 3), |_, _| None);
    assert_eq!(pixels, vec![0; 12]);
    render(&mut pixels, (4, 3), |_, _| Some(0));
    assert_eq!(pixels, vec![255; 12]);
}

#[test]
fn render_asks_by_column_and_row() {
    let mut pixels: Vec<u8> = vec![0; 8];
    render(&mut pixels, (4, 2), |col, row| Some((16 * col + row) as u64));
    assert_eq!(pixels, vec![255, 239, 223, 207, 254, 238, 222, 206]);
}

#[test]
fn render_of_a_single_pixel() {
    let mut pixels: Vec<u8> = vec![0; 1];
    render(&mut pixels, (1, 1), |col, row| escape(point((1, 1), (col, row))));
    assert_eq!(pixels, vec![shade(escape((-2.0, 1.0)))]);
    assert_eq!(pixels, vec![255]);

    let mut inside: Vec<u8> = vec![9; 1];
    render(&mut inside, (1, 1), |_, _| escape((0.0, 0.0)));
    assert_eq!(inside, vec![0]);
}

#[test]
fn render_of_an_empty_image() {
    let mut none: Vec<u8> = vec![];
    render(&mut none, (0, 0), chessboard);
    render(&mut none, (0, 5), chessboard);
    render(&mut none, (5, 0), chessboard);
    assert_eq!(none, vec![]);
}

#[test]
fn render_matches_direct_evaluation() {
    let dims: (usize, usize) = (24, 16);
    let mut pixels: Vec<u8> = vec![0; 24 * 16];
    render(&mut pixels, dims, |col, row| escape(point(dims, (col, row))));
    for row in 0..16 {
        for col in 0..24 {
            assert_eq!(pixels[row * 24 + col], shade(escape(point(dims, (col, row)))));
        }
    }
    assert_eq!(pixels[0], 255);
    assert_eq!(pixels[8 * 24 + 16], 0);
}

#[test]
fn bands_render_as_one() {
    let dims: (usize, usize) = (5, 7);
    let mut whole: Vec<u8> = vec![0; 35];
    render(&mut whole, dims, chessboard);
    let mut workers: usize = 1;
    while workers <= 9 {
        let mut banded: Vec<u8> = vec![1; 35];
        render_bands(&mut banded, dims, workers, |band: Band, col, row| {
            chessboard(col, band.start + row)
        });
        assert_eq!(banded, whole);
        workers += 1;
    }
}

#[test]
fn one_worker_and_many_render_the_same_bytes() {
    let dims: (usize, usize) = (30, 24);
    let sample = |band: Band, col: usize, row: usize| escape(point(dims, (col, band.start + row)));
    let mut single: Vec<u8> = vec![0; 30 * 24];
    render_bands(&mut single, dims, 1, sample);
    for workers in [2usize, 3, 4, 6, 8, 12, 24] {
        let mut shared: Vec<u8> = vec![0; 30 * 24];
        render_bands(&mut shared, dims, workers, sample);
        assert_eq!(shared, single);
    }
}

#[test]
fn bands_ask_within_their_own_rows() {
    let mut pixels: Vec<u8> = vec![0; 14];
    render_bands(&mut pixels, (2, 7), 3, |band: Band, _, row| {
        assert!(row < band.rows);
        Some((10 * band.start + row) as u64)
    });
    assert_eq!(
        pixels,
        vec![255, 255, 254, 254, 253, 253, 225, 225, 224, 224, 223, 223, 195, 195]
    );
}

#[test]
fn bands_of_an_empty_image() {
    let mut none: Vec<u8> = vec![];
    render_bands(&mut none, (0, 0), 4, |_, col, row| chessboard(col, row));
    render_bands(&mut none, (6, 0), 4, |_, col, row| chessboard(col, row));
    assert_eq!(none, vec![]);
    render_bands(&mut none, (0, 6), 4, |_, col, row| chessboard(col, row));
    assert_eq!(none, vec![]);
}
