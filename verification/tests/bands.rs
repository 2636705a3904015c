use mandelbrot::band::{plan_bands, Band};

fn band(start: usize, rows: usize) -> Band {
    Band { start, rows }
}

#[test]
fn bands_of_an_even_split() {
    assert_eq!(plan_bands(8, 4), vec![band(0, 2), band(2, 2), band(4, 2), band(6, 2)]);
    assert_eq!(plan_bands(6, 1), vec![band(0, 6)]);
    assert_eq!(plan_bands(3, 3), vec![band(0, 1), band(1, 1), band(2, 1)]);
}

#[test]
fn bands_round_up_and_the_last_is_shorter() {
    assert_eq!(plan_bands(7, 3), vec![band(0, 3), band(3, 3), band(6, 1)]);
    assert_eq!(plan_bands(10, 4), vec![band(0, 3), band(3, 3), band(6, 3), band(9, 1)]);
}

#[test]
fn bands_are_fewer_than_workers_where_rows_run_out() {
    assert_eq!(
        plan_bands(10, 8),
        vec![band(0, 2), band(2, 2), band(4, 2), band(6, 2), band(8, 2)]
    );
    assert_eq!(plan_bands(3, 8), vec![band(0, 1), band(1, 1), band(2, 1)]);
    assert_eq!(plan_bands(1, 8), vec![band(0, 1)]);
}

#[test]
fn bands_of_an_image_without_rows() {
    assert_eq!(plan_bands(0, 1), vec![]);
    assert_eq!(plan_bands(0, 8), vec![]);
}

#[test]
fn bands_of_a_full_screen() {
    let bands = plan_bands(1080, 8);
    assert_eq!(bands.len(), 8);
    for (i, b) in bands.iter().enumerate() {
        assert_eq!(*b, band(i * 135, 135));
    }
}

#[test]
fn bands_tile_the_rows() {
    let mut height: usize = 0;
    while height <= 40 {
        let mut workers: usize = 1;
        while workers <= 12 {
            let bands = plan_bands(height, workers);
            assert!(bands.len() <= workers);
            let mut next: usize = 0;
            for b in bands.iter() {
                assert_eq!(b.start, next);
                assert!(b.rows > 0);
                assert!(b.rows <= (height + workers - 1) / workers);
                next = b.start + b.rows;
            }
            assert_eq!(next, height);
            if height > 0 && height % workers == 0 {
                assert_eq!(bands.len(), workers);
                assert!(bands.iter().all(|b| b.rows == height / workers));
            }
            workers += 1;
        }
        height += 1;
    }
}

#[test]
fn band_offset_and_length() {
    let b = band(6, 3);
    assert_eq!(b.offset(10), 60);
    assert_eq!(b.len(10), 30);
    assert_eq!(b.offset(0), 0);
    assert_eq!(b.len(0), 0);
    assert_eq!(band(0, 1).offset(7), 0);
    assert_eq!(band(0, 1).len(7), 7);
}

#[test]
fn band_corners() {
    assert_eq!(band(6, 3).corners(10), ((0, 6), (10, 9)));
    assert_eq!(band(0, 4).corners(1), ((0, 0), (1, 4)));
    let bands = plan_bands(7, 3);
    assert_eq!((bands[0].corners(5).1).1, (bands[1].corners(5).0).1);
    assert_eq!((bands[1].corners(5).1).1, (bands[2].corners(5).0).1);
    assert_eq!(bands[2].corners(5).1, (5, 7));
}
