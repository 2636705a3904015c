use mandelbrot::pair::{pair_of, parse_pair, parse_pair_with, split_pair};

#[test]
fn test_pair() {
    assert_eq!(parse_pair::<i32>("51x21", 'x'), Some((51, 21)));
    assert_eq!(parse_pair::<i32>("x21", 'x'), None);
    assert_eq!(parse_pair::<i32>("x", 'x'), None);

    assert_eq!(
        parse_pair::<f32>("21.534,432.2", ','),
        Some((21.534, 432.2))
    );
    assert_eq!(parse_pair::<f32>("21.534x432.2", ','), None);
}

#[test]
fn pair_of_two_floats() {
    assert_eq!(parse_pair::<f64>("21.0,10.1", ','), Some((21.0, 10.1)));
    assert_eq!(parse_pair::<f64>(",10.1", ','), None);
    assert_eq!(parse_pair::<f64>("-1.20,0.35", ','), Some((-1.20, 0.35)));
}

#[test]
fn pair_of_image_sizes() {
    assert_eq!(parse_pair::<usize>("1920x1080", 'x'), Some((1920, 1080)));
    assert_eq!(parse_pair::<usize>("1920x", 'x'), None);
    assert_eq!(parse_pair::<usize>("1920", 'x'), None);
    assert_eq!(parse_pair::<usize>("", 'x'), None);
    assert_eq!(parse_pair::<usize>("-1x2", 'x'), None);
}

#[test]
fn pair_splits_at_first_separator_only() {
    assert_eq!(parse_pair::<i32>("1x2x3", 'x'), None);
    assert_eq!(
        parse_pair::<String>("1x2x3", 'x'),
        Some((String::from("1"), String::from("2x3")))
    );
}

#[test]
fn split_at_first_separator() {
    assert_eq!(split_pair("51x21", 'x'), Some(("51", "21")));
    assert_eq!(split_pair("x21", 'x'), Some(("", "21")));
    assert_eq!(split_pair("51x", 'x'), Some(("51", "")));
    assert_eq!(split_pair("x", 'x'), Some(("", "")));
    assert_eq!(split_pair("axbxc", 'x'), Some(("a", "bxc")));
    assert_eq!(split_pair("xx", 'x'), Some(("", "x")));
}

#[test]
fn split_without_separator() {
    assert_eq!(split_pair("", 'x'), None);
    assert_eq!(split_pair("5121", 'x'), None);
    assert_eq!(split_pair("21.534x432.2", ','), None);
}

#[test]
fn split_counts_characters_not_bytes() {
    assert_eq!(split_pair("é×ü", '×'), Some(("é", "ü")));
    assert_eq!(split_pair("1é2", 'é'), Some(("1", "2")));
    assert_eq!(split_pair("→,←", ','), Some(("→", "←")));
}

#[test]
fn pair_needs_both_halves() {
    assert_eq!(pair_of(Some(1), Some(2)), Some((1, 2)));
    assert_eq!(pair_of(Some(1), None), None);
    assert_eq!(pair_of(None, Some(2)), None);
    assert_eq!(pair_of::<i32>(None, None), None);
}

#[test]
fn pair_with_a_parser_of_its_own() {
    let hex = |part: &str| u32::from_str_radix(part, 16).ok();
    assert_eq!(parse_pair_with("ff:10", ':', hex), Some((255, 16)));
    assert_eq!(parse_pair_with("ff:xyz", ':', hex), None);
    assert_eq!(parse_pair_with(":10", ':', hex), None);
    assert_eq!(parse_pair_with("ff", ':', hex), None);
}

#[test]
fn pair_hands_each_half_to_the_parser() {
    let length = |part: &str| Some(part.len());
    assert_eq!(parse_pair_with("ab,cde", ',', length), Some((2, 3)));
    assert_eq!(parse_pair_with(",", ',', length), Some((0, 0)));
    assert_eq!(parse_pair_with("ab,cd,e", ',', length), Some((2, 4)));
    assert_eq!(parse_pair_with("abcde", ',', length), None);
    let owned = |part: &str| Some(String::from(part));
    assert_eq!(
        parse_pair_with("left=right", '=', owned),
        Some((String::from("left"), String::from("right")))
    );
}
