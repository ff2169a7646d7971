use suds::Grid;

#[test]
fn round_trip() {
    let expected = r"
┌─────────────────────────────┐
│ 3  7  5 ┆ 4  1  6 ┆ 8  9  2 │
│ 4  1  6 ┆ 8  9  2 ┆ 3  7  5 │
│ 8  9  2 ┆ 3  7  5 ┆ 4  1  6 │
│┄┄┄┄┄┄┄┄┄┼┄┄┄┄┄┄┄┄┄┼┄┄┄┄┄┄┄┄┄│
│ 7  3  4 ┆ 5  6  1 ┆ 9  2  8 │
│ 5  6  1 ┆ 9  2  8 ┆ 7  3  4 │
│ 9  2  8 ┆ 7  3  4 ┆ 5  6  1 │
│┄┄┄┄┄┄┄┄┄┼┄┄┄┄┄┄┄┄┄┼┄┄┄┄┄┄┄┄┄│
│ 1  5  3 ┆ 6  4  7 ┆ 2  8  9 │
│ 6  4  7 ┆ 2  8  9 ┆ 1  5  3 │
│ 2  8  9 ┆ 1  5  3 ┆ 6  4  7 │
└─────────────────────────────┘
";
    let expected = expected.trim_start();
    let grid: Grid = Grid::parse(expected).unwrap();
    assert_eq!(grid.render(), expected);
}

#[test]
fn round_trip_empty() {
    let expected = r"
┌─────────────────────────────┐
│ .  .  . ┆ .  .  . ┆ .  .  . │
│ .  .  . ┆ .  .  . ┆ .  .  . │
│ .  .  . ┆ .  .  . ┆ .  .  . │
│┄┄┄┄┄┄┄┄┄┼┄┄┄┄┄┄┄┄┄┼┄┄┄┄┄┄┄┄┄│
│ .  .  . ┆ .  .  . ┆ .  .  . │
│ .  .  . ┆ .  .  . ┆ .  .  . │
│ .  .  . ┆ .  .  . ┆ .  .  . │
│┄┄┄┄┄┄┄┄┄┼┄┄┄┄┄┄┄┄┄┼┄┄┄┄┄┄┄┄┄│
│ .  .  . ┆ .  .  . ┆ .  .  . │
│ .  .  . ┆ .  .  . ┆ .  .  . │
│ .  .  . ┆ .  .  . ┆ .  .  . │
└─────────────────────────────┘
";
    let expected = expected.trim_start();
    let grid: Grid = Grid::parse(expected).unwrap();
    assert_eq!(grid, Grid::empty());
    assert_eq!(grid.render(), expected);
}

#[test]
fn zeros_as_empty() {
    let expected = r"
┌─────────────────────────────┐
│ 0  0  0 ┆ 0  0  0 ┆ 0  0  0 │
│ 0  0  0 ┆ 0  0  0 ┆ 0  0  0 │
│ 0  0  0 ┆ 0  0  0 ┆ 0  0  0 │
│┄┄┄┄┄┄┄┄┄┼┄┄┄┄┄┄┄┄┄┼┄┄┄┄┄┄┄┄┄│
│ 0  0  0 ┆ 0  0  0 ┆ 0  0  0 │
│ 0  0  0 ┆ 0  0  0 ┆ 0  0  0 │
│ 0  0  0 ┆ 0  0  0 ┆ 0  0  0 │
│┄┄┄┄┄┄┄┄┄┼┄┄┄┄┄┄┄┄┄┼┄┄┄┄┄┄┄┄┄│
│ 0  0  0 ┆ 0  0  0 ┆ 0  0  0 │
│ 0  0  0 ┆ 0  0  0 ┆ 0  0  0 │
│ 0  0  0 ┆ 0  0  0 ┆ 0  0  0 │
└─────────────────────────────┘
";
    let expected = expected.trim_start();
    let grid: Grid = Grid::parse(expected).unwrap();
    assert_eq!(grid, Grid::empty());
}

#[test]
fn short_input_leaves_rest_empty() {
    let grid = Grid::parse("5").unwrap();
    assert_eq!(grid.get(0, 0), suds::Space::Occupied(suds::Value::Five));
    for y in 0..9u8 {
        for x in 0..9u8 {
            if (x, y) != (0, 0) {
                assert_eq!(grid.get(x, y), suds::Space::Empty);
            }
        }
    }
}

#[test]
fn too_many_digits_is_a_parse_error() {
    let text: String = "1".repeat(82);
    assert_eq!(Grid::parse(&text), Err(suds::Error::Parse));
}

#[test]
fn decoration_is_ignored() {
    let with_noise = "| 1 2 3 |\nx4,5,6x\n(789)";
    let plain = "123456789";
    assert_eq!(Grid::parse(with_noise).unwrap(), Grid::parse(plain).unwrap());
}

#[test]
fn empty_text_parses_to_empty_grid() {
    assert_eq!(Grid::parse("").unwrap(), Grid::empty());
}
