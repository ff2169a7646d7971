use suds::Error;
use suds::Grid;
use suds::Rgb;
use suds::Space;
use suds::Value;

#[test]
fn value_digits_round_trip() {
    for d in 1..=9u8 {
        let v = Value::from_digit(d).unwrap();
        assert_eq!(v.to_digit(), d);
        assert_eq!(v, Value::of_digit(d));
    }
}

#[test]
fn value_rejects_out_of_range_digits() {
    assert_eq!(Value::from_digit(0), Err(Error::InvalidValue));
    assert_eq!(Value::from_digit(10), Err(Error::InvalidValue));
    assert_eq!(Value::from_digit(255), Err(Error::InvalidValue));
}

#[test]
fn value_characters() {
    assert_eq!(Value::One.to_char(), '1');
    assert_eq!(Value::Nine.to_char(), '9');
}

#[test]
fn value_colors() {
    assert_eq!(Value::One.color(), Rgb { r: 255, g: 0, b: 0 });
    assert_eq!(Value::Five.color(), Rgb { r: 0, g: 180, b: 80 });
    assert_eq!(Value::Nine.color(), Rgb { r: 240, g: 20, b: 255 });
}

#[test]
fn all_values_lists_each_digit_once() {
    let all = suds::value::all_values();
    assert_eq!(all.len(), 9);
    for d in 1..=9u8 {
        assert_eq!(all[(d - 1) as usize].to_digit(), d);
    }
}

#[test]
fn space_from_digit() {
    assert_eq!(Space::from_digit(0), Ok(Space::Empty));
    assert_eq!(Space::from_digit(7), Ok(Space::Occupied(Value::Seven)));
    assert_eq!(Space::from_digit(10), Err(Error::InvalidValue));
}

#[test]
fn space_occupancy() {
    assert!(!Space::Empty.is_occupied());
    assert!(Space::Occupied(Value::Three).is_occupied());
    assert_eq!(Space::Empty.to_char(), '.');
    assert_eq!(Space::Occupied(Value::Four).to_char(), '4');
}

#[test]
fn get_set_and_clear() {
    let mut grid = Grid::empty();
    grid.set(3, 5, Value::Two);
    assert_eq!(grid.get(3, 5), Space::Occupied(Value::Two));
    grid.set_empty(3, 5);
    assert_eq!(grid.get(3, 5), Space::Empty);
}

#[test]
fn from_digits_pads_short_input() {
    let digits: Vec<u8> = vec![5, 0, 3];
    let grid = Grid::from_digits(&digits).unwrap();
    assert_eq!(grid.get(0, 0), Space::Occupied(Value::Five));
    assert_eq!(grid.get(1, 0), Space::Empty);
    assert_eq!(grid.get(2, 0), Space::Occupied(Value::Three));
    assert_eq!(grid.get(3, 0), Space::Empty);
}

#[test]
fn from_digits_rejects_bad_input() {
    let too_long: Vec<u8> = vec![1; 82];
    assert_eq!(Grid::from_digits(&too_long), Err(Error::Parse));
    let bad_digit: Vec<u8> = vec![1, 2, 10];
    assert_eq!(Grid::from_digits(&bad_digit), Err(Error::InvalidValue));
}

#[test]
fn region_extraction_follows_the_layout() {
    let grid = Grid::parse("123456789456789123789123456").unwrap();
    let row = grid.row(0);
    for x in 0..9usize {
        assert_eq!(row[x], Space::Occupied(Value::of_digit((x + 1) as u8)));
    }
    let column = grid.column(0);
    assert_eq!(column[0], Space::Occupied(Value::One));
    assert_eq!(column[1], Space::Occupied(Value::Four));
    assert_eq!(column[2], Space::Occupied(Value::Seven));
    assert_eq!(column[3], Space::Empty);
    let block = grid.block(1, 0);
    assert_eq!(block[0], Space::Occupied(Value::Four));
    assert_eq!(block[1], Space::Occupied(Value::Five));
    assert_eq!(block[2], Space::Occupied(Value::Six));
    assert_eq!(block[3], Space::Occupied(Value::Seven));
    assert_eq!(block[8], Space::Occupied(Value::Three));
}

#[test]
fn constraint_sets_collapse_duplicates() {
    let mut grid = Grid::empty();
    grid.set(0, 0, Value::Five);
    grid.set(8, 0, Value::Five);
    grid.set(4, 0, Value::Two);
    let row = grid.row_values(0);
    assert_eq!(row.len(), 2);
    assert!(row.contains(&Value::Five));
    assert!(row.contains(&Value::Two));
    let column = grid.column_values(0);
    assert_eq!(column, vec![Value::Five]);
    let block = grid.block_values(4, 4);
    assert!(block.is_empty());
}

#[test]
fn duplicate_copies_every_cell() {
    let grid = Grid::parse("003020600900305001").unwrap();
    let copy = grid.duplicate();
    assert_eq!(copy, grid);
}
