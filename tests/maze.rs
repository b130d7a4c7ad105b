use algorithms::maze::{parse_line, Field, MazeError, Point, Tile};

#[test]
fn parse() {
    let simple_input = vec!["######### #", "#         #", "# #########"];
    let f = Field::try_new(simple_input).unwrap();
    assert_eq!(f.height(), 3);
    assert_eq!(f.width(), 11);
    assert_eq!(f.at(Point(0, 0)), Ok(&Tile::Wall));
    assert_eq!(f.at(Point(1, 0)), Ok(&Tile::Wall));
    assert_eq!(f.at(Point(2, 0)), Ok(&Tile::Wall));
    assert_eq!(f.at(Point(1, 1)), Ok(&Tile::Empty));
}

#[test]
fn simple_maze() {
    let simple_input = vec!["######### #", "#         #", "# #########"];
    let f = Field::try_new(simple_input).unwrap();
    let path = f.find(Point(2, 1), Point(0, 9));
    assert_eq!(
        path,
        vec![
            Point(2, 1),
            Point(1, 1),
            Point(1, 2),
            Point(1, 3),
            Point(1, 4),
            Point(1, 5),
            Point(1, 6),
            Point(1, 7),
            Point(1, 8),
            Point(1, 9),
            Point(0, 9)
        ]
    )
}

#[test]
fn maze_errors() {
    assert_eq!(Field::try_new(vec![]).err(), Some(MazeError::NoRows));
    assert_eq!(Field::try_new(vec!["# ", "#"]).err(), Some(MazeError::RaggedRow(1)));
    assert_eq!(Field::try_new(vec!["#x"]).err(), Some(MazeError::UnknownSymbol('x')));
    assert_eq!(parse_line("# #"), Ok(vec![Tile::Wall, Tile::Empty, Tile::Wall]));
    let f = Field::try_new(vec!["# "]).unwrap();
    assert_eq!(f.at(Point(0, 2)), Err(MazeError::OutOfBounds(Point(0, 2))));
    assert_eq!(f.at(Point(-1, 0)), Err(MazeError::OutOfBounds(Point(-1, 0))));
}

#[test]
fn walled_in_maze_has_no_route() {
    let f = Field::try_new(vec!["   ", "###", "   "]).unwrap();
    assert!(f.find(Point(0, 0), Point(2, 2)).is_empty());
    assert_eq!(f.find(Point(0, 0), Point(0, 2)), vec![Point(0, 0), Point(0, 1), Point(0, 2)]);
}
