use line_overlaps::{Coordinate, Line, ParseError, Point};

fn line(x1: i32, y1: i32, x2: i32, y2: i32) -> Line {
    Line { p1: Point { x: x1, y: y1 }, p2: Point { x: x2, y: y2 } }
}

#[test]
fn parses_point() {
    assert_eq!(Point::parse("3,4"), Ok(Point { x: 3, y: 4 }));
    assert_eq!(Point::parse("-3,+4"), Ok(Point { x: -3, y: 4 }));
    assert_eq!(Point::parse("007,0"), Ok(Point { x: 7, y: 0 }));
}

#[test]
fn parses_point_extremes() {
    assert_eq!(
        Point::parse("-2147483648,2147483647"),
        Ok(Point { x: i32::MIN, y: i32::MAX })
    );
    assert_eq!(
        Point::parse("2147483648,0"),
        Err(ParseError::InvalidInteger(Coordinate::X))
    );
    assert_eq!(
        Point::parse("0,-2147483649"),
        Err(ParseError::InvalidInteger(Coordinate::Y))
    );
    assert_eq!(
        Point::parse("0,99999999999999999999"),
        Err(ParseError::InvalidInteger(Coordinate::Y))
    );
}

#[test]
fn point_errors() {
    assert_eq!(Point::parse("34"), Err(ParseError::MissingComma));
    assert_eq!(Point::parse(""), Err(ParseError::MissingComma));
    assert_eq!(Point::parse(",4"), Err(ParseError::InvalidInteger(Coordinate::X)));
    assert_eq!(Point::parse("a,4"), Err(ParseError::InvalidInteger(Coordinate::X)));
    assert_eq!(Point::parse("3,"), Err(ParseError::InvalidInteger(Coordinate::Y)));
    assert_eq!(Point::parse("3,4,5"), Err(ParseError::InvalidInteger(Coordinate::Y)));
    assert_eq!(Point::parse("-,4"), Err(ParseError::InvalidInteger(Coordinate::X)));
    assert_eq!(Point::parse(" 3,4"), Err(ParseError::InvalidInteger(Coordinate::X)));
}

#[test]
fn parses_line() {
    assert_eq!(Line::parse("0,9 -> 5,9"), Ok(line(0, 9, 5, 9)));
    assert_eq!(Line::parse("8,0 -> 0,8"), Ok(line(8, 0, 0, 8)));
    assert_eq!("2,2 -> 2,1".parse::<Line>(), Ok(line(2, 2, 2, 1)));
    assert_eq!("7,-1".parse::<Point>(), Ok(Point { x: 7, y: -1 }));
}

#[test]
fn line_errors() {
    assert_eq!(Line::parse("0,9 5,9"), Err(ParseError::MissingArrow));
    assert_eq!(Line::parse("0,9->5,9"), Err(ParseError::MissingArrow));
    assert_eq!(Line::parse(""), Err(ParseError::MissingArrow));
    assert_eq!(Line::parse("09 -> 5,9"), Err(ParseError::MissingComma));
    assert_eq!(Line::parse("0,9 -> 59"), Err(ParseError::MissingComma));
    assert_eq!(
        Line::parse("x,9 -> 5,9"),
        Err(ParseError::InvalidInteger(Coordinate::X))
    );
    assert_eq!(
        Line::parse("0,9 -> 5,y"),
        Err(ParseError::InvalidInteger(Coordinate::Y))
    );
    assert_eq!(
        Line::parse("0,9 -> 5,9 -> 1,1"),
        Err(ParseError::InvalidInteger(Coordinate::Y))
    );
}

#[test]
fn writes_text() {
    assert_eq!(line(0, 9, 5, 9).to_text(), "0,9 -> 5,9");
    assert_eq!(line(-12, 340, 0, -7).to_text(), "-12,340 -> 0,-7");
    assert_eq!(Point { x: i32::MIN, y: i32::MAX }.to_text(), "-2147483648,2147483647");
    assert_eq!(Point { x: 10, y: 0 }.to_text(), "10,0");
}

#[test]
fn round_trip_from_line() {
    let cases = vec![
        line(0, 0, 0, 0),
        line(0, 9, 5, 9),
        line(-1, 25, 300, -4000),
        line(i32::MIN, i32::MAX, i32::MAX, i32::MIN),
    ];
    for l in cases {
        assert_eq!(Line::parse(&l.to_text()), Ok(l));
    }
}

#[test]
fn round_trip_from_text() {
    let l = Line::parse("+3,007 -> -0,12").unwrap();
    assert_eq!(l, line(3, 7, 0, 12));
    assert_eq!(l.to_text(), "3,7 -> 0,12");
    assert_eq!(Line::parse(&l.to_text()), Ok(l));
}

#[test]
fn from_str_matches_parse() {
    assert_eq!("0,9 -> 5,9".parse::<Line>(), Ok(line(0, 9, 5, 9)));
    assert_eq!("8,0 -> 0,8".parse::<Line>(), Ok(line(8, 0, 0, 8)));
    assert_eq!("0,9 5,9".parse::<Line>(), Err(ParseError::MissingArrow));
    assert_eq!("0,9->5,9".parse::<Line>(), Err(ParseError::MissingArrow));
    assert_eq!("0,9 -> 5;9".parse::<Line>(), Err(ParseError::MissingComma));
    assert_eq!(
        "x,9 -> 5,9".parse::<Line>(),
        Err(ParseError::InvalidInteger(Coordinate::X))
    );
    assert_eq!("x,9 -> 59".parse::<Line>(), Err(ParseError::InvalidInteger(Coordinate::X)));
    assert_eq!("3;4".parse::<Point>(), Err(ParseError::MissingComma));
    assert_eq!("3,4".parse::<Point>(), Ok(Point { x: 3, y: 4 }));
}
