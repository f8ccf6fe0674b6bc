use line_overlaps::{
    count_overlaps, filter_orthogonal, get_input, parse_lines, rasterize, Grid, GridBound,
    GridError, Line, Point, OVERLAP_THRESHOLD,
};

fn line(x1: i32, y1: i32, x2: i32, y2: i32) -> Line {
    Line { p1: Point { x: x1, y: y1 }, p2: Point { x: x2, y: y2 } }
}

fn cells(g: &Grid) -> Vec<usize> {
    let mut out = Vec::new();
    for y in 0..g.side() {
        for x in 0..g.side() {
            out.push(g.get(x, y));
        }
    }
    out
}

#[test]
fn sample_has_five_overlaps() {
    assert_eq!(count_overlaps(get_input(), GridBound::Fixed(10)), Ok(5));
    assert_eq!(count_overlaps(get_input(), GridBound::Auto), Ok(5));
}

#[test]
fn sample_keeps_six_axis_aligned_segments() {
    let parsed = parse_lines(get_input());
    assert_eq!(parsed.len(), 10);
    let kept = filter_orthogonal(&parsed);
    assert_eq!(
        kept,
        vec![
            line(0, 9, 5, 9),
            line(9, 4, 3, 4),
            line(2, 2, 2, 1),
            line(7, 0, 7, 4),
            line(0, 9, 2, 9),
            line(3, 4, 1, 4),
        ]
    );
    let g = rasterize(&kept, 10);
    assert_eq!(g.count_overlaps(), 5);
    assert_eq!(g.get(0, 9), 2);
    assert_eq!(g.get(3, 4), 2);
    assert_eq!(g.get(7, 4), 2);
    assert_eq!(g.get(5, 9), 1);
    assert_eq!(g.get(9, 9), 0);
}

#[test]
fn orthogonal_and_horizontal() {
    assert!(line(0, 9, 5, 9).is_orthogonal());
    assert!(line(0, 9, 5, 9).is_horizontal());
    assert!(line(7, 0, 7, 4).is_orthogonal());
    assert!(!line(7, 0, 7, 4).is_horizontal());
    assert!(!line(8, 0, 0, 8).is_orthogonal());
    assert!(line(3, 3, 3, 3).is_horizontal());
}

#[test]
fn filtering_twice_changes_nothing() {
    let once = filter_orthogonal(&parse_lines(get_input()));
    let twice = filter_orthogonal(&once);
    assert_eq!(once, twice);
    let all_aligned = vec![line(1, 1, 1, 5), line(0, 2, 4, 2), line(3, 3, 3, 3)];
    assert_eq!(filter_orthogonal(&all_aligned), all_aligned);
}

#[test]
fn zero_length_segment_adds_one_cell() {
    let mut g = Grid::new(4);
    g.draw(&line(2, 1, 2, 1));
    let mut expected = vec![0usize; 16];
    expected[1 * 4 + 2] = 1;
    assert_eq!(cells(&g), expected);
    g.draw(&line(2, 1, 2, 1));
    expected[1 * 4 + 2] = 2;
    assert_eq!(cells(&g), expected);
}

#[test]
fn draw_covers_both_endpoints() {
    let mut g = Grid::new(5);
    g.draw(&line(4, 2, 1, 2));
    g.draw(&line(3, 0, 3, 4));
    assert_eq!(g.get(0, 2), 0);
    assert_eq!(g.get(1, 2), 1);
    assert_eq!(g.get(4, 2), 1);
    assert_eq!(g.get(3, 2), 2);
    assert_eq!(g.get(3, 0), 1);
    assert_eq!(g.get(3, 4), 1);
    assert_eq!(g.count_overlaps(), 1);
    assert_eq!(g.count_at_least(1), 8);
    assert_eq!(g.count_at_least(0), 25);
    assert_eq!(g.count_at_least(3), 0);
}

#[test]
fn order_of_segments_does_not_matter() {
    let a = filter_orthogonal(&parse_lines(get_input()));
    let mut b = a.clone();
    b.reverse();
    let mut c = a.clone();
    c.rotate_left(2);
    let ga = cells(&rasterize(&a, 10));
    assert_eq!(ga, cells(&rasterize(&b, 10)));
    assert_eq!(ga, cells(&rasterize(&c, 10)));
}

#[test]
fn segment_at_origin_stays_in_bounds() {
    assert_eq!(count_overlaps("0,0 -> 0,0", GridBound::Auto), Ok(0));
    assert_eq!(count_overlaps("0,0 -> 0,0", GridBound::Fixed(1)), Ok(0));
    assert_eq!(count_overlaps("0,0 -> 0,0\n0,0 -> 0,0", GridBound::Auto), Ok(1));
    let g = rasterize(&vec![line(0, 0, 0, 0)], 1);
    assert_eq!(g.get(0, 0), 1);
}

#[test]
fn malformed_lines_are_dropped() {
    let text = "0,9 -> 5,9\nnot a segment\n8,0 -> 0,8\n9,4 3,4\n9,4 -> 3,4\n2,2 -> 2,1\n\
                7,0 -> 7,4\n6,4 -> 2,0\n1,x -> 2,3\n0,9 -> 2,9\n3,4 -> 1,4\n0,0 -> 8,8\n5,5 -> 8,2";
    assert_eq!(parse_lines(text).len(), 10);
    assert_eq!(count_overlaps(text, GridBound::Auto), Ok(5));
    assert_eq!(count_overlaps(text, GridBound::Fixed(10)), Ok(5));
}

#[test]
fn line_endings() {
    assert_eq!(parse_lines(""), vec![]);
    assert_eq!(parse_lines("\n"), vec![]);
    assert_eq!(parse_lines("1,1 -> 1,2\n"), vec![line(1, 1, 1, 2)]);
    assert_eq!(
        parse_lines("1,1 -> 1,2\r\n3,0 -> 3,3\r\n"),
        vec![line(1, 1, 1, 2), line(3, 0, 3, 3)]
    );
    assert_eq!(parse_lines("1,1 -> 1,2\n\n3,0 -> 3,3"), vec![line(1, 1, 1, 2), line(3, 0, 3, 3)]);
    assert_eq!(parse_lines("1,1 -> 1,2\r"), vec![]);
}

#[test]
fn empty_input_counts_nothing() {
    assert_eq!(count_overlaps("", GridBound::Auto), Ok(0));
    assert_eq!(count_overlaps("", GridBound::Fixed(3)), Ok(0));
    assert_eq!(count_overlaps("8,0 -> 0,8", GridBound::Auto), Ok(0));
}

#[test]
fn out_of_bounds_segments() {
    assert_eq!(count_overlaps(get_input(), GridBound::Fixed(9)), Err(GridError::OutOfBounds));
    assert_eq!(count_overlaps("-1,0 -> 2,0", GridBound::Auto), Err(GridError::OutOfBounds));
    assert_eq!(count_overlaps("-1,-1 -> -1,-3", GridBound::Auto), Err(GridError::OutOfBounds));
    assert_eq!(count_overlaps("3,0 -> 3,3", GridBound::Fixed(3)), Err(GridError::OutOfBounds));
    assert_eq!(count_overlaps("-5,-5 -> 9,9", GridBound::Fixed(3)), Ok(0));
}

#[test]
fn grid_too_large() {
    assert_eq!(
        count_overlaps("0,0 -> 0,0", GridBound::Fixed(usize::MAX)),
        Err(GridError::TooLarge)
    );
}

#[test]
fn threshold_is_two() {
    assert_eq!(OVERLAP_THRESHOLD, 2);
    assert_eq!(count_overlaps("0,0 -> 3,0\n1,0 -> 1,2\n1,1 -> 1,1", GridBound::Auto), Ok(2));
}
