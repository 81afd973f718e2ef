use maven_range::range::{Direction, Edge, Interval};

#[test]
fn dedupe_union() {
    let x = Interval::new(0, Edge::Open, Direction::Right);
    let y = Interval::new(0, Edge::Closed, Direction::Right);

    let res = Interval::dedupe_union(&x, &y);

    assert_eq!(res, Some(&y));
}

#[test]
fn dedupe_union2() {
    let x = Interval::new(0, Edge::Closed, Direction::Left);
    let y = Interval::new(0, Edge::Open, Direction::Left);

    let res = Interval::dedupe_union(&x, &y);

    assert_eq!(res, Some(&x));
}

#[test]
fn dedupe_union_different_directions() {
    let x = Interval::new(1, Edge::Closed, Direction::Left);
    let y = Interval::new(1, Edge::Closed, Direction::Right);
    assert_eq!(Interval::dedupe_union(&x, &y), None);
    assert_eq!(Interval::dedupe_union(&y, &x), None);
}

#[test]
fn dedupe_union_right_keeps_lower_position() {
    let x = Interval::new(1, Edge::Open, Direction::Right);
    let y = Interval::new(5, Edge::Closed, Direction::Right);
    assert_eq!(Interval::dedupe_union(&x, &y), Some(&x));
    assert_eq!(Interval::dedupe_union(&y, &x), Some(&x));
}

#[test]
fn dedupe_union_left_keeps_higher_position() {
    let x = Interval::new(1, Edge::Closed, Direction::Left);
    let y = Interval::new(5, Edge::Open, Direction::Left);
    assert_eq!(Interval::dedupe_union(&x, &y), Some(&y));
    assert_eq!(Interval::dedupe_union(&y, &x), Some(&y));
}

#[test]
fn dedupe_union_equal_bounds_keeps_first() {
    let x = Interval::new(3, Edge::Open, Direction::Left);
    let y = Interval::new(3, Edge::Open, Direction::Left);
    let r = Interval::dedupe_union(&x, &y).unwrap();
    assert!(std::ptr::eq(r, &x));
}

#[test]
fn dedupe_union_with_strings() {
    let x = Interval::new("1.0", Edge::Open, Direction::Right);
    let y = Interval::new("0.9", Edge::Open, Direction::Right);
    assert_eq!(Interval::dedupe_union(&x, &y), Some(&y));
}

fn admits(position: i64, edge: Edge, direction: Direction, w: i64) -> bool {
    match (direction, edge) {
        (Direction::Right, Edge::Closed) => w >= position,
        (Direction::Right, Edge::Open) => w > position,
        (Direction::Left, Edge::Closed) => w <= position,
        (Direction::Left, Edge::Open) => w < position,
    }
}

#[test]
fn dedupe_union_admits_the_union() {
    let edges = [Edge::Open, Edge::Closed];
    let directions = [Direction::Left, Direction::Right];
    for &d in &directions {
        for &ex in &edges {
            for &ey in &edges {
                for px in -2i64..=2 {
                    for py in -2i64..=2 {
                        let x = Interval::new(px, ex, d);
                        let y = Interval::new(py, ey, d);
                        let kept = Interval::dedupe_union(&x, &y).unwrap();
                        let (pk, ek) = if std::ptr::eq(kept, &x) { (px, ex) } else { (py, ey) };
                        for w in -4i64..=4 {
                            assert_eq!(
                                admits(pk, ek, d, w),
                                admits(px, ex, d, w) || admits(py, ey, d, w)
                            );
                        }
                    }
                }
            }
        }
    }
}

#[test]
fn accessors_give_back_the_parts() {
    let x = Interval::new((5usize, 8usize), Edge::Open, Direction::Left);
    assert_eq!(*x.version(), (5, 8));
    assert_eq!(x.edge(), Edge::Open);
    assert_eq!(x.direction(), Direction::Left);
    // A bound over a span rebuilt as a bound over the text it spans.
    let text = "[1.0,2.0)";
    let (a, b) = *x.version();
    let y = Interval::new(&text[a..b], x.edge(), x.direction());
    assert_eq!(y, Interval::new("2.0", Edge::Open, Direction::Left));
}

#[test]
fn dedupe_union_commutes_and_associates_by_value() {
    let edges = [Edge::Open, Edge::Closed];
    let directions = [Direction::Left, Direction::Right];
    let mut bounds = Vec::new();
    for &d in &directions {
        for &e in &edges {
            for p in 0u64..3 {
                bounds.push(Interval::new(p, e, d));
            }
        }
    }
    for x in &bounds {
        for y in &bounds {
            assert_eq!(Interval::dedupe_union(x, y), Interval::dedupe_union(y, x));
            for z in &bounds {
                if x.direction() == y.direction() && y.direction() == z.direction() {
                    let left = Interval::dedupe_union(Interval::dedupe_union(x, y).unwrap(), z);
                    let right = Interval::dedupe_union(x, Interval::dedupe_union(y, z).unwrap());
                    assert_eq!(left, right);
                }
            }
        }
    }
}
