use dungeon_generator::{Direction, Rect, Vec2D};

fn collect(rect: Rect) -> Vec<Vec2D> {
    let mut walk = rect.into_iter();
    let mut points = Vec::new();
    while let Some(p) = walk.next() {
        points.push(p);
    }
    points
}

#[test]
fn test_square_rect() {
    let points: Vec<Vec2D> = collect(Rect(1, 1, 2, 2));
    assert_eq!(points, vec![
        Vec2D(1, 1),
        Vec2D(2, 1),
        Vec2D(1, 2),
        Vec2D(2, 2),
    ]);
}

#[test]
fn test_rect_distance() {
    let distance = Rect(1, 1, 2, 2).distance_to(&Rect(4, 2, 3, 2));
    assert_eq!(distance, Some(1));
}

#[test]
fn test_rect_distance_same_rect() {
    let distance = Rect(1, 1, 2, 2).distance_to(&Rect(1, 1, 2, 2));
    assert_eq!(distance, None);
}

#[test]
fn test_rect_distance_overlap() {
    let distance = Rect(1, 1, 3, 3).distance_to(&Rect(3, 3, 1, 1));
    assert_eq!(distance, None);
}

#[test]
fn points_match_the_walk() {
    let rect = Rect(-2, 3, 3, 2);
    assert_eq!(rect.points(), collect(rect));
    assert_eq!(
        rect.points(),
        vec![Vec2D(-2, 3), Vec2D(-1, 3), Vec2D(0, 3), Vec2D(-2, 4), Vec2D(-1, 4), Vec2D(0, 4)]
    );
}

#[test]
fn walk_yields_area_many_contained_points() {
    let rect = Rect(5, 7, 4, 3);
    let points = rect.points();
    assert_eq!(points.len(), 12);
    for p in points.iter() {
        assert!(rect.contains(*p));
    }
    for k in 1..points.len() {
        let (p, q) = (points[k - 1], points[k]);
        assert!(p.1 < q.1 || (p.1 == q.1 && p.0 < q.0));
    }
}

#[test]
fn walk_stays_finished() {
    let mut walk = Rect(0, 0, 1, 1).into_iter();
    assert_eq!(walk.next(), Some(Vec2D(0, 0)));
    assert_eq!(walk.next(), None);
    assert_eq!(walk.next(), None);
}

#[test]
fn contains_is_half_open() {
    let rect = Rect(1, 1, 2, 3);
    assert!(rect.contains(Vec2D(1, 1)));
    assert!(rect.contains(Vec2D(2, 3)));
    assert!(!rect.contains(Vec2D(3, 1)));
    assert!(!rect.contains(Vec2D(1, 4)));
    assert!(!rect.contains(Vec2D(0, 1)));
    assert!(!rect.contains(Vec2D(1, 0)));
}

#[test]
fn contains_near_the_largest_coordinate() {
    let rect = Rect(i32::MAX - 1, 0, 1, 1);
    assert!(rect.contains(Vec2D(i32::MAX - 1, 0)));
    assert!(!rect.contains(Vec2D(i32::MAX, 0)));
}

#[test]
fn rect_getters() {
    let rect = Rect(1, 2, 3, 4);
    assert_eq!((rect.x(), rect.y(), rect.width(), rect.height()), (1, 2, 3, 4));
}

#[test]
fn distance_takes_the_least_gap_that_is_not_negative() {
    // Apart by three columns and by one row: the row gap is the smaller.
    assert_eq!(Rect(0, 0, 2, 2).distance_to(&Rect(5, 3, 2, 2)), Some(1));
    // The other way round the same gaps are measured from the other side.
    assert_eq!(Rect(5, 3, 2, 2).distance_to(&Rect(0, 0, 2, 2)), Some(1));
}

#[test]
fn touching_rectangles_have_distance_zero() {
    assert_eq!(Rect(1, 1, 2, 2).distance_to(&Rect(3, 1, 2, 2)), Some(0));
    // Touching on one side counts even when another side is far apart.
    assert_eq!(Rect(1, 1, 2, 2).distance_to(&Rect(3, 9, 2, 2)), Some(0));
}

#[test]
fn directions_in_order() {
    let all = Direction::iterator();
    assert_eq!(all, [Direction::N, Direction::S, Direction::E, Direction::W]);
}

#[test]
fn direction_offsets() {
    assert_eq!(Direction::N.dir(), Vec2D(0, -1));
    assert_eq!(Direction::S.dir(), Vec2D(0, 1));
    assert_eq!(Direction::E.dir(), Vec2D(1, 0));
    assert_eq!(Direction::W.dir(), Vec2D(-1, 0));
}

#[test]
fn vector_arithmetic() {
    assert_eq!(Vec2D(1, 2) + Vec2D(3, -5), Vec2D(4, -3));
    assert_eq!(Vec2D(1, -2) * 3, Vec2D(3, -6));
    assert_eq!(3 * Vec2D(1, -2), Vec2D(3, -6));
    assert_eq!(Vec2D(4, 4) + Direction::W.dir() * 2, Vec2D(2, 4));
}
