use minefield::util::Position;

#[test]
fn constructors() {
    assert_eq!(Position::from_row_col(3, 2), Position::from_xy(2, 3));
}

#[test]
fn iter_2d() {
    let iter = Position::iter_2d(3, 3);
    assert_eq!(iter.size_hint(), (9, Some(9)));
    let visited: Vec<_> = iter.collect();
    assert_eq!(
        &visited,
        &[
            Position::from_xy(0, 0),
            Position::from_xy(1, 0),
            Position::from_xy(2, 0),
            Position::from_xy(0, 1),
            Position::from_xy(1, 1),
            Position::from_xy(2, 1),
            Position::from_xy(0, 2),
            Position::from_xy(1, 2),
            Position::from_xy(2, 2),
        ]
    );
    assert_eq!(
        Position::iter_2d(7, 5).last(),
        Some(Position::from_xy(7 - 1, 5 - 1)),
    );
}

#[test]
fn iter_around() {
    let visited: Vec<_> = Position::from_xy(2, 2).iter_around(1).collect();
    assert_eq!(
        &visited,
        &[
            Position::from_xy(1, 1),
            Position::from_xy(2, 1),
            Position::from_xy(3, 1),
            Position::from_xy(1, 2),
            // not (2, 2)
            Position::from_xy(3, 2),
            Position::from_xy(1, 3),
            Position::from_xy(2, 3),
            Position::from_xy(3, 3),
        ]
    );
}

#[test]
fn zero_is_the_origin() {
    assert_eq!(Position::zero(), Position::from_xy(0, 0));
    assert_eq!(Position::zero(), Position { x: 0, y: 0 });
}

#[test]
fn iter_2d_is_row_major_and_unique() {
    let cells = Position::iter_2d(4, 3).collect();
    assert_eq!(cells.len(), 12);
    for (i, p) in cells.iter().enumerate() {
        assert_eq!(*p, Position::from_xy(i % 4, i / 4));
    }
    for i in 0..cells.len() {
        for j in 0..i {
            assert_ne!(cells[i], cells[j]);
        }
    }
    assert_eq!(cells[11], Position::from_xy(3, 2));
}

#[test]
fn iter_2d_of_an_empty_grid_is_empty() {
    assert_eq!(Position::iter_2d(0, 5).collect(), vec![]);
    assert_eq!(Position::iter_2d(5, 0).collect(), vec![]);
    assert_eq!(Position::iter_2d(0, 0).collect(), vec![]);
    assert_eq!(Position::iter_2d(0, 5).next(), None);
    assert_eq!(Position::iter_2d(0, 5).last(), None);
    assert_eq!(Position::iter_2d(5, 0).last(), None);
    assert_eq!(Position::iter_2d(0, 5).size_hint(), (0, Some(0)));
    assert_eq!(Position::iter_2d(5, 0).count(), 0);
}

#[test]
fn iter_2d_counts_what_is_left() {
    let mut iter = Position::iter_2d(3, 2);
    assert_eq!(iter.clone().count(), 6);
    assert_eq!(iter.next(), Some(Position::from_xy(0, 0)));
    assert_eq!(iter.size_hint(), (5, Some(5)));
    assert_eq!(iter.next(), Some(Position::from_xy(1, 0)));
    assert_eq!(iter.next(), Some(Position::from_xy(2, 0)));
    assert_eq!(iter.size_hint(), (3, Some(3)));
    assert_eq!(iter.next(), Some(Position::from_xy(0, 1)));
    assert_eq!(iter.clone().last(), Some(Position::from_xy(2, 1)));
    assert_eq!(iter.next(), Some(Position::from_xy(1, 1)));
    assert_eq!(iter.next(), Some(Position::from_xy(2, 1)));
    assert_eq!(iter.size_hint(), (0, Some(0)));
    assert_eq!(iter.clone().last(), None);
    assert_eq!(iter.next(), None);
    assert_eq!(iter.next(), None);
}

#[test]
fn iter_around_clamps_at_zero() {
    assert_eq!(
        Position::from_xy(0, 0).iter_around(1).collect(),
        vec![
            Position::from_xy(1, 0),
            Position::from_xy(0, 1),
            Position::from_xy(1, 1),
        ]
    );
    assert_eq!(
        Position::from_xy(0, 1).iter_around(1).collect(),
        vec![
            Position::from_xy(0, 0),
            Position::from_xy(1, 0),
            Position::from_xy(1, 1),
            Position::from_xy(0, 2),
            Position::from_xy(1, 2),
        ]
    );
}

#[test]
fn iter_around_never_yields_the_centre() {
    let center = Position::from_xy(1, 3);
    let cells = center.iter_around(2).collect();
    assert_eq!(cells.len(), 4 * 5 - 1);
    for p in &cells {
        assert_ne!(*p, center);
        assert!(p.x <= 3);
        assert!(1 <= p.y && p.y <= 5);
    }
    assert_eq!(cells[0], Position::from_xy(0, 1));
    assert_eq!(cells[18], Position::from_xy(3, 5));
}

#[test]
fn iter_around_with_radius_zero_is_empty() {
    let mut iter = Position::from_xy(4, 4).iter_around(0);
    assert_eq!(iter.next(), None);
    assert_eq!(iter.next(), None);
}

#[test]
fn iter_around_hands_out_one_by_one() {
    let mut iter = Position::from_xy(0, 0).iter_around(1);
    assert_eq!(iter.next(), Some(Position::from_xy(1, 0)));
    assert_eq!(iter.next(), Some(Position::from_xy(0, 1)));
    assert_eq!(iter.next(), Some(Position::from_xy(1, 1)));
    assert_eq!(iter.next(), None);
}

#[test]
fn random_stays_in_the_grid() {
    for _ in 0..200 {
        let p = Position::random(3, 4);
        assert!(p.x < 3);
        assert!(p.y < 4);
    }
    for _ in 0..20 {
        assert_eq!(Position::random(1, 1), Position::zero());
    }
}
