use jkl::z_curve::{even_odd_split_squash, BoundZCurve};

#[test]
fn test_even_odd_split_squash() {
    assert_eq!(even_odd_split_squash(0b00), (0b0, 0b0,));
    assert_eq!(even_odd_split_squash(0b10), (0b0, 0b1,));
    assert_eq!(even_odd_split_squash(0b11), (0b1, 0b1,));

    assert_eq!(even_odd_split_squash(0b10101010), (0b0000, 0b1111));
    assert_eq!(even_odd_split_squash(0b01010101), (0b1111, 0b0000));
    assert_eq!(even_odd_split_squash(0b11011000), (0b1100, 0b1010));

    assert_eq!(
        even_odd_split_squash(0b10101010101010101010101010101010),
        (0b0000000000000000, 0b1111111111111111)
    );
}

#[test]
fn test_rect_z_order() {
    let rzo = BoundZCurve::points(4, 4);

    assert_eq!(
        rzo,
        [
            (0, 0),
            (1, 0),
            (0, 1),
            (1, 1),
            (2, 0),
            (3, 0),
            (2, 1),
            (3, 1),
            (0, 2),
            (1, 2),
            (0, 3),
            (1, 3),
            (2, 2),
            (3, 2),
            (2, 3),
            (3, 3)
        ]
    );

    let rzo = BoundZCurve::points(3, 2);

    assert_eq!(rzo, [(0, 0), (1, 0), (0, 1), (1, 1), (2, 0), (2, 1),]);

    let rzo = BoundZCurve::points(2, 3);

    assert_eq!(rzo, [(0, 0), (1, 0), (0, 1), (1, 1), (0, 2), (1, 2),]);

    let rzo = BoundZCurve::points(3, 3);

    assert_eq!(
        rzo,
        [
            (0, 0),
            (1, 0),
            (0, 1),
            (1, 1),
            (2, 0),
            (2, 1),
            (0, 2),
            (1, 2),
            (2, 2),
        ]
    );
}

#[test]
fn every_coordinate_appears_exactly_once() {
    for (w, h) in [(1u16, 1u16), (5, 7), (8, 3), (16, 16), (31, 1)] {
        let points = BoundZCurve::points(w, h);
        assert_eq!(points.len(), (w as usize) * (h as usize));
        for x in 0..w {
            for y in 0..h {
                assert_eq!(points.iter().filter(|p| **p == (x, y)).count(), 1);
            }
        }
    }
}

#[test]
fn iterator_matches_points() {
    let mut curve = BoundZCurve::new(3, 2);
    let mut collected = Vec::new();
    while let Some(p) = curve.next() {
        collected.push(p);
    }
    assert_eq!(collected, BoundZCurve::points(3, 2));
}
