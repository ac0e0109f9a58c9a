use slam::geometry::{Direction, Rect, Rotation, Transform, Vec2d, Vec2di};
use slam::relation::InvertibleRelation;

#[test]
fn common_test_transform() {
    assert_eq!(Rotation::R0, Rotation::R270.rotate(Rotation::R90));
    assert_eq!(Rotation::R180, Rotation::R270.rotate(Rotation::R270));
    assert_eq!(
        Transform::default().rotate(Rotation::R180),
        Transform::default().reflect_x().reflect_y()
    );
    assert_eq!(
        Transform::default().rotate(Rotation::R90).reflect_y(),
        Transform::default().rotate(Rotation::R270).reflect_x()
    );
}

#[test]
fn geometry_test_transform() {
    assert_eq!(Rotation::R0, Rotation::R270.rotate(Rotation::R90));
    assert_eq!(Rotation::R180, Rotation::R270.rotate(Rotation::R270));
    assert_eq!(
        Transform::default().rotate(Rotation::R180),
        Transform::default().reflect_x().reflect_y()
    );
    assert_eq!(
        Transform::default().rotate(Rotation::R90).reflect_y(),
        Transform::default().rotate(Rotation::R270).reflect_x()
    );
}

#[test]
fn test_overlaps() {
    let main = Rect {
        bottom_left: Vec2di::new(0, 0),
        size: Vec2di::new(1920, 1080),
    };
    // Adjacent
    assert!(!main.overlaps(&main.offset((1920, 0).into())));
    assert!(!main.overlaps(&main.offset((-1920, 0).into())));
    assert!(!main.overlaps(&main.offset((0, 1080).into())));
    assert!(!main.overlaps(&main.offset((0, -1080).into())));
    // Adjacent to corners
    assert!(!main.overlaps(&main.offset((1920, 600).into())));
    assert!(!main.overlaps(&main.offset((1920, 1080).into())));
    // With gap
    assert!(!main.overlaps(&main.offset((-2000, 0).into())));
    assert!(!main.overlaps(&main.offset((2000, 0).into())));
    assert!(!main.overlaps(&main.offset((0, 1500).into())));
    // Should overlap
    assert!(main.overlaps(&main.offset((1919, 0).into())));
    assert!(main.overlaps(&main.offset((-1919, 0).into())));
    assert!(main.overlaps(&main.offset((200, 0).into())));
    assert!(main.overlaps(&main.offset((0, 1079).into())));
    assert!(main.overlaps(&main))
}

#[test]
fn test_direction() {
    let size = Vec2di::new(1920, 1080);
    let primary = Rect {
        bottom_left: Vec2di::new(0, 0),
        size,
    };
    let at_right = Rect {
        bottom_left: primary.bottom_right(),
        size,
    };
    let right_overlap = Rect {
        bottom_left: primary.bottom_right() + Vec2di::new(1, 0),
        size,
    };
    let above_middle = Rect {
        bottom_left: primary.center_top(),
        size,
    };
    let smaller_below = Rect {
        bottom_left: primary.center_bottom() + Vec2di::new(200, -480),
        size: Vec2d::new(640, 480),
    };
    assert_eq!(Rect::adjacent_direction(&primary, &primary), None);
    assert_eq!(
        Rect::adjacent_direction(&primary, &at_right),
        Some(Direction::LeftOf)
    );
    assert_eq!(
        Rect::adjacent_direction(&at_right, &primary),
        Some(Direction::RightOf)
    );
    assert_eq!(Rect::adjacent_direction(&primary, &right_overlap), None);
    assert_eq!(
        Rect::adjacent_direction(&primary, &above_middle),
        Some(Direction::Under)
    );
    assert_eq!(
        Rect::adjacent_direction(&at_right, &above_middle),
        Some(Direction::Under)
    );
    assert_eq!(
        Rect::adjacent_direction(&primary, &smaller_below),
        Some(Direction::Above)
    );
    assert_eq!(Rect::adjacent_direction(&at_right, &smaller_below), None);
}

fn all_transforms() -> Vec<Transform> {
    let mut all = Vec::new();
    for reflect in [false, true] {
        for rotation in [Rotation::R0, Rotation::R90, Rotation::R180, Rotation::R270] {
            all.push(Transform { reflect, rotation });
        }
    }
    all
}

#[test]
fn transform_laws_hold_for_every_transform() {
    for t in all_transforms() {
        assert_eq!(t.rotate(Rotation::R180), t.reflect_x().reflect_y());
        assert_eq!(
            t.rotate(Rotation::R90).reflect_y(),
            t.rotate(Rotation::R270).reflect_x()
        );
        for r in [Rotation::R0, Rotation::R90, Rotation::R180, Rotation::R270] {
            assert_eq!(t.rotate(r).rotate(r).rotate(r).rotate(r), t);
        }
    }
}

#[test]
fn reflections_of_a_quarter_turn() {
    let quarter = Transform {
        reflect: false,
        rotation: Rotation::R90,
    };
    assert_eq!(
        quarter.reflect_x(),
        Transform {
            reflect: true,
            rotation: Rotation::R270
        }
    );
    assert_eq!(
        quarter.reflect_y(),
        Transform {
            reflect: true,
            rotation: Rotation::R90
        }
    );
    assert!(quarter.are_axis_swapped());
    assert!(!quarter.rotate(Rotation::R90).are_axis_swapped());
}

#[test]
fn apply_swaps_the_size_under_a_quarter_turn() {
    let size = Vec2d::new(1920u32, 1080u32);
    let upright = Transform::default();
    let turned = upright.rotate(Rotation::R270);
    assert_eq!(size.apply(&upright), Vec2d::new(1920, 1080));
    assert_eq!(size.apply(&turned), Vec2d::new(1080, 1920));
}

#[test]
fn componentwise_minimum_and_maximum() {
    let a = Vec2di::new(-3, 7);
    let b = Vec2di::new(4, -9);
    assert_eq!(a.cwise_min(b), Vec2di::new(-3, -9));
    assert_eq!(a.cwise_max(b), Vec2di::new(4, 7));
    assert_eq!(a - b, Vec2di::new(-7, 16));
    assert_eq!(Vec2d::new(5u32, 1u32).cwise_max(Vec2d::new(2, 8)), Vec2d::new(5, 8));
    assert_eq!(Vec2d::new(5u32, 1u32).cwise_min(Vec2d::new(2, 8)), Vec2d::new(2, 1));
}

#[test]
fn corners_of_a_rectangle() {
    let rect = Rect {
        bottom_left: Vec2di::new(10, 20),
        size: Vec2di::new(101, 51),
    };
    assert_eq!(rect.top_right(), Vec2di::new(111, 71));
    assert_eq!(rect.bottom_right(), Vec2di::new(111, 20));
    assert_eq!(rect.top_left(), Vec2di::new(10, 71));
    assert_eq!(rect.center_bottom(), Vec2di::new(60, 20));
    assert_eq!(rect.center_top(), Vec2di::new(60, 71));
    assert_eq!(rect.center_left(), Vec2di::new(10, 45));
    assert_eq!(rect.center_right(), Vec2di::new(111, 45));
}

#[test]
fn adjacency_needs_half_of_the_side() {
    let size = Vec2di::new(1920, 1080);
    let primary = Rect {
        bottom_left: Vec2di::new(0, 0),
        size,
    };
    let secondary = primary.offset(Vec2di::new(1920, 0));
    assert_eq!(primary.adjacent_direction(&secondary), Some(Direction::LeftOf));
    assert_eq!(secondary.adjacent_direction(&primary), Some(Direction::RightOf));
    // Half of the side still touches.
    let shifted = secondary.offset(Vec2di::new(0, 540));
    assert_eq!(primary.adjacent_direction(&shifted), Some(Direction::LeftOf));
    let lowered = secondary.offset(Vec2di::new(0, -540));
    assert_eq!(primary.adjacent_direction(&lowered), Some(Direction::LeftOf));
    // One pixel further it does not.
    let too_far = secondary.offset(Vec2di::new(0, 541));
    assert_eq!(primary.adjacent_direction(&too_far), None);
    // Rectangles of one size that touch at a corner are not adjacent.
    let at_the_corner = secondary.offset(Vec2di::new(0, 1080));
    assert!(!primary.overlaps(&at_the_corner));
    assert_eq!(primary.adjacent_direction(&at_the_corner), None);
    let overlapping = primary.offset(Vec2di::new(1919, 0));
    assert!(primary.overlaps(&overlapping));
    assert_eq!(primary.adjacent_direction(&overlapping), None);
}

#[test]
fn left_comes_first_where_two_sides_touch() {
    // A large rectangle and a small one at its top right corner: the small
    // one is within half of the larger side both ways.
    let large = Rect {
        bottom_left: Vec2di::new(0, 0),
        size: Vec2di::new(1000, 1000),
    };
    let point = Rect {
        bottom_left: Vec2di::new(1000, 500),
        size: Vec2di::new(0, 0),
    };
    assert_eq!(large.adjacent_direction(&point), Some(Direction::LeftOf));
    let flat = Rect {
        bottom_left: Vec2di::new(0, 0),
        size: Vec2di::new(0, 0),
    };
    // All four sides touch: left comes first, from both sides.
    assert_eq!(flat.adjacent_direction(&flat), Some(Direction::LeftOf));
}

#[test]
fn adjacency_is_the_inverse_from_the_other_side() {
    let a = Rect {
        bottom_left: Vec2di::new(0, 0),
        size: Vec2di::new(800, 600),
    };
    let candidates = [
        a.offset(Vec2di::new(800, 100)),
        a.offset(Vec2di::new(-800, -100)),
        a.offset(Vec2di::new(50, 600)),
        a.offset(Vec2di::new(-50, -600)),
        a.offset(Vec2di::new(300, 300)),
        a.offset(Vec2di::new(2000, 0)),
    ];
    for b in candidates {
        assert_eq!(a.overlaps(&b), b.overlaps(&a));
        match a.adjacent_direction(&b) {
            Some(d) => {
                assert_eq!(b.adjacent_direction(&a), Some(d.inverse()));
                assert!(!a.overlaps(&b));
            }
            None => assert_eq!(b.adjacent_direction(&a), None),
        }
    }
}

#[test]
fn rectangles_without_width_touch_on_both_sides() {
    let flat = Rect {
        bottom_left: Vec2di::new(0, 0),
        size: Vec2di::new(0, 10),
    };
    assert_eq!(flat.adjacent_direction(&flat), Some(Direction::LeftOf));
}

#[test]
fn sizes_far_apart_do_not_overflow() {
    let low = Rect {
        bottom_left: Vec2di::new(i32::MIN, i32::MIN),
        size: Vec2di::new(i32::MAX, i32::MAX),
    };
    let high = Rect {
        bottom_left: Vec2di::new(i32::MAX, i32::MAX),
        size: Vec2di::new(i32::MAX, i32::MAX),
    };
    assert!(!low.overlaps(&high));
    assert_eq!(low.adjacent_direction(&high), None);
    assert!(high.overlaps(&high));
}

#[test]
fn inverse_of_each_direction() {
    assert_eq!(Direction::LeftOf.inverse(), Direction::RightOf);
    assert_eq!(Direction::RightOf.inverse(), Direction::LeftOf);
    assert_eq!(Direction::Above.inverse(), Direction::Under);
    assert_eq!(Direction::Under.inverse(), Direction::Above);
}
