use slam::geometry::{Direction, Rect, Rotation, Transform, Vec2d, Vec2di};
use slam::layout::{
    adjacency_of, chain_relations, check_entries_for_unsupported_causes, entries_fit,
    normalize_bottom_left_coordinates, pairs_fit, sort_entries, str_precedes, Edid, Layout,
    LayoutInfo, Mode, OutputEntry, OutputId, OutputState, StoredLayoutError, UnsupportedCauses,
};

fn mode(x: u32, y: u32) -> Mode {
    Mode {
        size: Vec2d::new(x, y),
        frequency: 60,
    }
}

fn enabled_at(x: i32, y: i32) -> OutputState {
    OutputState::Enabled {
        mode: mode(1920, 1080),
        transform: Transform::default(),
        bottom_left: Vec2d::new(x, y),
    }
}

fn edid_entry(raw: u64, state: OutputState) -> OutputEntry {
    OutputEntry {
        id: OutputId::Edid(Edid::from(raw)),
        state,
    }
}

fn name_entry(name: &str, state: OutputState) -> OutputEntry {
    OutputEntry {
        id: OutputId::Name(name.to_string()),
        state,
    }
}

fn causes(overlaps: bool, gaps: bool, duplicate_edid: bool) -> UnsupportedCauses {
    UnsupportedCauses {
        overlaps,
        gaps,
        duplicate_edid,
        clones: false,
    }
}

fn edid_block(id: [u8; 8]) -> Vec<u8> {
    let mut block = vec![0x00, 0xFF, 0xFF, 0xFF, 0xFF, 0xFF, 0xFF, 0x00];
    block.extend_from_slice(&id);
    block.resize(128, 0);
    block
}

#[test]
fn edid_from_a_block() {
    let block = edid_block([0x10, 0xAC, 0x01, 0x02, 0x03, 0x04, 0x05, 0x06]);
    let edid = Edid::try_from(block.as_slice()).ok().unwrap();
    assert_eq!(edid.value(), 0x10AC_0102_0304_0506);
    assert_eq!(edid, Edid::from(0x10AC_0102_0304_0506));
    // Sixteen bytes are enough.
    assert_eq!(
        Edid::try_from(&block[..16]).ok().unwrap().value(),
        0x10AC_0102_0304_0506
    );
    let highest = edid_block([0xFF; 8]);
    assert_eq!(Edid::try_from(highest.as_slice()).ok().unwrap().value(), u64::MAX);
}

#[test]
fn edid_errors() {
    let block = edid_block([1, 2, 3, 4, 5, 6, 7, 8]);
    assert_eq!(Edid::try_from(&block[..15]).err(), Some("Edid: bad length"));
    let empty: [u8; 0] = [];
    assert_eq!(Edid::try_from(&empty[..]).err(), Some("Edid: bad length"));
    let mut bad_header = block.clone();
    bad_header[7] = 1;
    assert_eq!(
        Edid::try_from(bad_header.as_slice()).err(),
        Some("Edid: missing constant header pattern")
    );
    let mut bad_start = block.clone();
    bad_start[0] = 0xFF;
    assert_eq!(
        Edid::try_from(bad_start.as_slice()).err(),
        Some("Edid: missing constant header pattern")
    );
}

#[test]
fn order_of_strings() {
    assert!(str_precedes("", "a"));
    assert!(!str_precedes("a", ""));
    assert!(!str_precedes("", ""));
    assert!(str_precedes("DP-1", "DP-2"));
    assert!(str_precedes("DP-1", "DP-10"));
    assert!(str_precedes("DP-10", "DP-2"));
    assert!(!str_precedes("HDMI-1", "DP-1"));
    assert!(!str_precedes("same", "same"));
    assert!(str_precedes("z", "\u{e9}"));
    assert!(str_precedes("\u{e9}", "\u{1F600}"));
    for (a, b) in [("", "a"), ("abc", "abd"), ("ab", "abc"), ("Z", "a"), ("a", "\u{108}")] {
        assert_eq!(str_precedes(a, b), a < b);
        assert_eq!(str_precedes(b, a), b < a);
    }
}

#[test]
fn order_of_identifiers() {
    let low = OutputId::Edid(Edid::from(1));
    let high = OutputId::Edid(Edid::from(2));
    let name = OutputId::Name("DP-1".to_string());
    let other = OutputId::Name("HDMI-1".to_string());
    assert!(low.precedes(&high));
    assert!(!high.precedes(&low));
    assert!(!low.precedes(&low));
    assert!(high.precedes(&name));
    assert!(!name.precedes(&low));
    assert!(name.precedes(&other));
    assert!(!other.precedes(&name));
    assert!(name == OutputId::Name("DP-1".to_string()));
    assert!(name != other);
    assert!(low != name);
    assert!(name.clone() == name);
}

#[test]
fn order_of_states() {
    let base = enabled_at(0, 0);
    assert!(base.precedes_state(&OutputState::Disabled));
    assert!(!OutputState::Disabled.precedes_state(&base));
    assert!(!OutputState::Disabled.precedes_state(&OutputState::Disabled));
    assert!(!base.precedes_state(&base));
    assert!(base.precedes_state(&enabled_at(0, 1)));
    assert!(base.precedes_state(&enabled_at(1, -5)));
    assert!(enabled_at(-1, 100).precedes_state(&base));
    let wider = OutputState::Enabled {
        mode: mode(2560, 100),
        transform: Transform::default(),
        bottom_left: Vec2d::new(-100, -100),
    };
    assert!(base.precedes_state(&wider));
    let faster = OutputState::Enabled {
        mode: Mode {
            size: Vec2d::new(1920, 1080),
            frequency: 75,
        },
        transform: Transform::default(),
        bottom_left: Vec2d::new(-100, -100),
    };
    assert!(base.precedes_state(&faster));
    let turned = OutputState::Enabled {
        mode: mode(1920, 1080),
        transform: Transform::default().rotate(Rotation::R90),
        bottom_left: Vec2d::new(-100, -100),
    };
    let reflected = OutputState::Enabled {
        mode: mode(1920, 1080),
        transform: Transform::default().reflect_x(),
        bottom_left: Vec2d::new(-100, -100),
    };
    assert!(base.precedes_state(&turned));
    assert!(turned.precedes_state(&reflected));
    assert!(!reflected.precedes_state(&turned));
}

#[test]
fn rect_of_a_state() {
    assert_eq!(OutputState::Disabled.rect(), None);
    assert_eq!(
        enabled_at(5, 7).rect(),
        Some(Rect {
            bottom_left: Vec2di::new(5, 7),
            size: Vec2di::new(1920, 1080)
        })
    );
    let turned = OutputState::Enabled {
        mode: mode(1920, 1080),
        transform: Transform::default().rotate(Rotation::R270),
        bottom_left: Vec2d::new(5, 7),
    };
    assert_eq!(
        turned.rect(),
        Some(Rect {
            bottom_left: Vec2di::new(5, 7),
            size: Vec2di::new(1080, 1920)
        })
    );
}

#[test]
fn sorting_entries() {
    let entries = vec![
        name_entry("HDMI-1", OutputState::Disabled),
        edid_entry(7, enabled_at(0, 0)),
        name_entry("DP-1", enabled_at(10, 0)),
        edid_entry(3, OutputState::Disabled),
        edid_entry(7, OutputState::Disabled),
        edid_entry(3, enabled_at(5, 5)),
    ];
    let sorted = sort_entries(entries);
    let expected = vec![
        edid_entry(3, enabled_at(5, 5)),
        edid_entry(3, OutputState::Disabled),
        edid_entry(7, enabled_at(0, 0)),
        edid_entry(7, OutputState::Disabled),
        name_entry("DP-1", enabled_at(10, 0)),
        name_entry("HDMI-1", OutputState::Disabled),
    ];
    assert!(sorted == expected);
    assert!(sort_entries(Vec::new()).is_empty());
    assert!(sort_entries(expected.clone()) == expected);
}

#[test]
fn normalizing_moves_the_minimum_to_the_origin() {
    let mut entries = vec![
        edid_entry(1, enabled_at(100, 50)),
        edid_entry(2, OutputState::Disabled),
        edid_entry(3, enabled_at(2020, 20)),
    ];
    normalize_bottom_left_coordinates(&mut entries);
    assert!(
        entries
            == vec![
                edid_entry(1, enabled_at(0, 30)),
                edid_entry(2, OutputState::Disabled),
                edid_entry(3, enabled_at(1920, 0)),
            ]
    );
    let mut negative = vec![edid_entry(1, enabled_at(-1920, -7)), edid_entry(2, enabled_at(0, 0))];
    normalize_bottom_left_coordinates(&mut negative);
    assert!(negative == vec![edid_entry(1, enabled_at(0, 0)), edid_entry(2, enabled_at(1920, 7))]);
    let mut none_enabled = vec![edid_entry(1, OutputState::Disabled)];
    normalize_bottom_left_coordinates(&mut none_enabled);
    assert!(none_enabled == vec![edid_entry(1, OutputState::Disabled)]);
}

#[test]
fn classification_of_two_outputs() {
    let primary = Some(OutputId::Edid(Edid::from(1)));
    let side_by_side = LayoutInfo::from(
        vec![edid_entry(1, enabled_at(0, 0)), edid_entry(2, enabled_at(1920, 0))],
        primary.clone(),
    );
    assert_eq!(side_by_side.unsupported_causes, UnsupportedCauses::empty());
    assert!(side_by_side.unsupported_causes.is_empty());
    assert!(side_by_side.layout.primary() == primary.as_ref());
    // Less than half of the side touches.
    let apart = LayoutInfo::from(
        vec![edid_entry(1, enabled_at(0, 0)), edid_entry(2, enabled_at(1920, 1000))],
        None,
    );
    assert_eq!(apart.unsupported_causes, causes(false, true, false));
    let shifted = LayoutInfo::from(
        vec![edid_entry(1, enabled_at(0, 0)), edid_entry(2, enabled_at(1920, 100))],
        None,
    );
    assert_eq!(shifted.unsupported_causes, UnsupportedCauses::empty());
    let overlapping = LayoutInfo::from(
        vec![edid_entry(1, enabled_at(0, 0)), edid_entry(2, enabled_at(1918, 0))],
        None,
    );
    assert_eq!(overlapping.unsupported_causes, causes(true, true, false));
    let with_gap = LayoutInfo::from(
        vec![edid_entry(1, enabled_at(0, 0)), edid_entry(2, enabled_at(2000, 0))],
        None,
    );
    assert_eq!(with_gap.unsupported_causes, causes(false, true, false));
}

#[test]
fn duplicate_identifiers_are_found() {
    let info = LayoutInfo::from(
        vec![
            edid_entry(9, enabled_at(0, 0)),
            edid_entry(4, OutputState::Disabled),
            edid_entry(9, OutputState::Disabled),
        ],
        None,
    );
    assert_eq!(info.unsupported_causes, causes(false, false, true));
    assert_eq!(info.unsupported_causes.bits(), 8);
    let names = LayoutInfo::from(
        vec![
            name_entry("DP-1", OutputState::Disabled),
            name_entry("DP-1", OutputState::Disabled),
        ],
        None,
    );
    assert_eq!(names.unsupported_causes, causes(false, false, true));
    let direct = check_entries_for_unsupported_causes(&vec![
        edid_entry(4, OutputState::Disabled),
        edid_entry(9, OutputState::Disabled),
        edid_entry(4, OutputState::Disabled),
    ]);
    // Only entries that follow each other are compared.
    assert_eq!(direct, UnsupportedCauses::empty());
}

#[test]
fn bits_of_the_causes() {
    assert_eq!(UnsupportedCauses::empty().bits(), 0);
    assert_eq!(causes(true, false, false).bits(), 1);
    assert_eq!(causes(false, true, false).bits(), 2);
    assert_eq!(causes(true, true, true).bits(), 11);
    let clones = UnsupportedCauses {
        overlaps: false,
        gaps: false,
        duplicate_edid: false,
        clones: true,
    };
    assert_eq!(clones.bits(), 4);
    assert!(!clones.is_empty());
}

#[test]
fn layouts_with_no_or_one_output_are_supported() {
    let empty = LayoutInfo::from(Vec::new(), None);
    assert!(empty.unsupported_causes.is_empty());
    assert_eq!(empty.layout.bounding_rect_size(), Vec2d::new(0, 0));
    let single = LayoutInfo::from(vec![edid_entry(1, enabled_at(300, -200))], None);
    assert!(single.unsupported_causes.is_empty());
    assert!(single.layout.output_entries() == [edid_entry(1, enabled_at(0, 0))].as_slice());
    let disabled = LayoutInfo::from(vec![edid_entry(1, OutputState::Disabled)], None);
    assert!(disabled.unsupported_causes.is_empty());
    assert_eq!(disabled.layout.bounding_rect_size(), Vec2d::new(0, 0));
}

#[test]
fn layout_is_sorted_and_normalized() {
    let info = LayoutInfo::from(
        vec![
            name_entry("VGA-1", OutputState::Disabled),
            edid_entry(20, enabled_at(-1920, 500)),
            edid_entry(10, enabled_at(0, 500)),
        ],
        Some(OutputId::Edid(Edid::from(10))),
    );
    let expected = vec![
        edid_entry(10, enabled_at(1920, 0)),
        edid_entry(20, enabled_at(0, 0)),
        name_entry("VGA-1", OutputState::Disabled),
    ];
    assert!(info.layout.output_entries() == expected.as_slice());
    assert!(info.unsupported_causes.is_empty());
    assert!(
        info.layout.connected_outputs()
            == vec![
                OutputId::Edid(Edid::from(10)),
                OutputId::Edid(Edid::from(20)),
                OutputId::Name("VGA-1".to_string())
            ]
    );
    assert_eq!(info.layout.bounding_rect_size(), Vec2d::new(3840, 1080));
}

#[test]
fn building_a_layout_twice_changes_nothing() {
    let primary = Some(OutputId::Name("DP-2".to_string()));
    let first = LayoutInfo::from(
        vec![
            name_entry("DP-2", enabled_at(40, 1120)),
            edid_entry(5, OutputState::Disabled),
            name_entry("DP-1", enabled_at(40, 40)),
        ],
        primary.clone(),
    );
    let again = LayoutInfo::from(first.layout.output_entries().to_vec(), primary.clone());
    assert!(again.layout == first.layout);
    assert_eq!(again.unsupported_causes, first.unsupported_causes);
    let copy = LayoutInfo::from_iter(first.layout.output_entries(), primary);
    assert!(copy.layout == first.layout);
}

#[test]
fn bounding_size_follows_the_transform() {
    let turned = OutputState::Enabled {
        mode: mode(1920, 1080),
        transform: Transform::default().rotate(Rotation::R90),
        bottom_left: Vec2d::new(1920, 0),
    };
    let info = LayoutInfo::from(vec![edid_entry(1, enabled_at(0, 0)), edid_entry(2, turned)], None);
    assert_eq!(info.layout.bounding_rect_size(), Vec2d::new(3000, 1920));
    assert!(info.unsupported_causes.is_empty());
}

#[test]
fn layouts_compare_by_content_and_by_outputs() {
    let a = LayoutInfo::from(
        vec![edid_entry(1, enabled_at(0, 0)), edid_entry(2, enabled_at(1920, 0))],
        None,
    )
    .layout;
    let b = LayoutInfo::from(
        vec![edid_entry(2, enabled_at(0, 0)), edid_entry(1, enabled_at(1920, 0))],
        None,
    )
    .layout;
    let c = LayoutInfo::from(vec![edid_entry(1, enabled_at(0, 0))], None).layout;
    assert!(a == a.clone());
    assert!(a != b);
    assert!(a.same_outputs(&b));
    assert!(!a.same_outputs(&c));
    assert!(!c.same_outputs(&a));
    let with_primary = LayoutInfo::from(
        vec![edid_entry(1, enabled_at(0, 0)), edid_entry(2, enabled_at(1920, 0))],
        Some(OutputId::Edid(Edid::from(1))),
    )
    .layout;
    assert!(a != with_primary);
    assert!(with_primary == with_primary.clone());
}

#[test]
fn entries_that_do_not_fit() {
    let far = vec![
        edid_entry(1, enabled_at(i32::MIN, 0)),
        edid_entry(2, enabled_at(i32::MAX, 0)),
    ];
    assert!(!entries_fit(&far));
    assert!(LayoutInfo::checked_from(far, None).is_none());
    let edge = vec![edid_entry(1, enabled_at(-1, 0)), edid_entry(2, enabled_at(i32::MAX - 1, 0))];
    assert!(entries_fit(&edge));
    let over = vec![edid_entry(1, enabled_at(-1, 0)), edid_entry(2, enabled_at(i32::MAX, 0))];
    assert!(!entries_fit(&over));
    let tall = vec![edid_entry(1, enabled_at(0, i32::MIN)), edid_entry(2, enabled_at(0, 0))];
    assert!(!entries_fit(&tall));
    let huge = OutputState::Enabled {
        mode: mode(i32::MAX as u32 + 1, 10),
        transform: Transform::default(),
        bottom_left: Vec2d::new(0, 0),
    };
    assert!(!entries_fit(&vec![edid_entry(1, huge)]));
    assert!(entries_fit(&vec![edid_entry(1, OutputState::Disabled)]));
    assert!(entries_fit(&Vec::new()));
    assert!(pairs_fit(0));
    assert!(pairs_fit(1 << 16));
    assert!(!pairs_fit(usize::MAX));
    let fitting = LayoutInfo::checked_from(vec![edid_entry(1, enabled_at(i32::MIN, i32::MAX))], None);
    assert!(fitting.unwrap().layout.output_entries() == [edid_entry(1, enabled_at(0, 0))].as_slice());
}

#[test]
fn stored_entries_have_to_make_a_supported_layout() {
    let good = Layout::from_stored(
        vec![edid_entry(2, enabled_at(1920, 0)), edid_entry(1, enabled_at(0, 0))],
        None,
    );
    assert!(
        good.ok().unwrap().output_entries()
            == [edid_entry(1, enabled_at(0, 0)), edid_entry(2, enabled_at(1920, 0))].as_slice()
    );
    let gap = Layout::from_stored(
        vec![edid_entry(1, enabled_at(0, 0)), edid_entry(2, enabled_at(5000, 0))],
        None,
    );
    assert_eq!(
        gap.err(),
        Some(StoredLayoutError::Unsupported(causes(false, true, false)))
    );
    let far = Layout::from_stored(
        vec![
            edid_entry(1, enabled_at(i32::MIN, 0)),
            edid_entry(2, enabled_at(i32::MAX, 0)),
        ],
        None,
    );
    assert_eq!(far.err(), Some(StoredLayoutError::OutOfRange));
}

#[test]
fn relations_of_a_layout() {
    let layout = LayoutInfo::from(
        vec![
            edid_entry(1, enabled_at(0, 0)),
            edid_entry(2, OutputState::Disabled),
            edid_entry(3, enabled_at(1920, 0)),
            edid_entry(4, enabled_at(1920, 1080)),
        ],
        None,
    )
    .layout;
    let rects = layout.enabled_rects();
    assert_eq!(rects.len(), 3);
    assert_eq!(rects[2].bottom_left, Vec2di::new(1920, 1080));
    let relations = layout.relations();
    assert_eq!(relations.size(), 3);
    assert_eq!(relations.get(0, 1), Some(Direction::LeftOf));
    assert_eq!(relations.get(1, 2), Some(Direction::Under));
    assert_eq!(relations.get(0, 2), None);
    assert_eq!(relations.get(2, 1), Some(Direction::Above));
    let (matrix, overlaps) = adjacency_of(&rects);
    assert!(!overlaps);
    assert_eq!(matrix.get(1, 0), Some(Direction::RightOf));
    assert_eq!(layout.enabled_transforms(), vec![Transform::default(); 3]);
}

#[test]
fn chain_of_relations() {
    let chain = chain_relations(4);
    assert_eq!(chain.size(), 4);
    for i in 0..4 {
        for j in 0..4 {
            let expected = if j == i + 1 {
                Some(Direction::LeftOf)
            } else if i == j + 1 {
                Some(Direction::RightOf)
            } else {
                None
            };
            assert_eq!(chain.get(i, j), expected);
        }
    }
    assert!(chain.is_single_connected_component());
    assert_eq!(chain_relations(0).size(), 0);
    assert_eq!(chain_relations(1).size(), 1);
}

#[test]
fn placing_the_enabled_outputs() {
    let layout = LayoutInfo::from(
        vec![
            edid_entry(1, enabled_at(0, 0)),
            edid_entry(2, OutputState::Disabled),
            edid_entry(3, enabled_at(5000, 0)),
        ],
        Some(OutputId::Edid(Edid::from(3))),
    )
    .layout;
    let placed = layout
        .placed(&[Vec2di::new(100, 100), Vec2di::new(2020, 100)])
        .unwrap();
    assert!(placed.unsupported_causes.is_empty());
    assert!(
        placed.layout.output_entries()
            == [
                edid_entry(1, enabled_at(0, 0)),
                edid_entry(2, OutputState::Disabled),
                edid_entry(3, enabled_at(1920, 0)),
            ]
            .as_slice()
    );
    assert!(placed.layout.primary() == Some(&OutputId::Edid(Edid::from(3))));
    let too_far = layout.placed(&[Vec2di::new(i32::MIN, 0), Vec2di::new(i32::MAX, 0)]);
    assert!(too_far.is_none());
}
