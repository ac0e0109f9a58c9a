use slam::controller::{Action, Controller};
use slam::database::{Database, LayoutById, StoredLayout};
use slam::geometry::{Transform, Vec2d};
use slam::layout::{
    Edid, Layout, LayoutInfo, Mode, OutputEntry, OutputId, OutputState, StoredLayoutError,
    UnsupportedCauses,
};

fn enabled_at(x: i32, y: i32) -> OutputState {
    OutputState::Enabled {
        mode: Mode {
            size: Vec2d::new(1920, 1080),
            frequency: 60,
        },
        transform: Transform::default(),
        bottom_left: Vec2d::new(x, y),
    }
}

fn entry(raw: u64, state: OutputState) -> OutputEntry {
    OutputEntry {
        id: OutputId::Edid(Edid::from(raw)),
        state,
    }
}

fn layout_of(entries: Vec<OutputEntry>) -> Layout {
    LayoutInfo::from(entries, None).layout
}

fn a_alone() -> Layout {
    layout_of(vec![entry(0xA, enabled_at(0, 0))])
}

fn a_and_b(b_x: i32, b_y: i32) -> Layout {
    layout_of(vec![entry(0xA, enabled_at(0, 0)), entry(0xB, enabled_at(b_x, b_y))])
}

fn record(entries: Vec<OutputEntry>) -> StoredLayout {
    StoredLayout {
        outputs: entries,
        primary: None,
    }
}

#[test]
fn empty_store_finds_nothing() {
    let store = Database::new();
    assert!(store.get_layout(&LayoutById(a_alone())).is_none());
    assert!(store.layouts().is_empty());
}

#[test]
fn stored_layout_is_found_by_its_outputs() {
    let mut store = Database::new();
    store.store_layout(a_and_b(1920, 0));
    store.store_layout(a_alone());
    // The key is the set of outputs, wherever they are.
    let found = store.get_layout(&LayoutById(a_and_b(0, 1080)));
    assert!(found == Some(&a_and_b(1920, 0)));
    assert!(store.get_layout(&LayoutById(a_alone())) == Some(&a_alone()));
    let unknown = layout_of(vec![entry(0xC, enabled_at(0, 0))]);
    assert!(store.get_layout(&LayoutById(unknown)).is_none());
    assert_eq!(store.layouts().len(), 2);
}

#[test]
fn storing_again_replaces_the_layout() {
    let mut store = Database::new();
    store.store_layout(a_and_b(1920, 0));
    store.store_layout(a_and_b(0, 1080));
    assert_eq!(store.layouts().len(), 1);
    assert!(store.get_layout(&LayoutById(a_and_b(1920, 0))) == Some(&a_and_b(0, 1080)));
}

#[test]
fn layouts_compare_by_their_outputs() {
    assert!(LayoutById(a_and_b(1920, 0)) == LayoutById(a_and_b(0, 1080)));
    assert!(LayoutById(a_and_b(1920, 0)) != LayoutById(a_alone()));
    let disabled = layout_of(vec![entry(0xA, OutputState::Disabled), entry(0xB, OutputState::Disabled)]);
    assert!(LayoutById(a_and_b(1920, 0)) == LayoutById(disabled));
}

#[test]
fn no_file_gives_an_empty_store() {
    let store = Database::load_or_empty(None).ok().unwrap();
    assert!(store.layouts().is_empty());
    let store = Database::load_or_empty(Some(Vec::new())).ok().unwrap();
    assert!(store.layouts().is_empty());
}

#[test]
fn store_is_loaded_from_records() {
    let records = vec![
        record(vec![
            entry(0xB, enabled_at(1920, 0)),
            entry(0xA, enabled_at(0, 0)),
            entry(0xC, OutputState::Disabled),
        ]),
        record(vec![entry(0xA, enabled_at(50, 50))]),
        // The same outputs as the first record: the first stays.
        record(vec![
            entry(0xA, enabled_at(0, 0)),
            entry(0xB, enabled_at(0, 1080)),
            entry(0xC, OutputState::Disabled),
        ]),
    ];
    let store = Database::load_or_empty(Some(records)).ok().unwrap();
    assert_eq!(store.layouts().len(), 2);
    let key = layout_of(vec![
        entry(0xA, OutputState::Disabled),
        entry(0xB, OutputState::Disabled),
        entry(0xC, OutputState::Disabled),
    ]);
    let found = store.get_layout(&LayoutById(key)).unwrap();
    let expected = layout_of(vec![
        entry(0xA, enabled_at(0, 0)),
        entry(0xB, enabled_at(1920, 0)),
        entry(0xC, OutputState::Disabled),
    ]);
    assert!(found == &expected);
    assert!(store.get_layout(&LayoutById(a_alone())) == Some(&a_alone()));
}

#[test]
fn unsupported_record_fails_the_load() {
    let gap = UnsupportedCauses {
        overlaps: false,
        gaps: true,
        duplicate_edid: false,
        clones: false,
    };
    let records = vec![
        record(vec![entry(0xA, enabled_at(0, 0))]),
        record(vec![entry(0xA, enabled_at(0, 0)), entry(0xB, enabled_at(9000, 0))]),
        record(vec![
            entry(0xA, enabled_at(i32::MIN, 0)),
            entry(0xB, enabled_at(i32::MAX, 0)),
        ]),
    ];
    assert_eq!(
        Database::load_or_empty(Some(records)).err(),
        Some(StoredLayoutError::Unsupported(gap))
    );
    let records = vec![record(vec![
        entry(0xA, enabled_at(i32::MIN, 0)),
        entry(0xB, enabled_at(i32::MAX, 0)),
    ])];
    assert_eq!(
        Database::load_or_empty(Some(records)).err(),
        Some(StoredLayoutError::OutOfRange)
    );
    let overlap = record(vec![entry(0xA, enabled_at(0, 0)), entry(0xB, enabled_at(10, 0))]);
    assert!(matches!(
        overlap.to_layout(),
        Err(StoredLayoutError::Unsupported(UnsupportedCauses { overlaps: true, .. }))
    ));
    assert!(record(vec![entry(0xA, enabled_at(7, 7))]).to_layout().ok().unwrap() == a_alone());
}

fn observed(layout: Layout) -> LayoutInfo {
    LayoutInfo {
        layout,
        unsupported_causes: UnsupportedCauses::empty(),
    }
}

#[test]
fn stored_layout_is_applied_when_its_outputs_come_back() {
    let mut store = Database::new();
    store.store_layout(a_and_b(0, 1080));
    let mut controller = Controller::new(observed(a_and_b(0, 1080)));
    // B is unplugged: nothing is stored for A alone.
    match controller.on_change(observed(a_alone()), &store) {
        Action::Synthesize(layout) => {
            assert!(layout == a_alone());
            controller.synthesized(layout)
        }
        other => panic!("unexpected action {:?}", other),
    }
    assert!(controller.last() == &a_alone());
    // B is plugged again, and the server puts it on the right.
    match controller.on_change(observed(a_and_b(1920, 0)), &store) {
        Action::Apply(layout) => assert!(layout == a_and_b(0, 1080)),
        other => panic!("unexpected action {:?}", other),
    }
    assert!(controller.last() == &a_and_b(0, 1080));
    assert_eq!(store.layouts().len(), 1);
}

#[test]
fn rearranged_outputs_are_stored() {
    let store = Database::new();
    let mut controller = Controller::new(observed(a_and_b(1920, 0)));
    match controller.on_change(observed(a_and_b(0, 1080)), &store) {
        Action::Store(layout) => assert!(layout == a_and_b(0, 1080)),
        other => panic!("unexpected action {:?}", other),
    }
    assert!(controller.last() == &a_and_b(0, 1080));
    // The same layout again is ignored.
    assert!(matches!(
        controller.on_change(observed(a_and_b(0, 1080)), &store),
        Action::Ignore
    ));
    assert!(controller.last() == &a_and_b(0, 1080));
}

#[test]
fn unsupported_layouts_are_ignored() {
    let mut store = Database::new();
    store.store_layout(a_alone());
    let mut controller = Controller::new(observed(a_and_b(1920, 0)));
    let with_gap = LayoutInfo::from(
        vec![entry(0xA, enabled_at(0, 0)), entry(0xB, enabled_at(5000, 0))],
        None,
    );
    assert!(!with_gap.unsupported_causes.is_empty());
    assert!(matches!(controller.on_change(with_gap, &store), Action::Ignore));
    assert!(controller.last() == &a_and_b(1920, 0));
    let clones = LayoutInfo {
        layout: a_alone(),
        unsupported_causes: UnsupportedCauses {
            overlaps: false,
            gaps: false,
            duplicate_edid: false,
            clones: true,
        },
    };
    assert!(matches!(controller.on_change(clones, &store), Action::Ignore));
    assert!(controller.last() == &a_and_b(1920, 0));
}

#[test]
fn the_first_layout_is_the_last_even_if_unsupported() {
    let with_gap = LayoutInfo::from(
        vec![entry(0xA, enabled_at(0, 0)), entry(0xB, enabled_at(5000, 0))],
        None,
    );
    let controller = Controller::new(with_gap);
    assert!(controller.last() == &a_and_b(5000, 0));
}

#[test]
fn store_written_as_records_is_read_back() {
    let mut store = Database::new();
    let three = LayoutInfo::from(
        vec![
            entry(0xA, enabled_at(0, 0)),
            entry(0xB, enabled_at(1920, 0)),
            entry(0xC, OutputState::Disabled),
        ],
        Some(OutputId::Edid(Edid::from(0xB))),
    )
    .layout;
    store.store_layout(three.clone());
    store.store_layout(a_alone());
    let records: Vec<StoredLayout> = store
        .layouts()
        .iter()
        .map(|layout| StoredLayout {
            outputs: layout.output_entries().to_vec(),
            primary: layout.primary().cloned(),
        })
        .collect();
    let reloaded = Database::load_or_empty(Some(records)).ok().unwrap();
    assert_eq!(reloaded.layouts().len(), 2);
    assert!(reloaded.get_layout(&LayoutById(three.clone())) == Some(&three));
    assert!(reloaded.get_layout(&LayoutById(a_alone())) == Some(&a_alone()));
}
