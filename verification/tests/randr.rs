use slam::geometry::{Rotation, Transform, Vec2d};
use slam::layout::{Edid, LayoutInfo, Mode, OutputEntry, OutputId, OutputState, UnsupportedCauses};
use slam::randr::{
    allocate_crtcs, compute_enabled_output_configs, configuration_steps, convert_to_layout,
    div_round, matching_mode, mode_of, output_id_of, output_state_of, physical_length,
    rotation_bits, target_layout_screen_size, transform_of, ConfigurationError,
    ConfigurationFault, ConfigurationStep, ConnectedOutput, CrtcChange, CrtcOffer,
    EnabledOutputConfiguration, ModeOffer, ObservedOutput, OutputExtent, ScreenSize,
    REFLECT_X, REFLECT_Y, ROTATE_0, ROTATE_180, ROTATE_270, ROTATE_90,
};

#[test]
fn rounded_division() {
    assert_eq!(div_round(7, 2), 4);
    assert_eq!(div_round(6, 4), 2);
    assert_eq!(div_round(5, 4), 1);
    assert_eq!(div_round(0, 9), 0);
    assert_eq!(div_round(4, 9), 0);
    assert_eq!(div_round(5, 9), 1);
    assert_eq!(div_round(u32::MAX, 1), u32::MAX);
    assert_eq!(div_round(u32::MAX, 2), 1 << 31);
    assert_eq!(div_round(u32::MAX, u32::MAX), 1);
    assert_eq!(div_round(1 << 31, u32::MAX), 1);
}

#[test]
fn mode_from_timings() {
    // 1920x1080 at 148.5 MHz with a frame of 2200 by 1125 dots.
    assert_eq!(
        mode_of(1920, 1080, 148_500_000, 2200, 1125),
        Mode {
            size: Vec2d::new(1920, 1080),
            frequency: 60
        }
    );
    // 59.94 Hz rounds to 60, 59.4 Hz to 59.
    assert_eq!(mode_of(1920, 1080, 148_351_500, 2200, 1125).frequency, 60);
    assert_eq!(mode_of(640, 480, 147_015_000, 2200, 1125).frequency, 59);
    assert_eq!(mode_of(1, 1, u32::MAX, 1, 1).frequency, u32::MAX);
    assert_eq!(mode_of(u16::MAX, u16::MAX, 1, u16::MAX, u16::MAX).size, Vec2d::new(65535, 65535));
}

#[test]
fn transform_of_rotation_bits() {
    let t = |reflect, rotation| Transform { reflect, rotation };
    assert_eq!(transform_of(ROTATE_0), t(false, Rotation::R0));
    assert_eq!(transform_of(0), t(false, Rotation::R0));
    assert_eq!(transform_of(ROTATE_90), t(false, Rotation::R90));
    assert_eq!(transform_of(ROTATE_180), t(false, Rotation::R180));
    assert_eq!(transform_of(ROTATE_270), t(false, Rotation::R270));
    assert_eq!(transform_of(REFLECT_X | ROTATE_0), t(true, Rotation::R0));
    assert_eq!(transform_of(REFLECT_X | ROTATE_90), t(true, Rotation::R90));
    // A flip of y is a flip of x and a half turn.
    assert_eq!(transform_of(REFLECT_Y | ROTATE_0), t(true, Rotation::R180));
    assert_eq!(transform_of(REFLECT_Y | ROTATE_90), t(true, Rotation::R270));
    // Both flips are a half turn.
    assert_eq!(transform_of(REFLECT_X | REFLECT_Y), t(false, Rotation::R180));
    assert_eq!(transform_of(REFLECT_X | REFLECT_Y | ROTATE_180), t(false, Rotation::R0));
    // Rotations that are named together add up.
    assert_eq!(transform_of(ROTATE_90 | ROTATE_180), t(false, Rotation::R270));
    assert_eq!(transform_of(ROTATE_90 | ROTATE_270), t(false, Rotation::R0));
    // Other bits say nothing.
    assert_eq!(transform_of(0xFFC0 | ROTATE_90), t(false, Rotation::R90));
}

#[test]
fn rotation_bits_of_transforms() {
    for reflect in [false, true] {
        for rotation in [Rotation::R0, Rotation::R90, Rotation::R180, Rotation::R270] {
            let transform = Transform { reflect, rotation };
            assert_eq!(transform_of(rotation_bits(&transform)), transform);
        }
    }
    assert_eq!(rotation_bits(&Transform::default()), 1);
    assert_eq!(
        rotation_bits(&Transform {
            reflect: true,
            rotation: Rotation::R270
        }),
        24
    );
}

fn extent(px: (u32, u32), mm: (u32, u32)) -> OutputExtent {
    OutputExtent {
        pixels: Vec2d::new(px.0, px.1),
        millimetres: Vec2d::new(mm.0, mm.1),
    }
}

#[test]
fn physical_length_without_a_measured_output() {
    // 96 dots per inch of 25.4 mm.
    assert_eq!(physical_length(1920, &[]), 508);
    assert_eq!(physical_length(96, &[]), 25);
    assert_eq!(physical_length(0, &[]), 0);
    assert_eq!(physical_length(u16::MAX, &[]), 17339);
    assert_eq!(physical_length(1920, &[extent((1920, 1080), (0, 300))]), 508);
}

#[test]
fn physical_length_from_the_density_of_the_outputs() {
    // 4 pixels per millimetre along both axes.
    let sharp = extent((1920, 1080), (480, 270));
    assert_eq!(physical_length(1920, &[sharp]), 480);
    assert_eq!(physical_length(1080, &[sharp]), 270);
    // 2 pixels per millimetre.
    let coarse = extent((1000, 500), (500, 250));
    assert_eq!(physical_length(1000, &[coarse]), 500);
    // Both, weighted by their areas 129600 and 125000: the densities add up
    // to 1036800 + 500000, and 2 * 1000 * 254600 / 1536800 is 331.3.
    assert_eq!(physical_length(1000, &[sharp, coarse]), 331);
    // An output that reports no size does not count.
    assert_eq!(
        physical_length(1000, &[sharp, extent((640, 480), (0, 0)), coarse]),
        331
    );
    // An output of no pixels has no density.
    let blank = extent((0, 0), (100, 100));
    assert_eq!(physical_length(10, &[blank]), u32::MAX);
    assert_eq!(physical_length(0, &[blank]), 0);
    let huge = extent((1, 1), (u32::MAX, u32::MAX));
    assert_eq!(physical_length(2, &[huge]), u32::MAX);
}

#[test]
fn steps_of_a_change_of_configuration() {
    let change = |crtc, outputs_before, assigned| CrtcChange {
        crtc,
        outputs_before,
        assigned,
    };
    let steps = configuration_steps(
        Vec2d::new(1920, 1200),
        Vec2d::new(3840, 1080),
        &[
            change(10, 1, true),
            change(11, 2, true),
            change(12, 1, false),
            change(13, 0, false),
            change(14, 0, true),
            change(15, 3, false),
        ],
    );
    assert_eq!(
        steps,
        vec![
            ConfigurationStep::Resize(Vec2d::new(3840, 1200)),
            ConfigurationStep::Disable(12),
            ConfigurationStep::Disable(15),
            ConfigurationStep::Assign(11),
            ConfigurationStep::Assign(10),
            ConfigurationStep::Assign(14),
            ConfigurationStep::Resize(Vec2d::new(3840, 1080)),
        ]
    );
    // The screen is resized once where the new size holds the old one.
    assert_eq!(
        configuration_steps(Vec2d::new(800, 600), Vec2d::new(1024, 768), &[]),
        vec![ConfigurationStep::Resize(Vec2d::new(1024, 768))]
    );
    assert_eq!(
        configuration_steps(Vec2d::new(800, 600), Vec2d::new(800, 600), &[change(1, 1, true)]),
        vec![
            ConfigurationStep::Resize(Vec2d::new(800, 600)),
            ConfigurationStep::Assign(1)
        ]
    );
}

#[test]
fn mode_that_an_output_offers() {
    let mode = |x, y, frequency| Mode {
        size: Vec2d::new(x, y),
        frequency,
    };
    let offers = [
        ModeOffer { id: 70, mode: mode(1920, 1080, 60) },
        ModeOffer { id: 71, mode: mode(1920, 1080, 50) },
        ModeOffer { id: 72, mode: mode(1280, 720, 60) },
        ModeOffer { id: 73, mode: mode(1920, 1080, 50) },
    ];
    assert_eq!(matching_mode(&offers, &mode(1920, 1080, 60)), Some(70));
    assert_eq!(matching_mode(&offers, &mode(1920, 1080, 50)), Some(71));
    assert_eq!(matching_mode(&offers, &mode(1280, 720, 60)), Some(72));
    assert_eq!(matching_mode(&offers, &mode(1280, 720, 50)), None);
    assert_eq!(matching_mode(&offers, &mode(1080, 1920, 60)), None);
    assert_eq!(matching_mode(&[], &mode(1920, 1080, 60)), None);
}

fn config(output: u32, rotation: u16, current_crtc: Option<usize>) -> EnabledOutputConfiguration {
    EnabledOutputConfiguration {
        output,
        bottom_left: Vec2d::new(0, 0),
        mode: 70,
        rotation,
        current_crtc,
    }
}

#[test]
fn outputs_keep_their_crtc_where_they_can() {
    let crtcs = [
        CrtcOffer { possible: vec![1, 2, 3], rotations: ROTATE_0 | ROTATE_90 },
        CrtcOffer { possible: vec![1, 2], rotations: ROTATE_0 },
        CrtcOffer { possible: vec![3], rotations: ROTATE_0 | REFLECT_X },
    ];
    // The output 2 is on the second CRTC and stays there; the output 1
    // gets the first that is free.
    let allocation = allocate_crtcs(&crtcs, &[config(1, ROTATE_0, None), config(2, ROTATE_0, Some(1))]);
    assert_eq!(allocation, Ok(vec![Some(0), Some(1), None]));
    // The output 3 is on the first CRTC, which cannot show it reflected.
    let allocation = allocate_crtcs(&crtcs, &[config(3, ROTATE_0 | REFLECT_X, Some(0))]);
    assert_eq!(allocation, Ok(vec![None, None, Some(0)]));
    // Two outputs on one CRTC: the first keeps it.
    let allocation = allocate_crtcs(&crtcs, &[config(2, ROTATE_0, Some(0)), config(1, ROTATE_0, Some(0))]);
    assert_eq!(allocation, Ok(vec![Some(0), Some(1), None]));
    // A CRTC that is not there is no CRTC.
    let allocation = allocate_crtcs(&crtcs, &[config(1, ROTATE_90, Some(7))]);
    assert_eq!(allocation, Ok(vec![Some(0), None, None]));
    assert_eq!(allocate_crtcs(&crtcs, &[]), Ok(vec![None, None, None]));
}

#[test]
fn outputs_without_a_crtc() {
    let crtcs = [
        CrtcOffer { possible: vec![1, 2], rotations: ROTATE_0 },
        CrtcOffer { possible: vec![1], rotations: ROTATE_0 | ROTATE_180 },
    ];
    // The output 1 takes the first CRTC, the only one for the output 2.
    assert_eq!(
        allocate_crtcs(&crtcs, &[config(1, ROTATE_0, None), config(2, ROTATE_0, None)]),
        Err(1)
    );
    // It does not where it is on the second CRTC already.
    assert_eq!(
        allocate_crtcs(&crtcs, &[config(1, ROTATE_0, Some(1)), config(2, ROTATE_0, None)]),
        Ok(vec![Some(1), Some(0)])
    );
    assert_eq!(allocate_crtcs(&crtcs, &[config(2, ROTATE_180, None)]), Err(0));
    assert_eq!(allocate_crtcs(&crtcs, &[config(9, ROTATE_0, None)]), Err(0));
    assert_eq!(allocate_crtcs(&[], &[config(1, ROTATE_0, None)]), Err(0));
}

#[test]
fn identifier_and_state_of_an_output() {
    assert!(output_id_of(Some(Edid::from(5)), "DP-1".to_string()) == OutputId::Edid(Edid::from(5)));
    assert!(output_id_of(None, "DP-1".to_string()) == OutputId::Name("DP-1".to_string()));
    let mode = Mode {
        size: Vec2d::new(1920, 1080),
        frequency: 60,
    };
    assert_eq!(output_state_of(None, ROTATE_90, 5, 5), OutputState::Disabled);
    assert_eq!(
        output_state_of(Some(mode), ROTATE_90 | REFLECT_X, -5, 7),
        OutputState::Enabled {
            mode,
            transform: Transform {
                reflect: true,
                rotation: Rotation::R90
            },
            bottom_left: Vec2d::new(-5, 7)
        }
    );
}

fn full_hd() -> Mode {
    Mode {
        size: Vec2d::new(1920, 1080),
        frequency: 60,
    }
}

fn observed(edid: u64, mode: Option<Mode>, rotation: u16, x: i16, y: i16) -> ObservedOutput {
    ObservedOutput {
        edid: Some(Edid::from(edid)),
        name: format!("DP-{}", edid),
        mode,
        rotation,
        x,
        y,
    }
}

fn enabled(raw: u64, transform: Transform, x: i32, y: i32) -> OutputEntry {
    OutputEntry {
        id: OutputId::Edid(Edid::from(raw)),
        state: OutputState::Enabled {
            mode: full_hd(),
            transform,
            bottom_left: Vec2d::new(x, y),
        },
    }
}

#[test]
fn layout_of_the_observed_outputs() {
    let outputs = [
        observed(2, Some(full_hd()), ROTATE_90, 2020, 100),
        observed(1, Some(full_hd()), ROTATE_0, 100, 100),
        ObservedOutput {
            edid: None,
            name: "VGA-1".to_string(),
            mode: None,
            rotation: ROTATE_0,
            x: 0,
            y: 0,
        },
    ];
    let info = convert_to_layout(&outputs, Some(1), false).unwrap();
    assert!(info.unsupported_causes.is_empty());
    let quarter = Transform {
        reflect: false,
        rotation: Rotation::R90,
    };
    let expected = [
        enabled(1, Transform::default(), 0, 0),
        enabled(2, quarter, 1920, 0),
        OutputEntry {
            id: OutputId::Name("VGA-1".to_string()),
            state: OutputState::Disabled,
        },
    ];
    assert!(info.layout.output_entries() == expected.as_slice());
    assert!(info.layout.primary() == Some(&OutputId::Edid(Edid::from(1))));
    // Clones are what the server says.
    let cloned = convert_to_layout(&outputs, None, true).unwrap();
    assert_eq!(
        cloned.unsupported_causes,
        UnsupportedCauses {
            overlaps: false,
            gaps: false,
            duplicate_edid: false,
            clones: true
        }
    );
    assert!(cloned.layout.primary().is_none());
    // A primary output that is not there is none.
    assert!(convert_to_layout(&outputs, Some(3), false).unwrap().layout.primary().is_none());
    let huge = Mode {
        size: Vec2d::new(u32::MAX, 1),
        frequency: 60,
    };
    assert!(convert_to_layout(&[observed(1, Some(huge), ROTATE_0, 0, 0)], None, false).is_none());
    assert!(convert_to_layout(&[], None, false).unwrap().layout.output_entries().is_empty());
}

#[test]
fn size_of_the_screen_of_a_layout() {
    let layout = LayoutInfo::from(
        vec![
            enabled(1, Transform::default(), 0, 0),
            enabled(2, Transform::default(), 1920, 0),
        ],
        None,
    )
    .layout;
    // Both outputs show 4 pixels per millimetre.
    let size = target_layout_screen_size(&layout, &[Vec2d::new(480, 270), Vec2d::new(480, 270)]);
    assert_eq!(
        size,
        Some(ScreenSize {
            pixel: Vec2d::new(3840, 1080),
            physical: Vec2d::new(960, 270)
        })
    );
    // Without a size in millimetres the screen has 96 dots per inch.
    let size = target_layout_screen_size(&layout, &[Vec2d::new(0, 0), Vec2d::new(0, 0)]);
    assert_eq!(
        size,
        Some(ScreenSize {
            pixel: Vec2d::new(3840, 1080),
            physical: Vec2d::new(1016, 285)
        })
    );
    let wide = LayoutInfo::from(
        vec![
            enabled(1, Transform::default(), 0, 0),
            enabled(2, Transform::default(), 63616, 0),
        ],
        None,
    )
    .layout;
    assert_eq!(
        target_layout_screen_size(&wide, &[Vec2d::new(1, 1), Vec2d::new(1, 1)]),
        None
    );
    let empty = LayoutInfo::from(Vec::new(), None).layout;
    assert_eq!(
        target_layout_screen_size(&empty, &[]),
        Some(ScreenSize {
            pixel: Vec2d::new(0, 0),
            physical: Vec2d::new(0, 0)
        })
    );
}

#[test]
fn configurations_of_the_enabled_outputs() {
    let reflected = Transform {
        reflect: true,
        rotation: Rotation::R180,
    };
    let layout = LayoutInfo::from(
        vec![
            enabled(1, Transform::default(), 0, 0),
            OutputEntry {
                id: OutputId::Edid(Edid::from(2)),
                state: OutputState::Disabled,
            },
            enabled(3, reflected, 1920, 0),
        ],
        None,
    )
    .layout;
    let offers = |first: u32| {
        vec![
            ModeOffer {
                id: first,
                mode: Mode {
                    size: Vec2d::new(1280, 720),
                    frequency: 60,
                },
            },
            ModeOffer {
                id: first + 1,
                mode: full_hd(),
            },
        ]
    };
    let connected = |output: u32, first: u32, current_crtc| ConnectedOutput {
        output,
        offers: offers(first),
        current_crtc,
    };
    let configs = compute_enabled_output_configs(&layout, &[connected(501, 70, Some(0)), connected(503, 80, None)]);
    assert_eq!(
        configs,
        Ok(vec![
            EnabledOutputConfiguration {
                output: 501,
                bottom_left: Vec2d::new(0, 0),
                mode: 71,
                rotation: ROTATE_0,
                current_crtc: Some(0)
            },
            EnabledOutputConfiguration {
                output: 503,
                bottom_left: Vec2d::new(1920, 0),
                mode: 81,
                rotation: ROTATE_180 | REFLECT_X,
                current_crtc: None
            },
        ])
    );
    // The second output does not offer the mode.
    let without = ConnectedOutput {
        output: 503,
        offers: vec![offers(80)[0]],
        current_crtc: None,
    };
    assert_eq!(
        compute_enabled_output_configs(&layout, &[connected(501, 70, None), without]),
        Err(ConfigurationError {
            output: 1,
            fault: ConfigurationFault::NoMatchingMode
        })
    );
    // A place beyond what fits sixteen bits.
    let far = LayoutInfo::from(
        vec![
            enabled(1, Transform::default(), 0, 0),
            enabled(3, Transform::default(), 0, 32768),
        ],
        None,
    )
    .layout;
    assert_eq!(
        compute_enabled_output_configs(&far, &[connected(501, 70, None), connected(503, 80, None)]),
        Err(ConfigurationError {
            output: 1,
            fault: ConfigurationFault::CoordinateOverflow
        })
    );
}
