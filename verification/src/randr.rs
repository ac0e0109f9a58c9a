//! What a RandR display server says of modes and rotations, in the terms of
//! layouts: plain numbers in, plain numbers out.

use crate::geometry::{Rotation, Transform, Vec2d};
use crate::layout::{
    bounding_size, enabled_corners, enabled_modes, enabled_transforms, entry_views, layout_entries, option_id_view,
    placement_fits, spec_unsupported_causes, Layout, LayoutInfo, UnsupportedCauses,
};
use crate::output::{Edid, Mode, OutputEntry, OutputEntryView, OutputId, OutputIdView, OutputState};
use crate::relation::pair_count;
use vstd::prelude::*;

verus! {

/// The bit of a RandR rotation that says: not turned.
pub const ROTATE_0: u16 = 1;

/// The bit of a RandR rotation that says: a quarter turn.
pub const ROTATE_90: u16 = 2;

/// The bit of a RandR rotation that says: a half turn.
pub const ROTATE_180: u16 = 4;

/// The bit of a RandR rotation that says: three quarter turns.
pub const ROTATE_270: u16 = 8;

/// The bit of a RandR rotation that says: `x` flipped.
pub const REFLECT_X: u16 = 16;

/// The bit of a RandR rotation that says: `y` flipped.
pub const REFLECT_Y: u16 = 32;

/// The bit `flag` is set in `bits`.
pub open spec fn has_flag(bits: u16, flag: u16) -> bool {
    bits & flag == flag
}

/// `lhs / rhs`, rounded to the nearest integer, halves upward.
pub open spec fn spec_div_round(lhs: int, rhs: int) -> int {
    (lhs + rhs / 2) / rhs
}

/// `lhs / rhs`, rounded to the nearest integer, halves upward.
pub fn div_round(lhs: u32, rhs: u32) -> (res: u32)
    requires
        rhs != 0,
    ensures
        res == spec_div_round(lhs as int, rhs as int),
{
    let wide: u64 = lhs as u64 + (rhs / 2) as u64;
    let quotient: u64 = wide / rhs as u64;
    assert(quotient <= u32::MAX) by {
        assert(wide / (rhs as u64) <= wide) by (nonlinear_arith)
            requires
                rhs >= 1,
        ;
        if rhs >= 2 {
            assert(wide / (rhs as u64) <= wide / 2) by (nonlinear_arith)
                requires
                    rhs >= 2,
                    wide >= 0,
            ;
            assert(wide <= u32::MAX + u32::MAX / 2);
        }
    }
    quotient as u32
}

/// The transform that a RandR rotation stands for: the flips that it
/// names, `x` first, followed by each of the rotations that it names.
pub open spec fn spec_transform_of(bits: u16) -> Transform {
    let t0 = Transform::identity();
    let t1 = if has_flag(bits, REFLECT_X) { t0.spec_reflect_x() } else { t0 };
    let t2 = if has_flag(bits, REFLECT_Y) { t1.spec_reflect_y() } else { t1 };
    let t3 = if has_flag(bits, ROTATE_90) { t2.spec_rotate(Rotation::R90) } else { t2 };
    let t4 = if has_flag(bits, ROTATE_180) { t3.spec_rotate(Rotation::R180) } else { t3 };
    if has_flag(bits, ROTATE_270) {
        t4.spec_rotate(Rotation::R270)
    } else {
        t4
    }
}

/// The RandR rotation of a transform: the bit of its rotation, and that of
/// a flip of `x` where it reflects.
pub open spec fn spec_rotation_bits(transform: Transform) -> u16 {
    let rotation = match transform.rotation {
        Rotation::R0 => ROTATE_0,
        Rotation::R90 => ROTATE_90,
        Rotation::R180 => ROTATE_180,
        Rotation::R270 => ROTATE_270,
    };
    if transform.reflect {
        (rotation + REFLECT_X) as u16
    } else {
        rotation
    }
}

/// The transform that a RandR rotation stands for. A rotation may say the
/// same in several ways; the transform says it in one.
pub fn transform_of(bits: u16) -> (res: Transform)
    ensures
        res == spec_transform_of(bits),
{
    let mut transform = Transform::default();
    if bits & REFLECT_X == REFLECT_X {
        transform = transform.reflect_x();
    }
    if bits & REFLECT_Y == REFLECT_Y {
        transform = transform.reflect_y();
    }
    if bits & ROTATE_90 == ROTATE_90 {
        transform = transform.rotate(Rotation::R90);
    }
    if bits & ROTATE_180 == ROTATE_180 {
        transform = transform.rotate(Rotation::R180);
    }
    if bits & ROTATE_270 == ROTATE_270 {
        transform = transform.rotate(Rotation::R270);
    }
    transform
}

/// The RandR rotation of a transform.
pub fn rotation_bits(transform: &Transform) -> (res: u16)
    ensures
        res == spec_rotation_bits(*transform),
{
    let rotation: u16 = match transform.rotation {
        Rotation::R0 => ROTATE_0,
        Rotation::R90 => ROTATE_90,
        Rotation::R180 => ROTATE_180,
        Rotation::R270 => ROTATE_270,
    };
    if transform.reflect {
        rotation + REFLECT_X
    } else {
        rotation
    }
}

/// The RandR rotation of a transform stands for that transform.
pub proof fn lemma_rotation_bits_round_trip(transform: Transform)
    ensures
        spec_transform_of(spec_rotation_bits(transform)) == transform,
{
    let bits = spec_rotation_bits(transform);
    assert(bits == 1 || bits == 2 || bits == 4 || bits == 8 || bits == 17 || bits == 18 || bits == 20 || bits == 24);
    assert(has_flag(1, 1) && !has_flag(1, 2) && !has_flag(1, 4) && !has_flag(1, 8) && !has_flag(1, 16) && !has_flag(
        1,
        32,
    )) by (bit_vector);
    assert(!has_flag(2, 1) && has_flag(2, 2) && !has_flag(2, 4) && !has_flag(2, 8) && !has_flag(2, 16) && !has_flag(
        2,
        32,
    )) by (bit_vector);
    assert(!has_flag(4, 1) && !has_flag(4, 2) && has_flag(4, 4) && !has_flag(4, 8) && !has_flag(4, 16) && !has_flag(
        4,
        32,
    )) by (bit_vector);
    assert(!has_flag(8, 1) && !has_flag(8, 2) && !has_flag(8, 4) && has_flag(8, 8) && !has_flag(8, 16) && !has_flag(
        8,
        32,
    )) by (bit_vector);
    assert(has_flag(17, 1) && !has_flag(17, 2) && !has_flag(17, 4) && !has_flag(17, 8) && has_flag(17, 16)
        && !has_flag(17, 32)) by (bit_vector);
    assert(!has_flag(18, 1) && has_flag(18, 2) && !has_flag(18, 4) && !has_flag(18, 8) && has_flag(18, 16)
        && !has_flag(18, 32)) by (bit_vector);
    assert(!has_flag(20, 1) && !has_flag(20, 2) && has_flag(20, 4) && !has_flag(20, 8) && has_flag(20, 16)
        && !has_flag(20, 32)) by (bit_vector);
    assert(!has_flag(24, 1) && !has_flag(24, 2) && !has_flag(24, 4) && has_flag(24, 8) && has_flag(24, 16)
        && !has_flag(24, 32)) by (bit_vector);
}

/// The mode of given timings: so many pixels, at the frequency that the
/// dot clock gives for the total size of a frame.
pub open spec fn spec_mode_of(width: u16, height: u16, dot_clock: u32, htotal: u16, vtotal: u16) -> Mode {
    Mode {
        size: Vec2d { x: width as u32, y: height as u32 },
        frequency: spec_div_round(dot_clock as int, htotal * vtotal) as u32,
    }
}

/// The mode of given timings. The frame has to have a size.
pub fn mode_of(width: u16, height: u16, dot_clock: u32, htotal: u16, vtotal: u16) -> (res: Mode)
    requires
        htotal != 0,
        vtotal != 0,
    ensures
        res == spec_mode_of(width, height, dot_clock, htotal, vtotal),
{
    assert(0 < htotal * vtotal <= 0xFFFF * 0xFFFF) by (nonlinear_arith)
        requires
            0 < htotal <= 0xFFFF,
            0 < vtotal <= 0xFFFF,
    ;
    let dots: u32 = htotal as u32 * vtotal as u32;
    Mode { size: Vec2d { x: width as u32, y: height as u32 }, frequency: div_round(dot_clock, dots) }
}

/// What an enabled output shows and how large it is: its mode in pixels,
/// and its size in millimetres as the display reports it.
#[derive(Clone, Copy, Debug, PartialEq, Eq, Structural)]
pub struct OutputExtent {
    pub pixels: Vec2d<u32>,
    pub millimetres: Vec2d<u32>,
}

impl OutputExtent {
    /// The display reports a size.
    pub open spec fn measured(self) -> bool {
        self.millimetres.x > 0 && self.millimetres.y > 0
    }
}

/// Sum, over the first `upto` outputs that report a size, of their areas
/// in square millimetres.
pub open spec fn area_sum(extents: Seq<OutputExtent>, upto: int) -> int
    decreases upto,
{
    if upto <= 0 {
        0
    } else {
        area_sum(extents, upto - 1) + if extents[upto - 1].measured() {
            extents[upto - 1].millimetres.x * extents[upto - 1].millimetres.y
        } else {
            0
        }
    }
}

/// Sum, over the first `upto` outputs that report a size, of their areas
/// times the sum of their two densities, in pixels per millimetre.
pub open spec fn density_sum(extents: Seq<OutputExtent>, upto: int) -> int
    decreases upto,
{
    if upto <= 0 {
        0
    } else {
        density_sum(extents, upto - 1) + if extents[upto - 1].measured() {
            extents[upto - 1].millimetres.y * extents[upto - 1].pixels.x + extents[upto - 1].millimetres.x
                * extents[upto - 1].pixels.y
        } else {
            0
        }
    }
}

/// `v` brought into the range of `u32`.
pub open spec fn clip_u32(v: int) -> u32 {
    if v > u32::MAX {
        u32::MAX
    } else if v < 0 {
        0
    } else {
        v as u32
    }
}

/// The length in millimetres of `pixels` pixels of a screen made of the
/// outputs `extents`. The density of the screen is the mean of the
/// densities of the outputs that report a size, along both axes, each
/// output weighted by its area; without such an output it is 96 dots per
/// inch, of 25.4 mm. The length is rounded down.
pub open spec fn spec_physical_length(pixels: u16, extents: Seq<OutputExtent>) -> u32 {
    let areas = area_sum(extents, extents.len() as int);
    let densities = density_sum(extents, extents.len() as int);
    if areas == 0 {
        ((pixels * 127) / 480) as u32
    } else if densities == 0 {
        if pixels == 0 {
            0
        } else {
            u32::MAX
        }
    } else {
        clip_u32((2 * pixels * areas) / densities)
    }
}

/// The length in millimetres of `pixels` pixels of a screen made of the
/// outputs `extents`.
pub fn physical_length(pixels: u16, extents: &[OutputExtent]) -> (res: u32)
    requires
        extents@.len() <= u32::MAX,
    ensures
        res == spec_physical_length(pixels, extents@),
{
    let mut areas: u128 = 0;
    let mut densities: u128 = 0;
    let mut i: usize = 0;
    while i < extents.len()
        invariant
            i <= extents@.len(),
            extents@.len() <= u32::MAX,
            areas == area_sum(extents@, i as int),
            densities == density_sum(extents@, i as int),
            areas <= i * 0x1_0000_0000_0000_0000,
            densities <= i * 0x2_0000_0000_0000_0000,
        decreases extents@.len() - i,
    {
        let extent = extents[i];
        if extent.millimetres.x > 0 && extent.millimetres.y > 0 {
            let mm_x = extent.millimetres.x as u128;
            let mm_y = extent.millimetres.y as u128;
            let px_x = extent.pixels.x as u128;
            let px_y = extent.pixels.y as u128;
            assert(mm_x * mm_y <= 0x1_0000_0000_0000_0000 && mm_y * px_x <= 0x1_0000_0000_0000_0000 && mm_x * px_y
                <= 0x1_0000_0000_0000_0000) by (nonlinear_arith)
                requires
                    mm_x <= 0xFFFF_FFFF,
                    mm_y <= 0xFFFF_FFFF,
                    px_x <= 0xFFFF_FFFF,
                    px_y <= 0xFFFF_FFFF,
            ;
            areas = areas + mm_x * mm_y;
            densities = densities + (mm_y * px_x + mm_x * px_y);
        }
        i += 1;
    }
    let wide = pixels as u128;
    if areas == 0 {
        ((wide * 127) / 480) as u32
    } else if densities == 0 {
        if pixels == 0 {
            0
        } else {
            u32::MAX
        }
    } else {
        assert(2 * wide * areas <= 2 * 0xFFFF * (0xFFFF_FFFF * 0x1_0000_0000_0000_0000)) by (nonlinear_arith)
            requires
                wide <= 0xFFFF,
                areas <= 0xFFFF_FFFF * 0x1_0000_0000_0000_0000,
        ;
        let length: u128 = (2 * wide * areas) / densities;
        if length > u32::MAX as u128 {
            u32::MAX
        } else {
            length as u32
        }
    }
}

/// What a CRTC drives now and whether it gets an output: its identifier,
/// the number of outputs that it drives before the change, and whether the
/// new configuration gives it one.
#[derive(Clone, Copy, Debug, PartialEq, Eq, Structural)]
pub struct CrtcChange {
    pub crtc: u32,
    pub outputs_before: usize,
    pub assigned: bool,
}

/// A step of the change of configuration.
#[derive(Clone, Copy, Debug, PartialEq, Eq, Structural)]
pub enum ConfigurationStep {
    /// The screen gets this size in pixels.
    Resize(Vec2d<u16>),
    /// The CRTC gets no output.
    Disable(u32),
    /// The CRTC gets its output of the new configuration.
    Assign(u32),
}

/// The step of the phase `phase` for a CRTC, if it has one. The phases: 0
/// disables the CRTCs that drive outputs and get none; 1 assigns the
/// CRTCs that drive several outputs, which takes those outputs apart; 2
/// assigns the other CRTCs that get an output. A CRTC that drives nothing
/// and gets nothing has no step.
pub open spec fn step_in_phase(change: CrtcChange, phase: int) -> Option<ConfigurationStep> {
    if phase == 0 && !change.assigned && change.outputs_before > 0 {
        Some(ConfigurationStep::Disable(change.crtc))
    } else if phase == 1 && change.assigned && change.outputs_before > 1 {
        Some(ConfigurationStep::Assign(change.crtc))
    } else if phase == 2 && change.assigned && change.outputs_before <= 1 {
        Some(ConfigurationStep::Assign(change.crtc))
    } else {
        None
    }
}

/// The steps of the phase `phase` for the first `upto` CRTCs, in their
/// order.
pub open spec fn steps_in_phase(changes: Seq<CrtcChange>, phase: int, upto: int) -> Seq<ConfigurationStep>
    decreases upto,
{
    if upto <= 0 {
        Seq::empty()
    } else {
        let before = steps_in_phase(changes, phase, upto - 1);
        match step_in_phase(changes[upto - 1], phase) {
            Some(step) => before.push(step),
            None => before,
        }
    }
}

/// The steps that change the configuration, in an order in which every
/// state on the way is valid: the screen is made large enough for the old
/// and the new configuration; then come the three phases of the CRTCs;
/// then the screen gets its new size, unless it has it.
pub open spec fn spec_configuration_steps(current: Vec2d<u16>, target: Vec2d<u16>, changes: Seq<CrtcChange>) -> Seq<
    ConfigurationStep,
> {
    let provisional = Vec2d {
        x: if current.x >= target.x { current.x } else { target.x },
        y: if current.y >= target.y { current.y } else { target.y },
    };
    let n = changes.len() as int;
    let steps = seq![ConfigurationStep::Resize(provisional)] + steps_in_phase(changes, 0, n) + steps_in_phase(
        changes,
        1,
        n,
    ) + steps_in_phase(changes, 2, n);
    if provisional != target {
        steps.push(ConfigurationStep::Resize(target))
    } else {
        steps
    }
}

/// The steps that change the configuration from a screen of the size
/// `current` to one of the size `target`, with the CRTCs `changes`.
pub fn configuration_steps(current: Vec2d<u16>, target: Vec2d<u16>, changes: &[CrtcChange]) -> (res: Vec<
    ConfigurationStep,
>)
    ensures
        res@ == spec_configuration_steps(current, target, changes@),
{
    let provisional = Vec2d {
        x: if current.x >= target.x { current.x } else { target.x },
        y: if current.y >= target.y { current.y } else { target.y },
    };
    let mut steps: Vec<ConfigurationStep> = Vec::new();
    steps.push(ConfigurationStep::Resize(provisional));
    let ghost first = steps@;
    let ghost n = changes@.len() as int;
    // Disable newly unused CRTCs.
    let mut i: usize = 0;
    assert(steps@ =~= first + steps_in_phase(changes@, 0, 0));
    while i < changes.len()
        invariant
            i <= changes@.len(),
            steps@ == first + steps_in_phase(changes@, 0, i as int),
        decreases changes@.len() - i,
    {
        let change = changes[i];
        if !change.assigned && change.outputs_before > 0 {
            steps.push(ConfigurationStep::Disable(change.crtc));
        }
        assert(steps@ =~= first + steps_in_phase(changes@, 0, i + 1));
        i += 1;
    }
    // Reassign cloned CRTCs first to detach them from many outputs.
    let ghost second = steps@;
    let mut i: usize = 0;
    assert(steps@ =~= second + steps_in_phase(changes@, 1, 0));
    while i < changes.len()
        invariant
            i <= changes@.len(),
            steps@ == second + steps_in_phase(changes@, 1, i as int),
        decreases changes@.len() - i,
    {
        let change = changes[i];
        if change.assigned && change.outputs_before > 1 {
            steps.push(ConfigurationStep::Assign(change.crtc));
        }
        assert(steps@ =~= second + steps_in_phase(changes@, 1, i + 1));
        i += 1;
    }
    // Set the remaining CRTCs.
    let ghost third = steps@;
    let mut i: usize = 0;
    assert(steps@ =~= third + steps_in_phase(changes@, 2, 0));
    while i < changes.len()
        invariant
            i <= changes@.len(),
            steps@ == third + steps_in_phase(changes@, 2, i as int),
        decreases changes@.len() - i,
    {
        let change = changes[i];
        if change.assigned && change.outputs_before <= 1 {
            steps.push(ConfigurationStep::Assign(change.crtc));
        }
        assert(steps@ =~= third + steps_in_phase(changes@, 2, i + 1));
        i += 1;
    }
    // Resize to the final dimensions.
    if provisional.x != target.x || provisional.y != target.y {
        steps.push(ConfigurationStep::Resize(target));
    }
    steps
}

/// A mode that an output can show, under the identifier that the display
/// server gives it.
#[derive(Clone, Copy, Debug, PartialEq, Eq, Structural)]
pub struct ModeOffer {
    pub id: u32,
    pub mode: Mode,
}

/// Index of the first of the offers that is the mode `requested`, if there
/// is one among the first `upto`.
pub open spec fn first_offer(offers: Seq<ModeOffer>, requested: Mode, upto: int) -> Option<int>
    decreases upto,
{
    if upto <= 0 {
        None
    } else {
        match first_offer(offers, requested, upto - 1) {
            Some(i) => Some(i),
            None => if offers[upto - 1].mode == requested {
                Some(upto - 1)
            } else {
                None
            },
        }
    }
}

/// The identifier under which an output offers the mode `requested`: that
/// of the first offer of this very mode, size and frequency. `None` says
/// that the mode is not available on the output.
pub fn matching_mode(offers: &[ModeOffer], requested: &Mode) -> (res: Option<u32>)
    ensures
        match first_offer(offers@, *requested, offers@.len() as int) {
            Some(i) => res == Some(offers@[i].id),
            None => res.is_none(),
        },
{
    let mut i: usize = 0;
    while i < offers.len()
        invariant
            i <= offers@.len(),
            first_offer(offers@, *requested, i as int).is_none(),
        decreases offers@.len() - i,
    {
        if offers[i].mode == *requested {
            proof {
                lemma_first_offer_stays(offers@, *requested, i + 1, offers@.len() as int);
            }
            return Some(offers[i].id);
        }
        i += 1;
    }
    None
}

/// The first offer among some is the first among more.
pub proof fn lemma_first_offer_stays(offers: Seq<ModeOffer>, requested: Mode, upto: int, later: int)
    requires
        0 <= upto <= later,
        first_offer(offers, requested, upto).is_some(),
    ensures
        first_offer(offers, requested, later) == first_offer(offers, requested, upto),
    decreases later,
{
    if upto < later {
        lemma_first_offer_stays(offers, requested, upto, later - 1);
    }
}

/// What a CRTC can do: the outputs that it can drive, and the rotations
/// that it can show, as the bits of a RandR rotation.
#[derive(Debug)]
pub struct CrtcOffer {
    pub possible: Vec<u32>,
    pub rotations: u16,
}

/// What an enabled output is to show: its place, its mode and its
/// rotation, with the CRTC that drives it now, if one does, by its index
/// among the CRTCs.
#[derive(Clone, Copy, Debug, PartialEq, Eq, Structural)]
pub struct EnabledOutputConfiguration {
    pub output: u32,
    pub bottom_left: Vec2d<i16>,
    pub mode: u32,
    pub rotation: u16,
    pub current_crtc: Option<usize>,
}

/// The CRTC can drive the output of the configuration, in its rotation.
pub open spec fn can_allocate(crtc: &CrtcOffer, config: EnabledOutputConfiguration) -> bool {
    crtc.possible@.contains(config.output) && has_flag(crtc.rotations, config.rotation)
}

/// The configuration `k` has a CRTC in the allocation.
pub open spec fn is_placed(allocation: Seq<Option<usize>>, k: int) -> bool {
    exists|c: int| 0 <= c < allocation.len() && #[trigger] allocation[c] == Some(k as usize)
}

/// The allocation once the configuration `k` has kept the CRTC that
/// drives its output now, which it does where that CRTC is free and can
/// drive it as configured.
pub open spec fn keep_step(
    crtcs: Seq<CrtcOffer>,
    configs: Seq<EnabledOutputConfiguration>,
    allocation: Seq<Option<usize>>,
    k: int,
) -> Seq<Option<usize>> {
    match configs[k].current_crtc {
        Some(c) => if c < crtcs.len() && allocation[c as int].is_none() && can_allocate(&crtcs[c as int], configs[k]) {
            allocation.update(c as int, Some(k as usize))
        } else {
            allocation
        },
        None => allocation,
    }
}

/// The allocation once each of the first `upto` configurations has kept
/// its CRTC where it can.
pub open spec fn kept_upto(crtcs: Seq<CrtcOffer>, configs: Seq<EnabledOutputConfiguration>, upto: int) -> Seq<
    Option<usize>,
>
    decreases upto,
{
    if upto <= 0 {
        Seq::new(crtcs.len(), |c: int| None)
    } else {
        keep_step(crtcs, configs, kept_upto(crtcs, configs, upto - 1), upto - 1)
    }
}

/// The first of the first `upto` CRTCs that is free and can drive the
/// output of `config` as configured.
pub open spec fn first_free(
    crtcs: Seq<CrtcOffer>,
    config: EnabledOutputConfiguration,
    allocation: Seq<Option<usize>>,
    upto: int,
) -> Option<int>
    decreases upto,
{
    if upto <= 0 {
        None
    } else {
        match first_free(crtcs, config, allocation, upto - 1) {
            Some(c) => Some(c),
            None => if allocation[upto - 1].is_none() && can_allocate(&crtcs[upto - 1], config) {
                Some(upto - 1)
            } else {
                None
            },
        }
    }
}

/// The allocation once each of the first `upto` configurations has a
/// CRTC: the one that it kept, or else the first that is free and can
/// drive it. `Err(k)` says that the configuration `k` is the first for
/// which there is none.
pub open spec fn filled_upto(crtcs: Seq<CrtcOffer>, configs: Seq<EnabledOutputConfiguration>, upto: int) -> Result<
    Seq<Option<usize>>,
    usize,
>
    decreases upto,
{
    if upto <= 0 {
        Ok(kept_upto(crtcs, configs, configs.len() as int))
    } else {
        match filled_upto(crtcs, configs, upto - 1) {
            Ok(allocation) => if is_placed(allocation, upto - 1) {
                Ok(allocation)
            } else {
                match first_free(crtcs, configs[upto - 1], allocation, crtcs.len() as int) {
                    Some(c) => Ok(allocation.update(c, Some((upto - 1) as usize))),
                    None => Err((upto - 1) as usize),
                }
            },
            Err(k) => Err(k),
        }
    }
}

/// The allocation gives each of the first `upto` configurations one CRTC,
/// no CRTC to two of them, and to each a CRTC that can drive it as
/// configured.
pub open spec fn allocation_valid(
    crtcs: Seq<CrtcOffer>,
    configs: Seq<EnabledOutputConfiguration>,
    allocation: Seq<Option<usize>>,
    upto: int,
) -> bool {
    &&& allocation.len() == crtcs.len()
    &&& forall|c: int|
        0 <= c < allocation.len() && (#[trigger] allocation[c]).is_some() ==> allocation[c].unwrap() < configs.len()
            && can_allocate(&crtcs[c], configs[allocation[c].unwrap() as int])
    &&& forall|c: int, d: int|
        0 <= c < d < allocation.len() && (#[trigger] allocation[c]).is_some() ==> allocation[c]
            != #[trigger] allocation[d]
    &&& forall|k: int| 0 <= k < upto ==> #[trigger] is_placed(allocation, k)
}

/// Whether the CRTC can drive the output of the configuration, in its
/// rotation.
fn check_can_allocate(crtc: &CrtcOffer, config: &EnabledOutputConfiguration) -> (res: bool)
    ensures
        res == can_allocate(crtc, *config),
{
    if crtc.rotations & config.rotation != config.rotation {
        return false;
    }
    let mut i: usize = 0;
    while i < crtc.possible.len()
        invariant
            i <= crtc.possible@.len(),
            has_flag(crtc.rotations, config.rotation),
            forall|j: int| 0 <= j < i ==> crtc.possible@[j] != config.output,
        decreases crtc.possible@.len() - i,
    {
        if crtc.possible[i] == config.output {
            assert(crtc.possible@.contains(config.output));
            return true;
        }
        i += 1;
    }
    false
}

/// Gives each enabled output a CRTC. An output keeps the CRTC that drives
/// it now where that CRTC is free and can drive it as configured, so that
/// its picture does not blink; the others get the first CRTC that is free
/// and can drive them. The result says for each CRTC which configuration
/// it gets, by its index, and `Err(k)` that there is no CRTC for the
/// configuration `k`.
pub fn allocate_crtcs(crtcs: &[CrtcOffer], enabled_outputs: &[EnabledOutputConfiguration]) -> (res: Result<
    Vec<Option<usize>>,
    usize,
>)
    ensures
        match res {
            Ok(allocation) => filled_upto(crtcs@, enabled_outputs@, enabled_outputs@.len() as int) == Ok::<
                Seq<Option<usize>>,
                usize,
            >(allocation@),
            Err(k) => filled_upto(crtcs@, enabled_outputs@, enabled_outputs@.len() as int) == Err::<
                Seq<Option<usize>>,
                usize,
            >(k),
        },
{
    let n = enabled_outputs.len();
    let mut output_by_crtc: Vec<Option<usize>> = Vec::new();
    let mut c: usize = 0;
    while c < crtcs.len()
        invariant
            c <= crtcs@.len(),
            output_by_crtc@.len() == c,
            forall|d: int| 0 <= d < c ==> (#[trigger] output_by_crtc@[d]).is_none(),
        decreases crtcs@.len() - c,
    {
        output_by_crtc.push(None);
        c += 1;
    }
    let mut placed: Vec<bool> = Vec::new();
    let mut k: usize = 0;
    while k < n
        invariant
            k <= n,
            placed@.len() == k,
            forall|j: int| 0 <= j < k ==> !#[trigger] placed@[j],
        decreases n - k,
    {
        placed.push(false);
        k += 1;
    }
    assert(output_by_crtc@ =~= kept_upto(crtcs@, enabled_outputs@, 0));
    // For already enabled outputs, see if we can keep the same CRTC.
    let mut k: usize = 0;
    while k < n
        invariant
            k <= n,
            n == enabled_outputs@.len(),
            placed@.len() == n,
            output_by_crtc@.len() == crtcs@.len(),
            output_by_crtc@ == kept_upto(crtcs@, enabled_outputs@, k as int),
            forall|j: int| 0 <= j < n ==> #[trigger] placed@[j] == is_placed(output_by_crtc@, j),
            forall|d: int|
                0 <= d < output_by_crtc@.len() && (#[trigger] output_by_crtc@[d]).is_some()
                    ==> output_by_crtc@[d].unwrap() < k,
        decreases n - k,
    {
        let config = enabled_outputs[k];
        match config.current_crtc {
            Some(crtc) => {
                if crtc < crtcs.len() && output_by_crtc[crtc].is_none() && check_can_allocate(&crtcs[crtc], &config) {
                    let ghost before = output_by_crtc@;
                    output_by_crtc[crtc] = Some(k);
                    placed[k] = true;
                    proof {
                        assert(output_by_crtc@[crtc as int] == Some(k));
                        assert forall|j: int| 0 <= j < n implies #[trigger] placed@[j] == is_placed(
                            output_by_crtc@,
                            j,
                        ) by {
                            if j != k {
                                if is_placed(before, j) {
                                    let d = choose|d: int| 0 <= d < before.len() && #[trigger] before[d] == Some(j as usize);
                                    assert(output_by_crtc@[d] == Some(j as usize));
                                }
                                if is_placed(output_by_crtc@, j) {
                                    let d = choose|d: int|
                                        0 <= d < output_by_crtc@.len() && #[trigger] output_by_crtc@[d] == Some(
                                            j as usize,
                                        );
                                    assert(before[d] == Some(j as usize));
                                }
                            }
                        }
                    }
                }
            },
            None => {},
        }
        k += 1;
    }
    // Find a CRTC for all remaining requested outputs.
    let mut k: usize = 0;
    while k < n
        invariant
            k <= n,
            n == enabled_outputs@.len(),
            placed@.len() == n,
            output_by_crtc@.len() == crtcs@.len(),
            filled_upto(crtcs@, enabled_outputs@, k as int) == Ok::<Seq<Option<usize>>, usize>(output_by_crtc@),
            forall|j: int| 0 <= j < n ==> #[trigger] placed@[j] == is_placed(output_by_crtc@, j),
        decreases n - k,
    {
        if !placed[k] {
            let config = enabled_outputs[k];
            let mut found: Option<usize> = None;
            let mut c: usize = 0;
            while c < crtcs.len()
                invariant_except_break
                    c <= crtcs@.len(),
                    found.is_none(),
                    first_free(crtcs@, config, output_by_crtc@, c as int).is_none(),
                invariant
                    output_by_crtc@.len() == crtcs@.len(),
                ensures
                    match found {
                        Some(f) => first_free(crtcs@, config, output_by_crtc@, crtcs@.len() as int) == Some(f as int)
                            && f < crtcs@.len() && output_by_crtc@[f as int].is_none(),
                        None => first_free(crtcs@, config, output_by_crtc@, crtcs@.len() as int).is_none(),
                    },
                decreases crtcs@.len() - c,
            {
                if output_by_crtc[c].is_none() && check_can_allocate(&crtcs[c], &config) {
                    found = Some(c);
                    proof {
                        lemma_first_free_stays(crtcs@, config, output_by_crtc@, c + 1, crtcs@.len() as int);
                    }
                    break;
                }
                c += 1;
            }
            match found {
                Some(crtc) => {
                    let ghost before = output_by_crtc@;
                    output_by_crtc[crtc] = Some(k);
                    placed[k] = true;
                    proof {
                        assert(output_by_crtc@[crtc as int] == Some(k));
                        assert forall|j: int| 0 <= j < n implies #[trigger] placed@[j] == is_placed(
                            output_by_crtc@,
                            j,
                        ) by {
                            if j != k {
                                if is_placed(before, j) {
                                    let d = choose|d: int| 0 <= d < before.len() && #[trigger] before[d] == Some(j as usize);
                                    assert(output_by_crtc@[d] == Some(j as usize));
                                }
                                if is_placed(output_by_crtc@, j) {
                                    let d = choose|d: int|
                                        0 <= d < output_by_crtc@.len() && #[trigger] output_by_crtc@[d] == Some(
                                            j as usize,
                                        );
                                    assert(before[d] == Some(j as usize));
                                }
                            }
                        }
                    }
                },
                None => {
                    proof {
                        lemma_filled_stays_failed(crtcs@, enabled_outputs@, k + 1, n as int);
                    }
                    return Err(k);
                },
            }
        }
        k += 1;
    }
    Ok(output_by_crtc)
}

/// The first free CRTC among some is the first among more.
pub proof fn lemma_first_free_stays(
    crtcs: Seq<CrtcOffer>,
    config: EnabledOutputConfiguration,
    allocation: Seq<Option<usize>>,
    upto: int,
    later: int,
)
    requires
        0 <= upto <= later,
        first_free(crtcs, config, allocation, upto).is_some(),
    ensures
        first_free(crtcs, config, allocation, later) == first_free(crtcs, config, allocation, upto),
    decreases later,
{
    if upto < later {
        lemma_first_free_stays(crtcs, config, allocation, upto, later - 1);
    }
}

/// Once a configuration has found no CRTC, the allocation has failed for
/// good.
pub proof fn lemma_filled_stays_failed(
    crtcs: Seq<CrtcOffer>,
    configs: Seq<EnabledOutputConfiguration>,
    upto: int,
    later: int,
)
    requires
        0 <= upto <= later,
        filled_upto(crtcs, configs, upto).is_err(),
    ensures
        filled_upto(crtcs, configs, later) == filled_upto(crtcs, configs, upto),
    decreases later,
{
    if upto < later {
        lemma_filled_stays_failed(crtcs, configs, upto, later - 1);
    }
}

/// The first free CRTC is free, and can drive the output as configured.
pub proof fn lemma_first_free(
    crtcs: Seq<CrtcOffer>,
    config: EnabledOutputConfiguration,
    allocation: Seq<Option<usize>>,
    upto: int,
)
    requires
        first_free(crtcs, config, allocation, upto).is_some(),
    ensures
        0 <= first_free(crtcs, config, allocation, upto).unwrap() < upto,
        allocation[first_free(crtcs, config, allocation, upto).unwrap()].is_none(),
        can_allocate(&crtcs[first_free(crtcs, config, allocation, upto).unwrap()], config),
    decreases upto,
{
    if upto > 0 && first_free(crtcs, config, allocation, upto - 1).is_some() {
        lemma_first_free(crtcs, config, allocation, upto - 1);
    }
}

/// What the configurations keep is a valid allocation, of configurations
/// among the first `upto`.
proof fn lemma_kept_valid(crtcs: Seq<CrtcOffer>, configs: Seq<EnabledOutputConfiguration>, upto: int)
    requires
        0 <= upto <= configs.len(),
        configs.len() <= usize::MAX,
    ensures
        allocation_valid(crtcs, configs, kept_upto(crtcs, configs, upto), 0),
        forall|c: int|
            0 <= c < crtcs.len() && (#[trigger] kept_upto(crtcs, configs, upto)[c]).is_some() ==> kept_upto(
                crtcs,
                configs,
                upto,
            )[c].unwrap() < upto,
    decreases upto,
{
    if upto > 0 {
        lemma_kept_valid(crtcs, configs, upto - 1);
        let before = kept_upto(crtcs, configs, upto - 1);
        let after = kept_upto(crtcs, configs, upto);
        assert forall|c: int, d: int| 0 <= c < d < after.len() && (#[trigger] after[c]).is_some() implies after[c]
            != #[trigger] after[d] by {
            if before[c].is_some() && before[d].is_some() {
                assert(before[c] != before[d]);
            }
        }
    }
}

/// An allocation is valid: each configuration has one CRTC, which can
/// drive its output in its rotation, and no CRTC has two configurations.
pub proof fn lemma_allocation_valid(crtcs: Seq<CrtcOffer>, configs: Seq<EnabledOutputConfiguration>, upto: int)
    requires
        0 <= upto <= configs.len(),
        configs.len() <= usize::MAX,
        filled_upto(crtcs, configs, upto).is_ok(),
    ensures
        allocation_valid(crtcs, configs, filled_upto(crtcs, configs, upto).unwrap(), upto),
    decreases upto,
{
    if upto <= 0 {
        lemma_kept_valid(crtcs, configs, configs.len() as int);
    } else {
        lemma_allocation_valid(crtcs, configs, upto - 1);
        let before = filled_upto(crtcs, configs, upto - 1).unwrap();
        let after = filled_upto(crtcs, configs, upto).unwrap();
        let k = upto - 1;
        if !is_placed(before, k) {
            let c = first_free(crtcs, configs[k], before, crtcs.len() as int).unwrap();
            lemma_first_free(crtcs, configs[k], before, crtcs.len() as int);
            assert(after == before.update(c, Some(k as usize)));
            assert forall|a: int, b: int| 0 <= a < b < after.len() && (#[trigger] after[a]).is_some() implies after[a]
                != #[trigger] after[b] by {
                if a != c && b != c {
                    assert(before[a] != before[b]);
                } else if a == c {
                    if before[b] == Some(k as usize) {
                        assert(is_placed(before, k));
                    }
                } else {
                    if before[a] == Some(k as usize) {
                        assert(is_placed(before, k));
                    }
                }
            }
            assert forall|j: int| 0 <= j < upto implies #[trigger] is_placed(after, j) by {
                if j == k {
                    assert(after[c] == Some(k as usize));
                } else {
                    assert(is_placed(before, j));
                    let d = choose|d: int| 0 <= d < before.len() && #[trigger] before[d] == Some(j as usize);
                    assert(after[d] == Some(j as usize));
                }
            }
        }
    }
}

/// What identifies an output: its EDID where it has one, its name else.
pub fn output_id_of(edid: Option<Edid>, name: String) -> (res: OutputId)
    ensures
        res@ == (match edid {
            Some(edid) => OutputIdView::Edid(edid@),
            None => OutputIdView::Name(name@),
        }),
{
    match edid {
        Some(edid) => OutputId::Edid(edid),
        None => OutputId::Name(name),
    }
}

/// What an output shows: nothing where no CRTC drives it in a mode that
/// is known, and else that mode at the place of the CRTC, under the
/// transform that the rotation of the CRTC stands for.
pub fn output_state_of(mode: Option<Mode>, rotation: u16, x: i16, y: i16) -> (res: OutputState)
    ensures
        res == (match mode {
            Some(mode) => OutputState::Enabled {
                mode,
                transform: spec_transform_of(rotation),
                bottom_left: Vec2d { x: x as i32, y: y as i32 },
            },
            None => OutputState::Disabled,
        }),
{
    match mode {
        Some(mode) => OutputState::Enabled {
            mode,
            transform: transform_of(rotation),
            bottom_left: Vec2d { x: x as i32, y: y as i32 },
        },
        None => OutputState::Disabled,
    }
}

/// The size of a screen: in pixels, and in millimetres as the display
/// server wants it told.
#[derive(Clone, Copy, Debug, PartialEq, Eq, Structural)]
pub struct ScreenSize {
    pub pixel: Vec2d<u16>,
    pub physical: Vec2d<u32>,
}

/// The enabled outputs as the density of the screen needs them: the mode
/// of each with its size in millimetres.
pub open spec fn screen_extents(modes: Seq<Mode>, millimetres: Seq<Vec2d<u32>>) -> Seq<OutputExtent> {
    Seq::new(modes.len(), |k: int| OutputExtent { pixels: modes[k].size, millimetres: millimetres[k] })
}

/// The size of the screen that holds the layout: the size in pixels of
/// the rectangle that holds all the enabled outputs, and the size in
/// millimetres that the density of those outputs gives it. `millimetres`
/// holds the size of each enabled output, in the order of the entries.
/// `None` says that the screen would be wider or higher than 65535
/// pixels.
pub fn target_layout_screen_size(layout: &Layout, millimetres: &[Vec2d<u32>]) -> (res: Option<ScreenSize>)
    requires
        layout.wf(),
        millimetres@.len() == enabled_modes(layout@.outputs).len(),
        millimetres@.len() <= u32::MAX,
    ensures
        res.is_some() == (bounding_size(layout@.outputs).x <= u16::MAX && bounding_size(layout@.outputs).y
            <= u16::MAX),
        match res {
            Some(size) => {
                let extents = screen_extents(enabled_modes(layout@.outputs), millimetres@);
                &&& size.pixel.x == bounding_size(layout@.outputs).x
                &&& size.pixel.y == bounding_size(layout@.outputs).y
                &&& size.physical.x == spec_physical_length(size.pixel.x, extents)
                &&& size.physical.y == spec_physical_length(size.pixel.y, extents)
            },
            None => true,
        },
{
    let bounds = layout.bounding_rect_size();
    if bounds.x > u16::MAX as u32 || bounds.y > u16::MAX as u32 {
        return None;
    }
    let pixel = Vec2d { x: bounds.x as u16, y: bounds.y as u16 };
    let states = layout.enabled_states();
    let mut extents: Vec<OutputExtent> = Vec::new();
    let mut k: usize = 0;
    while k < states.len()
        invariant
            k <= states@.len(),
            states@.len() == millimetres@.len(),
            states@.len() == enabled_modes(layout@.outputs).len(),
            forall|j: int| 0 <= j < states@.len() ==> (#[trigger] states@[j]).0 == enabled_modes(layout@.outputs)[j],
            extents@.len() == k,
            forall|j: int|
                0 <= j < k ==> #[trigger] extents@[j] == (OutputExtent {
                    pixels: enabled_modes(layout@.outputs)[j].size,
                    millimetres: millimetres@[j],
                }),
        decreases states@.len() - k,
    {
        extents.push(OutputExtent { pixels: states[k].0.size, millimetres: millimetres[k] });
        k += 1;
    }
    assert(extents@ =~= screen_extents(enabled_modes(layout@.outputs), millimetres@));
    let physical = Vec2d {
        x: physical_length(pixel.x, extents.as_slice()),
        y: physical_length(pixel.y, extents.as_slice()),
    };
    Some(ScreenSize { pixel, physical })
}

/// An output that a layout enables, as the display server knows it: its
/// identifier, the modes that it offers, and the CRTC that drives it now,
/// if one does.
#[derive(Debug)]
pub struct ConnectedOutput {
    pub output: u32,
    pub offers: Vec<ModeOffer>,
    pub current_crtc: Option<usize>,
}

/// Why an output cannot be configured as a layout asks.
#[derive(Clone, Copy, Debug, PartialEq, Eq, Structural)]
pub enum ConfigurationFault {
    /// The output does not offer the mode.
    NoMatchingMode,
    /// The place of the output is beyond what the display server can be
    /// told.
    CoordinateOverflow,
}

/// The enabled output of the index `output` cannot be configured.
#[derive(Clone, Copy, Debug, PartialEq, Eq, Structural)]
pub struct ConfigurationError {
    pub output: usize,
    pub fault: ConfigurationFault,
}

/// The configuration of an output that is to show `mode` under
/// `transform` at `corner`: the identifier under which it offers the mode,
/// the RandR rotation of the transform, and the place.
pub open spec fn spec_output_config(mode: Mode, transform: Transform, corner: Vec2d<i32>, connected: &ConnectedOutput)
    -> Result<EnabledOutputConfiguration, ConfigurationFault> {
    match first_offer(connected.offers@, mode, connected.offers@.len() as int) {
        None => Err(ConfigurationFault::NoMatchingMode),
        Some(i) => if i16::MIN <= corner.x <= i16::MAX && i16::MIN <= corner.y <= i16::MAX {
            Ok(
                EnabledOutputConfiguration {
                    output: connected.output,
                    bottom_left: Vec2d { x: corner.x as i16, y: corner.y as i16 },
                    mode: connected.offers@[i].id,
                    rotation: spec_rotation_bits(transform),
                    current_crtc: connected.current_crtc,
                },
            )
        } else {
            Err(ConfigurationFault::CoordinateOverflow)
        },
    }
}

/// The configuration of the enabled output `k` of the entries, for what
/// the display server knows of it.
pub open spec fn config_at(entries: Seq<OutputEntryView>, outputs: Seq<ConnectedOutput>, k: int) -> Result<
    EnabledOutputConfiguration,
    ConfigurationFault,
> {
    spec_output_config(
        enabled_modes(entries)[k],
        enabled_transforms(entries)[k],
        enabled_corners(entries)[k],
        &outputs[k],
    )
}

/// The configurations of the enabled outputs of a layout, in the order of
/// the entries. `outputs` holds what the display server knows of each
/// enabled output, in the same order. The first output that cannot be
/// configured fails the whole.
pub fn compute_enabled_output_configs(layout: &Layout, outputs: &[ConnectedOutput]) -> (res: Result<
    Vec<EnabledOutputConfiguration>,
    ConfigurationError,
>)
    requires
        outputs@.len() == enabled_modes(layout@.outputs).len(),
    ensures
        match res {
            Ok(configs) => {
                &&& configs@.len() == outputs@.len()
                &&& forall|k: int|
                    0 <= k < configs@.len() ==> #[trigger] config_at(layout@.outputs, outputs@, k) == Ok::<
                        EnabledOutputConfiguration,
                        ConfigurationFault,
                    >(configs@[k])
            },
            Err(e) => {
                &&& e.output < outputs@.len()
                &&& config_at(layout@.outputs, outputs@, e.output as int) == Err::<
                    EnabledOutputConfiguration,
                    ConfigurationFault,
                >(e.fault)
                &&& forall|k: int| 0 <= k < e.output ==> (#[trigger] config_at(layout@.outputs, outputs@, k)).is_ok()
            },
        },
{
    let states = layout.enabled_states();
    let mut configs: Vec<EnabledOutputConfiguration> = Vec::new();
    let mut k: usize = 0;
    while k < states.len()
        invariant
            k <= states@.len(),
            states@.len() == outputs@.len(),
            states@.len() == enabled_modes(layout@.outputs).len(),
            forall|j: int|
                0 <= j < states@.len() ==> (#[trigger] states@[j]).0 == enabled_modes(layout@.outputs)[j]
                    && states@[j].1 == enabled_transforms(layout@.outputs)[j] && states@[j].2 == enabled_corners(
                    layout@.outputs,
                )[j],
            configs@.len() == k,
            forall|j: int|
                0 <= j < k ==> #[trigger] config_at(layout@.outputs, outputs@, j) == Ok::<
                    EnabledOutputConfiguration,
                    ConfigurationFault,
                >(configs@[j]),
        decreases states@.len() - k,
    {
        let (mode, transform, corner) = states[k];
        assert(mode == states@[k as int].0 && transform == states@[k as int].1 && corner == states@[k as int].2);
        let connected = &outputs[k];
        let mode_id = match matching_mode(connected.offers.as_slice(), &mode) {
            Some(mode_id) => mode_id,
            None => {
                return Err(ConfigurationError { output: k, fault: ConfigurationFault::NoMatchingMode });
            },
        };
        if corner.x < i16::MIN as i32 || corner.x > i16::MAX as i32 || corner.y < i16::MIN as i32 || corner.y
            > i16::MAX as i32 {
            return Err(ConfigurationError { output: k, fault: ConfigurationFault::CoordinateOverflow });
        }
        configs.push(
            EnabledOutputConfiguration {
                output: connected.output,
                bottom_left: Vec2d { x: corner.x as i16, y: corner.y as i16 },
                mode: mode_id,
                rotation: rotation_bits(&transform),
                current_crtc: connected.current_crtc,
            },
        );
        k += 1;
    }
    Ok(configs)
}

/// A connected output as the display server shows it: its EDID, if it has
/// one that can be read, its name, and the mode, rotation and place of the
/// CRTC that drives it, in a mode that is known, if one does.
#[derive(Debug)]
pub struct ObservedOutput {
    pub edid: Option<Edid>,
    pub name: String,
    pub mode: Option<Mode>,
    pub rotation: u16,
    pub x: i16,
    pub y: i16,
}

impl ObservedOutput {
    /// The entry that the output makes in a layout.
    pub open spec fn entry(&self) -> OutputEntryView {
        OutputEntryView {
            id: match self.edid {
                Some(edid) => OutputIdView::Edid(edid@),
                None => OutputIdView::Name(self.name@),
            },
            state: match self.mode {
                Some(mode) => OutputState::Enabled {
                    mode,
                    transform: spec_transform_of(self.rotation),
                    bottom_left: Vec2d { x: self.x as i32, y: self.y as i32 },
                },
                None => OutputState::Disabled,
            },
        }
    }
}

/// The entries that the outputs make.
pub open spec fn observed_entries(outputs: Seq<ObservedOutput>) -> Seq<OutputEntryView> {
    Seq::new(outputs.len(), |i: int| outputs[i].entry())
}

/// The layout of the connected outputs `outputs`, with what makes it
/// unsupported: what validation finds, and clones where the display
/// server reports some. `primary` is the index of the primary output, if
/// there is one. `None` says that the outputs are too many to be a
/// layout, or that a mode is too large.
pub fn convert_to_layout(outputs: &[ObservedOutput], primary: Option<usize>, clones: bool) -> (res: Option<
    LayoutInfo,
>)
    ensures
        res.is_some() == (placement_fits(observed_entries(outputs@)) && pair_count(outputs@.len()) <= usize::MAX),
        match res {
            Some(info) => {
                &&& info.layout.wf()
                &&& info.layout@.outputs == layout_entries(observed_entries(outputs@))
                &&& info.layout@.primary == (match primary {
                    Some(i) => if i < outputs@.len() {
                        Some(outputs@[i as int].entry().id)
                    } else {
                        None
                    },
                    None => None,
                })
                &&& info.unsupported_causes == (UnsupportedCauses {
                    clones,
                    ..spec_unsupported_causes(info.layout@.outputs)
                })
            },
            None => true,
        },
{
    let mut entries: Vec<OutputEntry> = Vec::new();
    let mut i: usize = 0;
    while i < outputs.len()
        invariant
            i <= outputs@.len(),
            entries@.len() == i,
            forall|j: int| 0 <= j < i ==> (#[trigger] entries@[j])@ == outputs@[j].entry(),
        decreases outputs@.len() - i,
    {
        let output = &outputs[i];
        entries.push(
            OutputEntry {
                id: output_id_of(output.edid, output.name.clone()),
                state: output_state_of(output.mode, output.rotation, output.x, output.y),
            },
        );
        i += 1;
    }
    assert(entry_views(entries@) =~= observed_entries(outputs@));
    let primary_id = match primary {
        Some(i) => if i < outputs.len() {
            Some(output_id_of(outputs[i].edid, outputs[i].name.clone()))
        } else {
            None
        },
        None => None,
    };
    match LayoutInfo::checked_from(entries, primary_id) {
        Some(info) => {
            let LayoutInfo { layout, unsupported_causes } = info;
            Some(
                LayoutInfo {
                    layout,
                    unsupported_causes: UnsupportedCauses {
                        overlaps: unsupported_causes.overlaps,
                        gaps: unsupported_causes.gaps,
                        duplicate_edid: unsupported_causes.duplicate_edid,
                        clones,
                    },
                },
            )
        },
        None => None,
    }
}

} // verus!
