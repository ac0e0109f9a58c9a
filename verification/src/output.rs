//! Outputs: what identifies them, their modes and states, and the order in
//! which a layout holds them.

use crate::geometry::{Rect, Rotation, Transform, Vec2d};
use vstd::prelude::*;
use vstd::std_specs::cmp::PartialEqSpecImpl;
use vstd::std_specs::convert::{FromSpec, FromSpecImpl, TryFromSpecImpl};
use vstd::std_specs::iter::IteratorSpec;

verus! {


broadcast use vstd::string::group_string_axioms;

/// `a` comes before `b` in the order of strings: at the first place where
/// the two differ `a` has the lower character, or `a` ends there and `b`
/// does not.
pub open spec fn chars_precede(a: Seq<char>, b: Seq<char>) -> bool
    decreases a.len(),
{
    if b.len() == 0 {
        false
    } else if a.len() == 0 {
        true
    } else if a[0] != b[0] {
        (a[0] as u32) < (b[0] as u32)
    } else {
        chars_precede(a.drop_first(), b.drop_first())
    }
}

/// Whether the string `a` comes before the string `b`.
pub fn str_precedes(a: &str, b: &str) -> (res: bool)
    ensures
        res == chars_precede(a@, b@),
{
    let mut rest_a = a.chars();
    let mut rest_b = b.chars();
    loop
        invariant
            chars_precede(a@, b@) == chars_precede(rest_a.remaining(), rest_b.remaining()),
            rest_a.decrease() is Some,
        decreases rest_a.decrease().unwrap(),
    {
        let next_b = rest_b.next();
        let next_a = rest_a.next();
        match next_b {
            None => {
                return false;
            },
            Some(cb) => match next_a {
                None => {
                    return true;
                },
                Some(ca) => {
                    if ca != cb {
                        return (ca as u32) < (cb as u32);
                    }
                },
            },
        }
    }
}

/// The bytes read as one number, the first byte the most significant.
pub open spec fn big_endian(bytes: Seq<u8>) -> nat
    decreases bytes.len(),
{
    if bytes.len() == 0 {
        0
    } else {
        big_endian(bytes.drop_last()) * 256 + bytes.last() as nat
    }
}

/// The eight bytes that every EDID block starts with.
pub open spec fn edid_header() -> Seq<u8> {
    seq![0x00u8, 0xFFu8, 0xFFu8, 0xFFu8, 0xFFu8, 0xFFu8, 0xFFu8, 0x00u8]
}

/// Identifier of a monitor input: the manufacturer and serial bytes of its
/// EDID block, as one number. It is taken to be unique.
#[derive(Clone, Copy, Debug, PartialEq, Eq, PartialOrd, Ord, Hash, Structural)]
pub struct Edid(u64);

impl View for Edid {
    type V = u64;

    closed spec fn view(&self) -> u64 {
        self.0
    }
}

impl Edid {
    /// The identifier as a number.
    pub fn value(&self) -> (res: u64)
        ensures
            res == self@,
    {
        self.0
    }

    /// What reading the block `bytes` gives: the bytes 8 to 15 as a
    /// big-endian number, where the block has them and starts with the
    /// header.
    pub open spec fn spec_try_from(bytes: Seq<u8>) -> Result<u64, &'static str> {
        if bytes.len() < 16 {
            Err("Edid: bad length")
        } else if bytes.subrange(0, 8) != edid_header() {
            Err("Edid: missing constant header pattern")
        } else {
            Ok(big_endian(bytes.subrange(8, 16)) as u64)
        }
    }
}

impl From<u64> for Edid {
    fn from(raw: u64) -> (res: Edid) {
        Edid(raw)
    }
}

impl FromSpecImpl<u64> for Edid {
    open spec fn obeys_from_spec() -> bool {
        true
    }

    closed spec fn from_spec(raw: u64) -> Edid {
        Edid(raw)
    }
}

/// An identifier made from a number has that number.
pub proof fn lemma_edid_from_value(raw: u64)
    ensures
        <Edid as FromSpec<u64>>::from_spec(raw)@ == raw,
{
}

impl<'a> TryFrom<&'a [u8]> for Edid {
    type Error = &'static str;

    /// Reads the identifier from an EDID block.
    fn try_from(edid_entry_bytes: &'a [u8]) -> (res: Result<Edid, &'static str>)
        ensures
            match Edid::spec_try_from(edid_entry_bytes@) {
                Ok(v) => res.is_ok() && res.unwrap()@ == v,
                Err(e) => res == Err::<Edid, &'static str>(e),
            },
    {
        if edid_entry_bytes.len() < 16 {
            return Err("Edid: bad length");
        }
        let header: [u8; 8] = [0x00, 0xFF, 0xFF, 0xFF, 0xFF, 0xFF, 0xFF, 0x00];
        let mut i: usize = 0;
        while i < 8
            invariant
                i <= 8,
                edid_entry_bytes@.len() >= 16,
                header@ == edid_header(),
                forall|j: int| 0 <= j < i ==> edid_entry_bytes@[j] == edid_header()[j],
            decreases 8 - i,
        {
            if edid_entry_bytes[i] != header[i] {
                assert(edid_entry_bytes@.subrange(0, 8)[i as int] != edid_header()[i as int]);
                return Err("Edid: missing constant header pattern");
            }
            i += 1;
        }
        assert(edid_entry_bytes@.subrange(0, 8) =~= edid_header());
        let ghost id_bytes = edid_entry_bytes@.subrange(8, 16);
        let mut value: u64 = 0;
        let mut k: usize = 0;
        while k < 8
            invariant
                k <= 8,
                edid_entry_bytes@.len() >= 16,
                id_bytes == edid_entry_bytes@.subrange(8, 16),
                value == big_endian(id_bytes.subrange(0, k as int)),
                value < pow256(k as nat),
            decreases 8 - k,
        {
            let byte = edid_entry_bytes[8 + k];
            proof {
                let upto = id_bytes.subrange(0, k + 1);
                assert(upto.drop_last() =~= id_bytes.subrange(0, k as int));
                assert(upto.last() == byte);
                lemma_pow256(k as nat);
            }
            value = value * 256 + byte as u64;
            k += 1;
        }
        assert(id_bytes.subrange(0, 8) =~= id_bytes);
        Ok(Edid(value))
    }
}

impl<'a> TryFromSpecImpl<&'a [u8]> for Edid {
    open spec fn obeys_try_from_spec() -> bool {
        true
    }

    closed spec fn try_from_spec(v: &'a [u8]) -> Result<Edid, &'static str> {
        match Edid::spec_try_from(v@) {
            Ok(value) => Ok(Edid(value)),
            Err(e) => Err(e),
        }
    }
}

/// `256` to the power `k`.
pub open spec fn pow256(k: nat) -> nat
    decreases k,
{
    if k == 0 {
        1
    } else {
        256 * pow256((k - 1) as nat)
    }
}

proof fn lemma_pow256(k: nat)
    requires
        k < 8,
    ensures
        pow256(k + 1) == 256 * pow256(k),
        pow256(k + 1) <= 0x1_0000_0000_0000_0000,
        pow256(k) >= 1,
{
    reveal_with_fuel(pow256, 10);
}

/// A resolution in pixels and a refresh rate in Hz, rounded.
#[derive(Clone, Copy, Debug, PartialEq, Eq, Structural)]
pub struct Mode {
    pub size: Vec2d<u32>,
    pub frequency: u32,
}

/// What identifies an output, as the contracts see it.
pub enum OutputIdView {
    Edid(u64),
    Name(Seq<char>),
}

/// What identifies an output: its EDID where it has one, its name else.
#[derive(Debug, Hash)]
pub enum OutputId {
    Edid(Edid),
    Name(String),
}

impl View for OutputId {
    type V = OutputIdView;

    open spec fn view(&self) -> OutputIdView {
        match self {
            OutputId::Edid(edid) => OutputIdView::Edid(edid@),
            OutputId::Name(name) => OutputIdView::Name(name@),
        }
    }
}

impl OutputIdView {
    /// The order of identifiers: those by EDID first, by their number, then
    /// those by name, in the order of strings.
    pub open spec fn precedes(self, other: OutputIdView) -> bool {
        match (self, other) {
            (OutputIdView::Edid(a), OutputIdView::Edid(b)) => a < b,
            (OutputIdView::Edid(_), OutputIdView::Name(_)) => true,
            (OutputIdView::Name(_), OutputIdView::Edid(_)) => false,
            (OutputIdView::Name(a), OutputIdView::Name(b)) => chars_precede(a, b),
        }
    }
}

impl Clone for OutputId {
    fn clone(&self) -> (res: OutputId)
        ensures
            res@ == self@,
    {
        match self {
            OutputId::Edid(edid) => OutputId::Edid(*edid),
            OutputId::Name(name) => OutputId::Name(name.clone()),
        }
    }
}

impl PartialEq for OutputId {
    fn eq(&self, other: &OutputId) -> (res: bool) {
        match (self, other) {
            (OutputId::Edid(a), OutputId::Edid(b)) => a.value() == b.value(),
            (OutputId::Name(a), OutputId::Name(b)) => *a == *b,
            _ => false,
        }
    }
}

impl Eq for OutputId {

}

impl PartialEqSpecImpl for OutputId {
    open spec fn obeys_eq_spec() -> bool {
        true
    }

    open spec fn eq_spec(&self, other: &OutputId) -> bool {
        self@ == other@
    }
}

impl OutputId {
    /// Whether `self` comes before `other` in the order of identifiers.
    pub fn precedes(&self, other: &OutputId) -> (res: bool)
        ensures
            res == self@.precedes(other@),
    {
        match (self, other) {
            (OutputId::Edid(a), OutputId::Edid(b)) => a.value() < b.value(),
            (OutputId::Edid(_), OutputId::Name(_)) => true,
            (OutputId::Name(_), OutputId::Edid(_)) => false,
            (OutputId::Name(a), OutputId::Name(b)) => str_precedes(a.as_str(), b.as_str()),
        }
    }
}

/// What an output shows: nothing, or a mode under a transform at a place.
#[derive(Clone, Copy, Debug, PartialEq, Eq, Structural)]
pub enum OutputState {
    Enabled { mode: Mode, transform: Transform, bottom_left: Vec2d<i32> },
    Disabled,
}

impl OutputState {
    /// The size of the mode fits the coordinates of a rectangle.
    pub open spec fn representable(self) -> bool {
        match self {
            OutputState::Enabled { mode, .. } => mode.size.x <= i32::MAX && mode.size.y <= i32::MAX,
            OutputState::Disabled => true,
        }
    }

    /// The rectangle that an enabled output covers: as large as its mode,
    /// width and height exchanged where the transform swaps the axes.
    pub open spec fn spec_rect(self) -> Option<Rect> {
        match self {
            OutputState::Enabled { mode, transform, bottom_left } => {
                let size = mode.size.swap_if(transform.swaps_axes());
                Some(Rect { bottom_left, size: Vec2d { x: size.x as i32, y: size.y as i32 } })
            },
            OutputState::Disabled => None,
        }
    }

    /// The state moved by `-delta`.
    pub open spec fn moved_back(self, delta: Vec2d<i32>) -> OutputState {
        match self {
            OutputState::Enabled { mode, transform, bottom_left } => OutputState::Enabled {
                mode,
                transform,
                bottom_left: Vec2d { x: (bottom_left.x - delta.x) as i32, y: (bottom_left.y - delta.y) as i32 },
            },
            OutputState::Disabled => OutputState::Disabled,
        }
    }

    /// The order of states: enabled ones first, by mode (width, height,
    /// frequency), then by transform (unreflected first, then by
    /// rotation), then by place (`x`, then `y`).
    pub open spec fn precedes(self, other: OutputState) -> bool {
        match (self, other) {
            (
                OutputState::Enabled { mode: m1, transform: t1, bottom_left: b1 },
                OutputState::Enabled { mode: m2, transform: t2, bottom_left: b2 },
            ) => {
                if m1.size.x != m2.size.x {
                    m1.size.x < m2.size.x
                } else if m1.size.y != m2.size.y {
                    m1.size.y < m2.size.y
                } else if m1.frequency != m2.frequency {
                    m1.frequency < m2.frequency
                } else if t1.reflect != t2.reflect {
                    !t1.reflect
                } else if t1.rotation != t2.rotation {
                    t1.rotation.quarter_turns() < t2.rotation.quarter_turns()
                } else if b1.x != b2.x {
                    b1.x < b2.x
                } else {
                    b1.y < b2.y
                }
            },
            (OutputState::Enabled { .. }, OutputState::Disabled) => true,
            (OutputState::Disabled, _) => false,
        }
    }

    /// The rectangle that the output covers, if it is enabled.
    pub fn rect(&self) -> (res: Option<Rect>)
        requires
            self.representable(),
        ensures
            res == self.spec_rect(),
    {
        match self {
            OutputState::Disabled => None,
            OutputState::Enabled { bottom_left, mode, transform } => {
                let size = mode.size.apply(transform);
                Some(Rect { bottom_left: *bottom_left, size: Vec2d { x: size.x as i32, y: size.y as i32 } })
            },
        }
    }

    /// Whether `self` comes before `other` in the order of states.
    pub fn precedes_state(&self, other: &OutputState) -> (res: bool)
        ensures
            res == self.precedes(*other),
    {
        match (self, other) {
            (
                OutputState::Enabled { mode: m1, transform: t1, bottom_left: b1 },
                OutputState::Enabled { mode: m2, transform: t2, bottom_left: b2 },
            ) => {
                if m1.size.x != m2.size.x {
                    m1.size.x < m2.size.x
                } else if m1.size.y != m2.size.y {
                    m1.size.y < m2.size.y
                } else if m1.frequency != m2.frequency {
                    m1.frequency < m2.frequency
                } else if t1.reflect != t2.reflect {
                    !t1.reflect
                } else if t1.rotation != t2.rotation {
                    quarter_turns_of(t1.rotation) < quarter_turns_of(t2.rotation)
                } else if b1.x != b2.x {
                    b1.x < b2.x
                } else {
                    b1.y < b2.y
                }
            },
            (OutputState::Enabled { .. }, OutputState::Disabled) => true,
            (OutputState::Disabled, _) => false,
        }
    }
}

fn quarter_turns_of(rotation: Rotation) -> (res: u8)
    ensures
        res == rotation.quarter_turns(),
{
    match rotation {
        Rotation::R0 => 0,
        Rotation::R90 => 1,
        Rotation::R180 => 2,
        Rotation::R270 => 3,
    }
}

/// An output of a layout, as the contracts see it.
pub struct OutputEntryView {
    pub id: OutputIdView,
    pub state: OutputState,
}

/// An output of a layout: what identifies it, and what it shows.
#[derive(Debug)]
pub struct OutputEntry {
    pub id: OutputId,
    pub state: OutputState,
}

impl View for OutputEntry {
    type V = OutputEntryView;

    open spec fn view(&self) -> OutputEntryView {
        OutputEntryView { id: self.id@, state: self.state }
    }
}

impl OutputEntryView {
    /// The order of entries: by identifier, then by state.
    pub open spec fn precedes(self, other: OutputEntryView) -> bool {
        self.id.precedes(other.id) || (self.id == other.id && self.state.precedes(other.state))
    }
}

impl Clone for OutputEntry {
    fn clone(&self) -> (res: OutputEntry)
        ensures
            res@ == self@,
    {
        OutputEntry { id: self.id.clone(), state: self.state }
    }
}

impl PartialEq for OutputEntry {
    fn eq(&self, other: &OutputEntry) -> (res: bool) {
        self.id == other.id && self.state == other.state
    }
}

impl Eq for OutputEntry {

}

impl PartialEqSpecImpl for OutputEntry {
    open spec fn obeys_eq_spec() -> bool {
        true
    }

    open spec fn eq_spec(&self, other: &OutputEntry) -> bool {
        self@ == other@
    }
}

impl OutputEntry {
    /// Whether `self` comes before `other` in the order of entries.
    pub fn precedes(&self, other: &OutputEntry) -> (res: bool)
        ensures
            res == self@.precedes(other@),
    {
        if self.id.precedes(&other.id) {
            true
        } else if self.id == other.id {
            self.state.precedes_state(&other.state)
        } else {
            false
        }
    }
}

/// Distinct characters have distinct codes.
proof fn lemma_char_codes_differ(a: char, b: char)
    requires
        a != b,
    ensures
        (a as u32) != (b as u32),
{
    assert(a as int != b as int);
    assert(0 <= a as int <= 0x10FFFF);
    assert(0 <= b as int <= 0x10FFFF);
}

/// No string comes before itself, and of two strings one comes before the
/// other unless they are the same.
pub proof fn lemma_chars_order(a: Seq<char>, b: Seq<char>)
    ensures
        !chars_precede(a, a),
        chars_precede(a, b) ==> !chars_precede(b, a),
        !chars_precede(a, b) && !chars_precede(b, a) ==> a == b,
    decreases a.len(),
{
    if a.len() > 0 {
        lemma_chars_order(a.drop_first(), a.drop_first());
    }
    if a.len() > 0 && b.len() > 0 {
        lemma_chars_order(a.drop_first(), b.drop_first());
        if a[0] == b[0] {
            if a.drop_first() == b.drop_first() {
                assert(a =~= seq![a[0]] + a.drop_first());
                assert(b =~= seq![b[0]] + b.drop_first());
            }
        } else {
            lemma_char_codes_differ(a[0], b[0]);
        }
    } else if a.len() == 0 && b.len() == 0 {
        assert(a =~= b);
    }
}

/// What comes before a string that comes before a third comes before the
/// third.
pub proof fn lemma_chars_order_transitive(a: Seq<char>, b: Seq<char>, c: Seq<char>)
    requires
        chars_precede(a, b),
        chars_precede(b, c),
    ensures
        chars_precede(a, c),
    decreases a.len(),
{
    if a.len() > 0 && a[0] == b[0] && b[0] == c[0] {
        lemma_chars_order_transitive(a.drop_first(), b.drop_first(), c.drop_first());
    }
}

/// The order of entries is a strict total order: no entry comes before
/// itself, of two distinct entries exactly one comes before the other,
/// and what comes before an entry comes before what that entry comes
/// before.
pub proof fn lemma_entry_order(a: OutputEntryView, b: OutputEntryView, c: OutputEntryView)
    ensures
        !a.precedes(a),
        a.precedes(b) ==> !b.precedes(a),
        !a.precedes(b) && !b.precedes(a) ==> a == b,
        a.precedes(b) && b.precedes(c) ==> a.precedes(c),
        a.precedes(b) && !c.precedes(b) ==> a.precedes(c),
        !b.precedes(a) && b.precedes(c) ==> a.precedes(c),
        !b.precedes(a) && !c.precedes(b) ==> !c.precedes(a),
{
    lemma_id_order(a.id, b.id, c.id);
    lemma_id_order(b.id, c.id, a.id);
    lemma_id_order(c.id, a.id, b.id);
    lemma_id_order(a.id, c.id, b.id);
    lemma_id_order(b.id, a.id, c.id);
    lemma_id_order(c.id, b.id, a.id);
}

/// The order of identifiers is a strict total order.
pub proof fn lemma_id_order(a: OutputIdView, b: OutputIdView, c: OutputIdView)
    ensures
        !a.precedes(a),
        a.precedes(b) ==> !b.precedes(a),
        !a.precedes(b) && !b.precedes(a) ==> a == b,
        a.precedes(b) && b.precedes(c) ==> a.precedes(c),
{
    match (a, b, c) {
        (OutputIdView::Name(x), OutputIdView::Name(y), OutputIdView::Name(z)) => {
            lemma_chars_order(x, y);
            if chars_precede(x, y) && chars_precede(y, z) {
                lemma_chars_order_transitive(x, y, z);
            }
        },
        (OutputIdView::Name(x), OutputIdView::Name(y), _) => {
            lemma_chars_order(x, y);
        },
        (OutputIdView::Name(x), _, _) => {
            lemma_chars_order(x, x);
        },
        _ => {},
    }
}

} // verus!
