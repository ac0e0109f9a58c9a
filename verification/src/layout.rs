//! Layouts: validated collections of outputs, sorted and normalized, with
//! what makes a layout unsupported.

use crate::geometry::{Direction, Rect, Transform, Vec2d};
use crate::output::lemma_entry_order;
pub use crate::output::{
    str_precedes, Edid, Mode, OutputEntry, OutputEntryView, OutputId, OutputIdView, OutputState,
};
use crate::relation::{lemma_pair_count_closed_form, lemma_pair_count_monotonic, pair_count, RelationMatrix};
use vstd::prelude::*;
use vstd::std_specs::cmp::PartialEqSpecImpl;

verus! {

/// The views of the entries.
pub open spec fn entry_views(entries: Seq<OutputEntry>) -> Seq<OutputEntryView> {
    Seq::new(entries.len(), |i: int| entries[i]@)
}

/// No entry comes before an earlier one.
pub open spec fn entries_sorted(entries: Seq<OutputEntryView>) -> bool {
    forall|i: int, j: int| 0 <= i < j < entries.len() ==> !(#[trigger] entries[j]).precedes(#[trigger] entries[i])
}

/// The sorted entries `sorted` with `entry` put in its place: before the
/// first entry that does not come before it.
pub open spec fn entry_inserted(sorted: Seq<OutputEntryView>, entry: OutputEntryView) -> Seq<OutputEntryView>
    decreases sorted.len(),
{
    if sorted.len() > 0 && sorted[0].precedes(entry) {
        seq![sorted[0]] + entry_inserted(sorted.drop_first(), entry)
    } else {
        seq![entry] + sorted
    }
}

/// The entries in their order.
pub open spec fn sorted_entries(entries: Seq<OutputEntryView>) -> Seq<OutputEntryView>
    decreases entries.len(),
{
    if entries.len() == 0 {
        entries
    } else {
        entry_inserted(sorted_entries(entries.drop_first()), entries[0])
    }
}

/// Putting an entry in its place is inserting it behind the entries that
/// come before it.
pub proof fn lemma_entry_inserted_at(sorted: Seq<OutputEntryView>, entry: OutputEntryView, pos: int)
    requires
        is_insertion_point(sorted, entry, pos),
    ensures
        entry_inserted(sorted, entry) == sorted.insert(pos, entry),
    decreases sorted.len(),
{
    if pos == 0 {
        assert(seq![entry] + sorted =~= sorted.insert(0, entry));
    } else {
        let rest = sorted.drop_first();
        assert forall|k: int| 0 <= k < pos - 1 implies (#[trigger] rest[k]).precedes(entry) by {
            assert(rest[k] == sorted[k + 1]);
        }
        assert(sorted[0].precedes(entry));
        if pos - 1 < rest.len() {
            assert(rest[pos - 1] == sorted[pos]);
        }
        lemma_entry_inserted_at(rest, entry, pos - 1);
        assert(seq![sorted[0]] + rest.insert(pos - 1, entry) =~= sorted.insert(pos, entry));
    }
}

/// `pos` is the place of `entry` among the entries `sorted`: all before it
/// come before the entry, and the one at it, if there is one, does not.
pub open spec fn is_insertion_point(sorted: Seq<OutputEntryView>, entry: OutputEntryView, pos: int) -> bool {
    &&& 0 <= pos <= sorted.len()
    &&& forall|k: int| 0 <= k < pos ==> (#[trigger] sorted[k]).precedes(entry)
    &&& pos < sorted.len() ==> !sorted[pos].precedes(entry)
}

/// Among any entries there is a place for an entry.
proof fn lemma_insertion_point(sorted: Seq<OutputEntryView>, entry: OutputEntryView) -> (pos: int)
    ensures
        is_insertion_point(sorted, entry, pos),
    decreases sorted.len(),
{
    if sorted.len() > 0 && sorted[0].precedes(entry) {
        let rest = sorted.drop_first();
        let p = lemma_insertion_point(rest, entry);
        assert forall|k: int| 0 <= k < p + 1 implies (#[trigger] sorted[k]).precedes(entry) by {
            if k > 0 {
                assert(sorted[k] == rest[k - 1]);
            }
        }
        if p + 1 < sorted.len() {
            assert(sorted[p + 1] == rest[p]);
        }
        p + 1
    } else {
        0
    }
}

/// An entry put in its place among sorted entries leaves them sorted, and
/// adds that entry to them and nothing else.
pub proof fn lemma_entry_inserted(sorted: Seq<OutputEntryView>, entry: OutputEntryView)
    requires
        entries_sorted(sorted),
    ensures
        entries_sorted(entry_inserted(sorted, entry)),
        entry_inserted(sorted, entry).to_multiset() == sorted.to_multiset().insert(entry),
        entry_inserted(sorted, entry).len() == sorted.len() + 1,
{
    let pos = lemma_insertion_point(sorted, entry);
    lemma_entry_inserted_at(sorted, entry, pos);
    let after = sorted.insert(pos, entry);
    assert forall|i: int, j: int| 0 <= i < j < after.len() implies !(#[trigger] after[j]).precedes(
        #[trigger] after[i],
    ) by {
        if j == pos {
            assert(after[i] == sorted[i]);
            assert(sorted[i].precedes(entry));
            lemma_entry_order(after[i], entry, entry);
        } else if i == pos {
            // `entry` does not come behind `sorted[pos]`, nor behind what follows it.
            assert(after[j] == sorted[j - 1]);
            if j - 1 > pos {
                assert(!sorted[j - 1].precedes(sorted[pos]));
            }
            lemma_entry_order(entry, sorted[pos], sorted[j - 1]);
        } else {
            let oi = if i < pos { i } else { i - 1 };
            let oj = if j < pos { j } else { j - 1 };
            assert(after[i] == sorted[oi]);
            assert(after[j] == sorted[oj]);
            assert(!sorted[oj].precedes(sorted[oi]));
        }
    }
    vstd::seq_lib::to_multiset_insert(sorted, pos, entry);
}

/// Sorting gives the same entries, as many of each, in their order.
pub proof fn lemma_sorted_entries(entries: Seq<OutputEntryView>)
    ensures
        entries_sorted(sorted_entries(entries)),
        sorted_entries(entries).to_multiset() == entries.to_multiset(),
        sorted_entries(entries).len() == entries.len(),
    decreases entries.len(),
{
    if entries.len() > 0 {
        let rest = entries.drop_first();
        lemma_sorted_entries(rest);
        lemma_entry_inserted(sorted_entries(rest), entries[0]);
        assert(entries =~= rest.insert(0, entries[0]));
        vstd::seq_lib::to_multiset_insert(rest, 0, entries[0]);
    }
}

/// Sorting leaves sorted entries as they are.
pub proof fn lemma_sorted_entries_fixed(entries: Seq<OutputEntryView>)
    requires
        entries_sorted(entries),
    ensures
        sorted_entries(entries) == entries,
    decreases entries.len(),
{
    if entries.len() > 0 {
        let rest = entries.drop_first();
        assert forall|i: int, j: int| 0 <= i < j < rest.len() implies !(#[trigger] rest[j]).precedes(
            #[trigger] rest[i],
        ) by {
            assert(!entries[j + 1].precedes(entries[i + 1]));
        }
        lemma_sorted_entries_fixed(rest);
        if rest.len() > 0 {
            assert(!entries[1].precedes(entries[0]));
            assert(rest[0] == entries[1]);
        }
        assert(seq![entries[0]] + rest =~= entries);
    }
}

impl OutputEntryView {
    /// The output is enabled.
    pub open spec fn enabled(self) -> bool {
        self.state is Enabled
    }

    /// Where an enabled output is.
    pub open spec fn corner(self) -> Vec2d<i32> {
        self.state->bottom_left
    }

    /// The entry moved by `-delta`.
    pub open spec fn moved_back(self, delta: Vec2d<i32>) -> OutputEntryView {
        OutputEntryView { id: self.id, state: self.state.moved_back(delta) }
    }
}

/// Component-wise minimum of the places of the enabled entries, if there
/// is one.
pub open spec fn min_corner(entries: Seq<OutputEntryView>) -> Option<Vec2d<i32>>
    decreases entries.len(),
{
    if entries.len() == 0 {
        None
    } else {
        let before = min_corner(entries.drop_last());
        if entries.last().enabled() {
            match before {
                Some(m) => Some(m.spec_cwise_min(entries.last().corner())),
                None => Some(entries.last().corner()),
            }
        } else {
            before
        }
    }
}

/// `m` is below and left of every enabled entry, with one of them at its
/// `x` and one at its `y`.
pub open spec fn is_min_corner(entries: Seq<OutputEntryView>, m: Vec2d<i32>) -> bool {
    &&& forall|i: int|
        0 <= i < entries.len() && (#[trigger] entries[i]).enabled() ==> m.x <= entries[i].corner().x && m.y
            <= entries[i].corner().y
    &&& exists|i: int| 0 <= i < entries.len() && (#[trigger] entries[i]).enabled() && entries[i].corner().x == m.x
    &&& exists|i: int| 0 <= i < entries.len() && (#[trigger] entries[i]).enabled() && entries[i].corner().y == m.y
}

/// The minimum is what its name says, and there is none only where no
/// entry is enabled.
pub proof fn lemma_min_corner(entries: Seq<OutputEntryView>)
    ensures
        match min_corner(entries) {
            Some(m) => is_min_corner(entries, m),
            None => forall|i: int| 0 <= i < entries.len() ==> !(#[trigger] entries[i]).enabled(),
        },
    decreases entries.len(),
{
    if entries.len() > 0 {
        let rest = entries.drop_last();
        let last = entries.last();
        lemma_min_corner(rest);
        assert forall|i: int| 0 <= i < rest.len() implies rest[i] == entries[i] by {}
        match min_corner(rest) {
            Some(b) => {
                let ix = choose|i: int| 0 <= i < rest.len() && (#[trigger] rest[i]).enabled() && rest[i].corner().x == b.x;
                let iy = choose|i: int| 0 <= i < rest.len() && (#[trigger] rest[i]).enabled() && rest[i].corner().y == b.y;
                assert(entries[ix] == rest[ix]);
                assert(entries[iy] == rest[iy]);
                if last.enabled() {
                    let m = b.spec_cwise_min(last.corner());
                    let jx = if b.x <= last.corner().x { ix } else { entries.len() - 1 };
                    let jy = if b.y <= last.corner().y { iy } else { entries.len() - 1 };
                    assert(entries[jx].enabled() && entries[jx].corner().x == m.x);
                    assert(entries[jy].enabled() && entries[jy].corner().y == m.y);
                    assert forall|i: int| 0 <= i < entries.len() && (#[trigger] entries[i]).enabled() implies m.x
                        <= entries[i].corner().x && m.y <= entries[i].corner().y by {
                        if i < rest.len() {
                            assert(rest[i].enabled());
                        }
                    }
                } else {
                    assert(entries[ix].enabled() && entries[ix].corner().x == b.x);
                    assert(entries[iy].enabled() && entries[iy].corner().y == b.y);
                    assert forall|i: int| 0 <= i < entries.len() && (#[trigger] entries[i]).enabled() implies b.x
                        <= entries[i].corner().x && b.y <= entries[i].corner().y by {
                        if i < rest.len() {
                            assert(rest[i].enabled());
                        }
                    }
                }
            },
            None => {
                if last.enabled() {
                    let k = entries.len() - 1;
                    assert(entries[k].enabled() && entries[k].corner().x == last.corner().x);
                    assert(entries[k].enabled() && entries[k].corner().y == last.corner().y);
                    assert forall|i: int| 0 <= i < entries.len() && (#[trigger] entries[i]).enabled() implies last.corner().x
                        <= entries[i].corner().x && last.corner().y <= entries[i].corner().y by {
                        if i < rest.len() {
                            assert(!rest[i].enabled());
                        }
                    }
                } else {
                    assert forall|i: int| 0 <= i < entries.len() implies !(#[trigger] entries[i]).enabled() by {
                        if i < rest.len() {
                            assert(!rest[i].enabled());
                        }
                    }
                }
            },
        }
    }
}

/// What is below and left of every enabled entry, with one of them at its
/// `x` and one at its `y`, is the minimum.
pub proof fn lemma_min_corner_unique(entries: Seq<OutputEntryView>, m: Vec2d<i32>)
    requires
        is_min_corner(entries, m),
    ensures
        min_corner(entries) == Some(m),
{
    lemma_min_corner(entries);
    let ix = choose|i: int| 0 <= i < entries.len() && (#[trigger] entries[i]).enabled() && entries[i].corner().x == m.x;
    let iy = choose|i: int| 0 <= i < entries.len() && (#[trigger] entries[i]).enabled() && entries[i].corner().y == m.y;
    match min_corner(entries) {
        Some(c) => {
            let jx = choose|i: int| 0 <= i < entries.len() && (#[trigger] entries[i]).enabled() && entries[i].corner().x == c.x;
            let jy = choose|i: int| 0 <= i < entries.len() && (#[trigger] entries[i]).enabled() && entries[i].corner().y == c.y;
            assert(m.x <= entries[jx].corner().x && c.x <= entries[ix].corner().x);
            assert(m.y <= entries[jy].corner().y && c.y <= entries[iy].corner().y);
        },
        None => {
            assert(!entries[ix].enabled());
        },
    }
}

/// The place that normalization moves to `(0, 0)`: the minimum of the
/// places of the enabled entries, and `(0, 0)` where none is enabled.
pub open spec fn origin(entries: Seq<OutputEntryView>) -> Vec2d<i32> {
    match min_corner(entries) {
        Some(m) => m,
        None => Vec2d { x: 0i32, y: 0i32 },
    }
}

/// Each mode has a size that a rectangle can hold, and no two enabled
/// entries are further apart than the range of `i32`.
pub open spec fn placement_fits(entries: Seq<OutputEntryView>) -> bool {
    &&& forall|i: int| 0 <= i < entries.len() ==> (#[trigger] entries[i]).state.representable()
    &&& forall|i: int, j: int|
        0 <= i < entries.len() && 0 <= j < entries.len() && (#[trigger] entries[i]).enabled()
            && (#[trigger] entries[j]).enabled() ==> entries[i].corner().x - entries[j].corner().x <= i32::MAX
            && entries[i].corner().y - entries[j].corner().y <= i32::MAX
}

/// The entries with the enabled ones moved so that their minimum is at
/// `(0, 0)`.
pub open spec fn normalized_entries(entries: Seq<OutputEntryView>) -> Seq<OutputEntryView> {
    Seq::new(entries.len(), |i: int| entries[i].moved_back(origin(entries)))
}

/// The entries as a layout holds them: sorted, then normalized.
pub open spec fn layout_entries(entries: Seq<OutputEntryView>) -> Seq<OutputEntryView> {
    normalized_entries(sorted_entries(entries))
}

/// Sorts the entries by identifier, then by state.
pub fn sort_entries(entries: Vec<OutputEntry>) -> (res: Vec<OutputEntry>)
    ensures
        entry_views(res@) == sorted_entries(entry_views(entries@)),
{
    let ghost all = entry_views(entries@);
    let mut rest = entries;
    let mut sorted: Vec<OutputEntry> = Vec::new();
    assert(all.subrange(all.len() as int, all.len() as int) =~= Seq::<OutputEntryView>::empty());
    assert(entry_views(sorted@) =~= Seq::<OutputEntryView>::empty());
    loop
        invariant
            all == entry_views(entries@),
            rest@.len() <= all.len(),
            entry_views(rest@) == all.subrange(0, rest@.len() as int),
            entry_views(sorted@) == sorted_entries(all.subrange(rest@.len() as int, all.len() as int)),
        decreases rest@.len(),
    {
        let ghost k = rest@.len() as int;
        let ghost before_rest = rest@;
        match rest.pop() {
            None => {
                assert(k == 0);
                assert(all.subrange(k, all.len() as int) =~= all);
                return sorted;
            },
            Some(entry) => {
                let ghost tail = all.subrange(k, all.len() as int);
                let ghost longer = all.subrange(k - 1, all.len() as int);
                proof {
                    assert(entry@ == entry_views(before_rest)[k - 1]);
                    assert(longer.drop_first() =~= tail);
                    assert(longer[0] == entry@);
                    assert(entry_views(rest@) =~= all.subrange(0, k - 1));
                }
                // The place of the entry: behind the entries that come before it.
                let mut pos: usize = 0;
                while pos < sorted.len() && sorted[pos].precedes(&entry)
                    invariant
                        pos <= sorted@.len(),
                        forall|j: int| 0 <= j < pos ==> (#[trigger] entry_views(sorted@)[j]).precedes(entry@),
                    decreases sorted@.len() - pos,
                {
                    pos += 1;
                }
                let ghost before_sorted = entry_views(sorted@);
                proof {
                    assert(is_insertion_point(before_sorted, entry@, pos as int));
                    lemma_entry_inserted_at(before_sorted, entry@, pos as int);
                }
                sorted.insert(pos, entry);
                assert(entry_views(sorted@) =~= before_sorted.insert(pos as int, entry@));
            },
        }
    }
}

/// Moves the enabled entries so that the minimum of their places is
/// `(0, 0)`.
pub fn normalize_bottom_left_coordinates(outputs: &mut Vec<OutputEntry>)
    requires
        placement_fits(entry_views(old(outputs)@)),
    ensures
        entry_views(final(outputs)@) == normalized_entries(entry_views(old(outputs)@)),
{
    let ghost before = entry_views(outputs@);
    let n = outputs.len();
    let mut min_coords: Option<Vec2d<i32>> = None;
    let mut i: usize = 0;
    while i < n
        invariant
            i <= n,
            n == outputs@.len(),
            before == entry_views(outputs@),
            min_coords == min_corner(before.subrange(0, i as int)),
        decreases n - i,
    {
        proof {
            let upto = before.subrange(0, i + 1);
            assert(upto.drop_last() =~= before.subrange(0, i as int));
            assert(upto.last() == outputs@[i as int]@);
        }
        match &outputs[i].state {
            OutputState::Enabled { bottom_left, .. } => {
                min_coords = match min_coords {
                    Some(m) => Some(m.cwise_min(*bottom_left)),
                    None => Some(*bottom_left),
                };
            },
            OutputState::Disabled => {},
        }
        i += 1;
    }
    assert(before.subrange(0, n as int) =~= before);
    let delta = match min_coords {
        Some(m) => m,
        None => Vec2d { x: 0, y: 0 },
    };
    proof {
        lemma_min_corner(before);
    }
    let mut k: usize = 0;
    while k < n
        invariant
            k <= n,
            n == outputs@.len(),
            n == before.len(),
            placement_fits(before),
            delta == origin(before),
            match min_corner(before) {
                Some(m) => is_min_corner(before, m),
                None => forall|i: int| 0 <= i < before.len() ==> !(#[trigger] before[i]).enabled(),
            },
            forall|j: int| 0 <= j < k ==> (#[trigger] outputs@[j])@ == before[j].moved_back(delta),
            forall|j: int| k <= j < n ==> (#[trigger] outputs@[j])@ == before[j],
        decreases n - k,
    {
        assert(outputs@[k as int]@ == before[k as int]);
        let state = outputs[k].state;
        match state {
            OutputState::Enabled { mode, transform, bottom_left } => {
                proof {
                    let m = min_corner(before).unwrap();
                    let ix = choose|i: int|
                        0 <= i < before.len() && (#[trigger] before[i]).enabled() && before[i].corner().x == m.x;
                    let iy = choose|i: int|
                        0 <= i < before.len() && (#[trigger] before[i]).enabled() && before[i].corner().y == m.y;
                    assert(before[k as int].enabled());
                    assert(before[k as int].corner().x - before[ix].corner().x <= i32::MAX);
                    assert(before[k as int].corner().y - before[iy].corner().y <= i32::MAX);
                }
                let ghost prev = outputs@;
                outputs[k].state = OutputState::Enabled {
                    mode,
                    transform,
                    bottom_left: Vec2d { x: bottom_left.x - delta.x, y: bottom_left.y - delta.y },
                };
                proof {
                    assert(outputs@[k as int].id == prev[k as int].id);
                    assert forall|j: int| 0 <= j < n && j != k implies #[trigger] outputs@[j] == prev[j] by {}
                }
            },
            OutputState::Disabled => {},
        }
        k += 1;
    }
    assert(entry_views(outputs@) =~= normalized_entries(before));
}

/// What makes a layout unsupported. A layout with none of these is
/// supported.
#[derive(Clone, Copy, Debug, PartialEq, Eq, Structural)]
pub struct UnsupportedCauses {
    /// Two enabled outputs overlap.
    pub overlaps: bool,
    /// The enabled outputs are not all connected by adjacency.
    pub gaps: bool,
    /// Two outputs have the same identifier.
    pub duplicate_edid: bool,
    /// Outputs show the same picture. Set by a backend, never by validation.
    pub clones: bool,
}

impl UnsupportedCauses {
    /// No cause.
    pub open spec fn spec_empty() -> UnsupportedCauses {
        UnsupportedCauses { overlaps: false, gaps: false, duplicate_edid: false, clones: false }
    }

    /// The causes as a set of bits.
    pub open spec fn spec_bits(self) -> int {
        (if self.overlaps { 1int } else { 0 }) + (if self.gaps { 2int } else { 0 }) + (if self.clones { 4int } else { 0 }) + (
        if self.duplicate_edid { 8int } else { 0 })
    }

    /// No cause.
    pub fn empty() -> (res: UnsupportedCauses)
        ensures
            res == UnsupportedCauses::spec_empty(),
    {
        UnsupportedCauses { overlaps: false, gaps: false, duplicate_edid: false, clones: false }
    }

    /// Whether there is no cause.
    pub fn is_empty(&self) -> (res: bool)
        ensures
            res == (*self == UnsupportedCauses::spec_empty()),
    {
        !self.overlaps && !self.gaps && !self.duplicate_edid && !self.clones
    }

    /// The causes as bits: 1 for overlaps, 2 for gaps, 4 for clones, 8 for
    /// a duplicate identifier.
    pub fn bits(&self) -> (res: u8)
        ensures
            res == self.spec_bits(),
    {
        let mut bits: u8 = 0;
        if self.overlaps {
            bits = bits + 1;
        }
        if self.gaps {
            bits = bits + 2;
        }
        if self.clones {
            bits = bits + 4;
        }
        if self.duplicate_edid {
            bits = bits + 8;
        }
        bits
    }
}

/// The rectangles of the enabled entries, in the order of the entries.
pub open spec fn enabled_rects(entries: Seq<OutputEntryView>) -> Seq<Rect>
    decreases entries.len(),
{
    if entries.len() == 0 {
        Seq::empty()
    } else {
        let before = enabled_rects(entries.drop_last());
        match entries.last().state.spec_rect() {
            Some(rect) => before.push(rect),
            None => before,
        }
    }
}

/// Two of the rectangles overlap.
pub open spec fn any_overlap(rects: Seq<Rect>) -> bool {
    exists|i: int, j: int| 0 <= i < j < rects.len() && #[trigger] rects[i].spec_overlaps(#[trigger] rects[j])
}

/// The rectangles `i` and `j` are adjacent.
pub open spec fn rects_adjacent(rects: Seq<Rect>, i: int, j: int) -> bool {
    &&& 0 <= i < rects.len()
    &&& 0 <= j < rects.len()
    &&& i != j
    &&& if i < j {
        rects[i].spec_adjacent_direction(rects[j]).is_some()
    } else {
        rects[j].spec_adjacent_direction(rects[i]).is_some()
    }
}

/// `path` is a walk over the rectangles, from each to an adjacent one.
pub open spec fn is_rect_walk(rects: Seq<Rect>, path: Seq<int>) -> bool {
    &&& path.len() > 0
    &&& forall|k: int| 0 <= k < path.len() ==> 0 <= #[trigger] path[k] < rects.len()
    &&& forall|k: int| 0 <= k < path.len() - 1 ==> rects_adjacent(rects, #[trigger] path[k], path[k + 1])
}

/// A walk leads from the rectangle `a` to the rectangle `b`.
pub open spec fn rects_joined(rects: Seq<Rect>, a: int, b: int) -> bool {
    exists|path: Seq<int>| #[trigger] is_rect_walk(rects, path) && path.first() == a && path.last() == b
}

/// From every rectangle a walk leads to every other.
pub open spec fn rects_connected(rects: Seq<Rect>) -> bool {
    forall|a: int, b: int| 0 <= a < rects.len() && 0 <= b < rects.len() ==> #[trigger] rects_joined(rects, a, b)
}

/// Two entries that follow each other have the same identifier. In sorted
/// entries this is to say that some identifier occurs twice.
pub open spec fn duplicate_ids(entries: Seq<OutputEntryView>) -> bool {
    exists|i: int| 0 <= i < entries.len() - 1 && (#[trigger] entries[i]).id == entries[i + 1].id
}

/// What makes the entries unsupported as a layout: overlaps and gaps
/// between the rectangles of the enabled ones, and identifiers that occur
/// twice.
#[verifier::opaque]
pub open spec fn spec_unsupported_causes(entries: Seq<OutputEntryView>) -> UnsupportedCauses {
    UnsupportedCauses {
        overlaps: any_overlap(enabled_rects(entries)),
        gaps: !rects_connected(enabled_rects(entries)),
        duplicate_edid: duplicate_ids(entries),
        clones: false,
    }
}

/// The relations of `matrix` are the adjacencies of `rects`.
pub open spec fn holds_adjacency(matrix: &RelationMatrix<Direction>, rects: Seq<Rect>) -> bool {
    &&& matrix.wf()
    &&& matrix.spec_size() == rects.len()
    &&& forall|i: int, j: int|
        0 <= i < j < rects.len() ==> #[trigger] matrix.spec_get(i, j) == rects[i].spec_adjacent_direction(rects[j])
}

/// A matrix that holds the adjacencies of rectangles is connected where
/// the rectangles are.
pub proof fn lemma_adjacency_connected(matrix: &RelationMatrix<Direction>, rects: Seq<Rect>)
    requires
        holds_adjacency(matrix, rects),
    ensures
        matrix.spec_is_single_connected_component() == rects_connected(rects),
{
    assert forall|i: int, j: int| matrix.linked(i, j) == rects_adjacent(rects, i, j) by {
        if 0 <= i < rects.len() && 0 <= j < rects.len() {
            if i < j {
            } else if j < i {
                matrix.lemma_get_reversed(j, i);
            } else {
                matrix.lemma_get_none(i, j);
            }
        }
    }
    assert forall|path: Seq<int>| matrix.is_path(path) == is_rect_walk(rects, path) by {
        if matrix.is_path(path) {
            assert forall|k: int| 0 <= k < path.len() - 1 implies rects_adjacent(
                rects,
                #[trigger] path[k],
                path[k + 1],
            ) by {
                assert(matrix.linked(path[k], path[k + 1]));
            }
        }
        if is_rect_walk(rects, path) {
            assert forall|k: int| 0 <= k < path.len() - 1 implies matrix.linked(#[trigger] path[k], path[k + 1]) by {
                assert(rects_adjacent(rects, path[k], path[k + 1]));
            }
        }
    }
    if matrix.spec_is_single_connected_component() {
        assert forall|a: int, b: int| 0 <= a < rects.len() && 0 <= b < rects.len() implies #[trigger] rects_joined(
            rects,
            a,
            b,
        ) by {
            assert(matrix.connected(a, b));
            let path = choose|path: Seq<int>| #[trigger] matrix.is_path(path) && path.first() == a && path.last() == b;
            assert(is_rect_walk(rects, path));
        }
    }
    if rects_connected(rects) {
        assert forall|a: int, b: int|
            0 <= a < matrix.spec_size() && 0 <= b < matrix.spec_size() implies #[trigger] matrix.connected(a, b) by {
            assert(rects_joined(rects, a, b));
            let path = choose|path: Seq<int>| #[trigger]
                is_rect_walk(rects, path) && path.first() == a && path.last() == b;
            assert(matrix.is_path(path));
        }
    }
}

/// The rectangles of the enabled entries.
fn rects_of(outputs: &Vec<OutputEntry>) -> (res: Vec<Rect>)
    requires
        forall|i: int| 0 <= i < outputs@.len() ==> (#[trigger] outputs@[i]).state.representable(),
    ensures
        res@ == enabled_rects(entry_views(outputs@)),
        res@.len() <= outputs@.len(),
{
    let ghost views = entry_views(outputs@);
    let mut rects: Vec<Rect> = Vec::new();
    let mut i: usize = 0;
    while i < outputs.len()
        invariant
            i <= outputs@.len(),
            views == entry_views(outputs@),
            forall|i: int| 0 <= i < outputs@.len() ==> (#[trigger] outputs@[i]).state.representable(),
            rects@ == enabled_rects(views.subrange(0, i as int)),
            rects@.len() <= i,
        decreases outputs@.len() - i,
    {
        proof {
            let upto = views.subrange(0, i + 1);
            assert(upto.drop_last() =~= views.subrange(0, i as int));
            assert(upto.last() == outputs@[i as int]@);
        }
        match outputs[i].state.rect() {
            Some(rect) => {
                rects.push(rect);
            },
            None => {},
        }
        i += 1;
    }
    assert(views.subrange(0, outputs@.len() as int) =~= views);
    rects
}

/// The adjacencies of the rectangles, as a matrix of directions, and
/// whether two of the rectangles overlap.
pub fn adjacency_of(rects: &Vec<Rect>) -> (res: (RelationMatrix<Direction>, bool))
    requires
        pair_count(rects@.len()) <= usize::MAX,
    ensures
        holds_adjacency(&res.0, rects@),
        res.1 == any_overlap(rects@),
{
    let size = rects.len();
    let mut overlaps = false;
    let mut relations: RelationMatrix<Direction> = RelationMatrix::new(size);
    let mut rhs: usize = 1;
    while rhs < size
        invariant
            1 <= rhs,
            size > 0 ==> rhs <= size,
            size == rects@.len(),
            relations.wf(),
            relations.spec_size() == size,
            forall|i: int, j: int|
                0 <= i < j < rhs && j < size ==> #[trigger] relations.spec_get(i, j)
                    == rects@[i].spec_adjacent_direction(rects@[j]),
            overlaps == (exists|i: int, j: int|
                0 <= i < j < rhs && j < size && #[trigger] rects@[i].spec_overlaps(#[trigger] rects@[j])),
        decreases size - rhs,
    {
        let mut lhs: usize = 0;
        while lhs < rhs
            invariant
                lhs <= rhs < size,
                size == rects@.len(),
                relations.wf(),
                relations.spec_size() == size,
                forall|i: int, j: int|
                    0 <= i < j && (j < rhs || (j == rhs && i < lhs)) ==> #[trigger] relations.spec_get(i, j)
                        == rects@[i].spec_adjacent_direction(rects@[j]),
                overlaps == (exists|i: int, j: int|
                    0 <= i < j && (j < rhs || (j == rhs && i < lhs)) && #[trigger] rects@[i].spec_overlaps(
                        #[trigger] rects@[j],
                    )),
            decreases rhs - lhs,
        {
            let ghost seen = overlaps;
            if rects[lhs].overlaps(&rects[rhs]) {
                overlaps = true;
            }
            relations.set(lhs, rhs, rects[lhs].adjacent_direction(&rects[rhs]));
            proof {
                if overlaps {
                    if seen {
                        let (i, j) = choose|i: int, j: int|
                            0 <= i < j && (j < rhs || (j == rhs && i < lhs)) && #[trigger] rects@[i].spec_overlaps(
                                #[trigger] rects@[j],
                            );
                        assert(0 <= i < j && (j < rhs || (j == rhs && i < lhs + 1)) && rects@[i].spec_overlaps(
                            rects@[j],
                        ));
                    } else {
                        assert(rects@[lhs as int].spec_overlaps(rects@[rhs as int]));
                    }
                }
            }
            lhs += 1;
        }
        rhs += 1;
    }
    (relations, overlaps)
}

/// What makes the entries unsupported as a layout: overlaps between the
/// rectangles of the enabled entries, gaps between them, and entries of
/// the same identifier that follow each other.
pub fn check_entries_for_unsupported_causes(outputs: &Vec<OutputEntry>) -> (res: UnsupportedCauses)
    requires
        forall|i: int| 0 <= i < outputs@.len() ==> (#[trigger] outputs@[i]).state.representable(),
        pair_count(outputs@.len()) <= usize::MAX,
    ensures
        res == spec_unsupported_causes(entry_views(outputs@)),
{
    let rects = rects_of(outputs);
    proof {
        lemma_pair_count_monotonic(rects@.len(), outputs@.len());
    }
    let (relations, overlaps) = adjacency_of(&rects);
    proof {
        lemma_adjacency_connected(&relations, rects@);
    }
    let gaps = !relations.is_single_connected_component();
    let mut duplicate_edid = false;
    let mut k: usize = 1;
    while k < outputs.len()
        invariant_except_break
            1 <= k,
            outputs@.len() > 0 ==> k <= outputs@.len(),
            !duplicate_edid,
            forall|i: int| 0 <= i < k - 1 && i < outputs@.len() - 1 ==> (#[trigger] outputs@[i]).id@ != outputs@[i + 1].id@,
        ensures
            duplicate_edid == duplicate_ids(entry_views(outputs@)),
        decreases outputs@.len() - k,
    {
        if outputs[k].id == outputs[k - 1].id {
            duplicate_edid = true;
            assert(entry_views(outputs@)[k - 1].id == entry_views(outputs@)[k - 1 + 1].id);
            break;
        }
        k += 1;
    }
    proof {
        reveal(spec_unsupported_causes);
    }
    UnsupportedCauses { overlaps, gaps, duplicate_edid, clones: false }
}

/// A layout as the contracts see it.
pub struct LayoutView {
    pub outputs: Seq<OutputEntryView>,
    pub primary: Option<OutputIdView>,
}

/// The connected outputs of a system and where each stands: entries sorted
/// by identifier, the enabled ones with their minimum at `(0, 0)`, and the
/// primary output if there is one.
#[derive(Debug)]
pub struct Layout {
    outputs: Vec<OutputEntry>,
    primary: Option<OutputId>,
}

/// The view of an optional identifier.
pub open spec fn option_id_view(id: Option<OutputId>) -> Option<OutputIdView> {
    match id {
        Some(id) => Some(id@),
        None => None,
    }
}

impl View for Layout {
    type V = LayoutView;

    closed spec fn view(&self) -> LayoutView {
        LayoutView { outputs: entry_views(self.outputs@), primary: option_id_view(self.primary) }
    }
}

/// Where the top right corner of an enabled entry is.
pub open spec fn extent(entry: OutputEntryView) -> Vec2d<u32> {
    match entry.state.spec_rect() {
        Some(rect) => Vec2d { x: rect.right() as u32, y: rect.top() as u32 },
        None => Vec2d { x: 0u32, y: 0u32 },
    }
}

/// Component-wise maximum of the top right corners of the enabled
/// entries, and `(0, 0)` where none is enabled.
pub open spec fn bounding_size(entries: Seq<OutputEntryView>) -> Vec2d<u32>
    decreases entries.len(),
{
    if entries.len() == 0 {
        Vec2d { x: 0u32, y: 0u32 }
    } else {
        bounding_size(entries.drop_last()).spec_cwise_max(extent(entries.last()))
    }
}

/// The entries are as a layout holds them: sorted, of sizes that a
/// rectangle can hold, and with the minimum of the enabled ones at
/// `(0, 0)`.
pub open spec fn entries_canonical(entries: Seq<OutputEntryView>) -> bool {
    &&& entries_sorted(entries)
    &&& forall|i: int| 0 <= i < entries.len() ==> (#[trigger] entries[i]).state.representable()
    &&& origin(entries) == (Vec2d { x: 0i32, y: 0i32 })
}

/// The identifiers of the entries, in their order.
pub open spec fn entry_ids(entries: Seq<OutputEntryView>) -> Seq<OutputIdView> {
    Seq::new(entries.len(), |i: int| entries[i].id)
}

impl Layout {
    /// The entries are sorted and normalized, and few enough for a matrix
    /// of their relations.
    pub open spec fn wf(&self) -> bool {
        entries_canonical(self@.outputs) && pair_count(self@.outputs.len()) <= usize::MAX
    }

    /// The identifiers of the outputs, sorted.
    pub fn connected_outputs(&self) -> (res: Vec<OutputId>)
        ensures
            res@.len() == self@.outputs.len(),
            forall|i: int| 0 <= i < res@.len() ==> (#[trigger] res@[i])@ == self@.outputs[i].id,
    {
        let mut ids: Vec<OutputId> = Vec::new();
        let mut i: usize = 0;
        while i < self.outputs.len()
            invariant
                i <= self.outputs@.len(),
                ids@.len() == i,
                forall|j: int| 0 <= j < i ==> (#[trigger] ids@[j])@ == self.outputs@[j].id@,
            decreases self.outputs@.len() - i,
        {
            ids.push(self.outputs[i].id.clone());
            i += 1;
        }
        ids
    }

    /// The entries, sorted.
    pub fn output_entries(&self) -> (res: &[OutputEntry])
        ensures
            entry_views(res@) == self@.outputs,
    {
        self.outputs.as_slice()
    }

    /// The primary output, if there is one.
    pub fn primary(&self) -> (res: Option<&OutputId>)
        ensures
            match res {
                Some(id) => self@.primary == Some(id@),
                None => self@.primary.is_none(),
            },
    {
        self.primary.as_ref()
    }

    /// Whether the two layouts have the same outputs, by identifier.
    pub fn same_outputs(&self, other: &Layout) -> (res: bool)
        ensures
            res == (entry_ids(self@.outputs) == entry_ids(other@.outputs)),
    {
        if self.outputs.len() != other.outputs.len() {
            assert(entry_ids(self@.outputs).len() != entry_ids(other@.outputs).len());
            return false;
        }
        let mut i: usize = 0;
        while i < self.outputs.len()
            invariant
                i <= self.outputs@.len(),
                self.outputs@.len() == other.outputs@.len(),
                forall|j: int| 0 <= j < i ==> (#[trigger] self.outputs@[j]).id@ == other.outputs@[j].id@,
            decreases self.outputs@.len() - i,
        {
            if self.outputs[i].id != other.outputs[i].id {
                assert(entry_ids(self@.outputs)[i as int] != entry_ids(other@.outputs)[i as int]);
                return false;
            }
            i += 1;
        }
        assert(entry_ids(self@.outputs) =~= entry_ids(other@.outputs));
        true
    }

    /// Size of the smallest rectangle at `(0, 0)` that holds all the
    /// enabled outputs.
    pub fn bounding_rect_size(&self) -> (res: Vec2d<u32>)
        requires
            self.wf(),
        ensures
            res == bounding_size(self@.outputs),
    {
        let ghost views = self@.outputs;
        proof {
            lemma_min_corner(views);
        }
        let mut max = Vec2d { x: 0u32, y: 0u32 };
        let mut i: usize = 0;
        while i < self.outputs.len()
            invariant
                i <= self.outputs@.len(),
                views == entry_views(self.outputs@),
                entries_canonical(views),
                match min_corner(views) {
                    Some(m) => is_min_corner(views, m),
                    None => forall|i: int| 0 <= i < views.len() ==> !(#[trigger] views[i]).enabled(),
                },
                max == bounding_size(views.subrange(0, i as int)),
            decreases self.outputs@.len() - i,
        {
            proof {
                let upto = views.subrange(0, i + 1);
                assert(upto.drop_last() =~= views.subrange(0, i as int));
                assert(upto.last() == views[i as int]);
                assert(views[i as int].state.representable());
                if views[i as int].enabled() {
                    assert(0 <= views[i as int].corner().x && 0 <= views[i as int].corner().y);
                }
            }
            match self.outputs[i].state.rect() {
                Some(rect) => {
                    let corner = Vec2d {
                        x: rect.bottom_left.x as u32 + rect.size.x as u32,
                        y: rect.bottom_left.y as u32 + rect.size.y as u32,
                    };
                    max = max.cwise_max(corner);
                },
                None => {
                    assert(max.spec_cwise_max(Vec2d { x: 0u32, y: 0u32 }) == max);
                },
            }
            i += 1;
        }
        assert(views.subrange(0, self.outputs@.len() as int) =~= views);
        max
    }
}

impl Clone for Layout {
    fn clone(&self) -> (res: Layout)
        ensures
            res@ == self@,
    {
        let mut outputs: Vec<OutputEntry> = Vec::new();
        let mut i: usize = 0;
        while i < self.outputs.len()
            invariant
                i <= self.outputs@.len(),
                outputs@.len() == i,
                forall|j: int| 0 <= j < i ==> (#[trigger] outputs@[j])@ == self.outputs@[j]@,
            decreases self.outputs@.len() - i,
        {
            outputs.push(self.outputs[i].clone());
            i += 1;
        }
        let primary = match &self.primary {
            Some(id) => Some(id.clone()),
            None => None,
        };
        assert(entry_views(outputs@) =~= entry_views(self.outputs@));
        Layout { outputs, primary }
    }
}

impl PartialEq for Layout {
    fn eq(&self, other: &Layout) -> (res: bool) {
        if self.outputs.len() != other.outputs.len() {
            assert(self@.outputs.len() != other@.outputs.len());
            return false;
        }
        let mut i: usize = 0;
        while i < self.outputs.len()
            invariant
                i <= self.outputs@.len(),
                self.outputs@.len() == other.outputs@.len(),
                forall|j: int| 0 <= j < i ==> (#[trigger] self.outputs@[j])@ == other.outputs@[j]@,
            decreases self.outputs@.len() - i,
        {
            if self.outputs[i] != other.outputs[i] {
                assert(self@.outputs[i as int] != other@.outputs[i as int]);
                return false;
            }
            i += 1;
        }
        assert(self@.outputs =~= other@.outputs);
        match (&self.primary, &other.primary) {
            (Some(a), Some(b)) => *a == *b,
            (None, None) => true,
            _ => false,
        }
    }
}

impl Eq for Layout {

}

impl PartialEqSpecImpl for Layout {
    open spec fn obeys_eq_spec() -> bool {
        true
    }

    open spec fn eq_spec(&self, other: &Layout) -> bool {
        self@ == other@
    }
}

/// A layout together with what makes it unsupported. An unsupported layout
/// is still a layout: it has to be told from the next one.
#[derive(Debug)]
pub struct LayoutInfo {
    pub layout: Layout,
    pub unsupported_causes: UnsupportedCauses,
}

/// Moving two entries by the same vector leaves them in their order.
pub proof fn lemma_moved_back_keeps_order(a: OutputEntryView, b: OutputEntryView, delta: Vec2d<i32>)
    requires
        a.enabled() ==> i32::MIN <= a.corner().x - delta.x <= i32::MAX && i32::MIN <= a.corner().y - delta.y
            <= i32::MAX,
        b.enabled() ==> i32::MIN <= b.corner().x - delta.x <= i32::MAX && i32::MIN <= b.corner().y - delta.y
            <= i32::MAX,
    ensures
        a.moved_back(delta).precedes(b.moved_back(delta)) == a.precedes(b),
{
}

/// In entries that fit, no enabled entry is further from the origin than
/// the range of `i32`.
pub proof fn lemma_origin_in_reach(entries: Seq<OutputEntryView>, i: int)
    requires
        placement_fits(entries),
        0 <= i < entries.len(),
        entries[i].enabled(),
    ensures
        0 <= entries[i].corner().x - origin(entries).x <= i32::MAX,
        0 <= entries[i].corner().y - origin(entries).y <= i32::MAX,
{
    lemma_min_corner(entries);
    let m = min_corner(entries).unwrap();
    let ix = choose|i: int| 0 <= i < entries.len() && (#[trigger] entries[i]).enabled() && entries[i].corner().x == m.x;
    let iy = choose|i: int| 0 <= i < entries.len() && (#[trigger] entries[i]).enabled() && entries[i].corner().y == m.y;
    assert(entries[i].corner().x - entries[ix].corner().x <= i32::MAX);
    assert(entries[i].corner().y - entries[iy].corner().y <= i32::MAX);
}

/// Sorted entries that fit are canonical once normalized.
pub proof fn lemma_normalized_canonical(entries: Seq<OutputEntryView>)
    requires
        entries_sorted(entries),
        placement_fits(entries),
    ensures
        entries_canonical(normalized_entries(entries)),
        placement_fits(normalized_entries(entries)),
{
    let delta = origin(entries);
    let moved = normalized_entries(entries);
    lemma_min_corner(entries);
    assert forall|i: int, j: int| 0 <= i < j < moved.len() implies !(#[trigger] moved[j]).precedes(
        #[trigger] moved[i],
    ) by {
        if entries[i].enabled() {
            lemma_origin_in_reach(entries, i);
        }
        if entries[j].enabled() {
            lemma_origin_in_reach(entries, j);
        }
        lemma_moved_back_keeps_order(entries[j], entries[i], delta);
        assert(!entries[j].precedes(entries[i]));
    }
    assert forall|i: int| 0 <= i < moved.len() implies (#[trigger] moved[i]).state.representable() by {
        assert(entries[i].state.representable());
    }
    assert forall|i: int| 0 <= i < moved.len() && (#[trigger] moved[i]).enabled() implies moved[i].corner().x
        == entries[i].corner().x - delta.x && moved[i].corner().y == entries[i].corner().y - delta.y
        && entries[i].enabled() by {
        lemma_origin_in_reach(entries, i);
    }
    match min_corner(entries) {
        Some(m) => {
            let ix = choose|i: int|
                0 <= i < entries.len() && (#[trigger] entries[i]).enabled() && entries[i].corner().x == m.x;
            let iy = choose|i: int|
                0 <= i < entries.len() && (#[trigger] entries[i]).enabled() && entries[i].corner().y == m.y;
            lemma_origin_in_reach(entries, ix);
            lemma_origin_in_reach(entries, iy);
            let zero = Vec2d { x: 0i32, y: 0i32 };
            assert(moved[ix].enabled() && moved[ix].corner().x == 0);
            assert(moved[iy].enabled() && moved[iy].corner().y == 0);
            assert forall|i: int| 0 <= i < moved.len() && (#[trigger] moved[i]).enabled() implies zero.x
                <= moved[i].corner().x && zero.y <= moved[i].corner().y by {
                lemma_origin_in_reach(entries, i);
            }
            assert(is_min_corner(moved, zero));
            lemma_min_corner_unique(moved, zero);
        },
        None => {
            lemma_min_corner(moved);
            assert forall|i: int| 0 <= i < moved.len() implies !(#[trigger] moved[i]).enabled() by {
                assert(!entries[i].enabled());
            }
            if min_corner(moved).is_some() {
                let m = min_corner(moved).unwrap();
                let ix = choose|i: int|
                    0 <= i < moved.len() && (#[trigger] moved[i]).enabled() && moved[i].corner().x == m.x;
                assert(false);
            }
        },
    }
    assert forall|i: int, j: int|
        0 <= i < moved.len() && 0 <= j < moved.len() && (#[trigger] moved[i]).enabled()
            && (#[trigger] moved[j]).enabled() implies moved[i].corner().x - moved[j].corner().x <= i32::MAX
        && moved[i].corner().y - moved[j].corner().y <= i32::MAX by {
        lemma_origin_in_reach(entries, i);
        lemma_origin_in_reach(entries, j);
        assert(entries[i].corner().x - entries[j].corner().x <= i32::MAX);
        assert(entries[i].corner().y - entries[j].corner().y <= i32::MAX);
    }
}

/// Canonical entries are left as they are by normalization.
pub proof fn lemma_normalized_fixed(entries: Seq<OutputEntryView>)
    requires
        origin(entries) == (Vec2d { x: 0i32, y: 0i32 }),
    ensures
        normalized_entries(entries) == entries,
{
    assert(normalized_entries(entries) =~= entries);
}

/// Sorting keeps what fits: the sorted entries are the same entries.
pub proof fn lemma_sorted_fits(entries: Seq<OutputEntryView>)
    requires
        placement_fits(entries),
    ensures
        placement_fits(sorted_entries(entries)),
{
    let sorted = sorted_entries(entries);
    lemma_sorted_entries(entries);
    assert forall|i: int| 0 <= i < sorted.len() implies entries.contains(#[trigger] sorted[i]) by {
        vstd::seq_lib::to_multiset_contains(sorted, sorted[i]);
        vstd::seq_lib::to_multiset_contains(entries, sorted[i]);
        assert(sorted.contains(sorted[i]));
    }
    assert forall|i: int| 0 <= i < sorted.len() implies (#[trigger] sorted[i]).state.representable() by {
        assert(entries.contains(sorted[i]));
        let k = choose|k: int| 0 <= k < entries.len() && entries[k] == sorted[i];
        assert(entries[k].state.representable());
    }
    assert forall|i: int, j: int|
        0 <= i < sorted.len() && 0 <= j < sorted.len() && (#[trigger] sorted[i]).enabled()
            && (#[trigger] sorted[j]).enabled() implies sorted[i].corner().x - sorted[j].corner().x <= i32::MAX
        && sorted[i].corner().y - sorted[j].corner().y <= i32::MAX by {
        assert(entries.contains(sorted[i]));
        assert(entries.contains(sorted[j]));
        let k = choose|k: int| 0 <= k < entries.len() && entries[k] == sorted[i];
        let l = choose|k: int| 0 <= k < entries.len() && entries[k] == sorted[j];
        assert(entries[k].enabled() && entries[l].enabled());
        assert(entries[k].corner().x - entries[l].corner().x <= i32::MAX);
    }
}

/// What a layout holds is canonical, and a second pass of sorting and
/// normalizing leaves it as it is.
pub proof fn lemma_layout_entries_idempotent(entries: Seq<OutputEntryView>)
    requires
        placement_fits(entries),
    ensures
        entries_canonical(layout_entries(entries)),
        placement_fits(layout_entries(entries)),
        layout_entries(layout_entries(entries)) == layout_entries(entries),
        layout_entries(entries).len() == entries.len(),
{
    lemma_sorted_entries(entries);
    lemma_sorted_fits(entries);
    let sorted = sorted_entries(entries);
    lemma_normalized_canonical(sorted);
    let held = layout_entries(entries);
    lemma_sorted_entries_fixed(held);
    lemma_normalized_fixed(held);
}

impl LayoutInfo {
    /// The layout of the entries `outputs`, with what makes it
    /// unsupported: the entries are sorted, then normalized, then
    /// classified. `primary` is taken as it is: that it names an enabled
    /// entry is left to the caller.
    pub fn from(outputs: Vec<OutputEntry>, primary: Option<OutputId>) -> (res: LayoutInfo)
        requires
            placement_fits(entry_views(outputs@)),
            pair_count(outputs@.len()) <= usize::MAX,
        ensures
            res.layout.wf(),
            res.layout@.outputs == layout_entries(entry_views(outputs@)),
            res.layout@.primary == option_id_view(primary),
            res.unsupported_causes == spec_unsupported_causes(res.layout@.outputs),
    {
        let ghost given = entry_views(outputs@);
        let mut outputs = sort_entries(outputs);
        proof {
            lemma_sorted_entries(given);
            lemma_sorted_fits(given);
            lemma_layout_entries_idempotent(given);
        }
        normalize_bottom_left_coordinates(&mut outputs);
        assert(entry_views(outputs@) == layout_entries(given));
        assert forall|i: int| 0 <= i < outputs@.len() implies (#[trigger] outputs@[i]).state.representable() by {
            assert(entry_views(outputs@)[i].state.representable());
        }
        let unsupported_causes = check_entries_for_unsupported_causes(&outputs);
        LayoutInfo { layout: Layout { outputs, primary }, unsupported_causes }
    }
}

/// Whether a matrix over `n` elements can be held: the number of pairs
/// among them fits `usize`.
pub fn pairs_fit(n: usize) -> (res: bool)
    ensures
        res == (pair_count(n as nat) <= usize::MAX),
{
    proof {
        lemma_pair_count_closed_form(n as nat);
    }
    if n == 0 {
        return true;
    }
    let wide: u128 = n as u128;
    assert(wide * (wide - 1) <= 0xFFFF_FFFF_FFFF_FFFF * 0xFFFF_FFFF_FFFF_FFFF) by (nonlinear_arith)
        requires
            1 <= wide <= 0xFFFF_FFFF_FFFF_FFFF,
    ;
    wide * (wide - 1) / 2 <= usize::MAX as u128
}

/// Whether the entries can be made a layout: each mode has a size that a
/// rectangle can hold, no two enabled entries are further apart than the
/// range of `i32`, and the number of pairs of entries fits `usize`.
pub fn entries_fit(outputs: &Vec<OutputEntry>) -> (res: bool)
    ensures
        res == (placement_fits(entry_views(outputs@)) && pair_count(outputs@.len()) <= usize::MAX),
{
    let ghost views = entry_views(outputs@);
    if !pairs_fit(outputs.len()) {
        return false;
    }
    // The lowest and the highest place of an enabled entry, on each axis,
    // with the entries that have them.
    let mut low = Vec2d { x: 0i32, y: 0i32 };
    let mut high = Vec2d { x: 0i32, y: 0i32 };
    let mut any = false;
    let ghost mut low_x: int = 0;
    let ghost mut low_y: int = 0;
    let ghost mut high_x: int = 0;
    let ghost mut high_y: int = 0;
    let mut i: usize = 0;
    while i < outputs.len()
        invariant
            i <= outputs@.len(),
            views == entry_views(outputs@),
            forall|j: int| 0 <= j < i ==> (#[trigger] views[j]).state.representable(),
            any == (exists|j: int| 0 <= j < i && (#[trigger] views[j]).enabled()),
            forall|j: int|
                0 <= j < i && (#[trigger] views[j]).enabled() ==> low.x <= views[j].corner().x <= high.x && low.y
                    <= views[j].corner().y <= high.y,
            any ==> 0 <= low_x < i && views[low_x].enabled() && views[low_x].corner().x == low.x,
            any ==> 0 <= low_y < i && views[low_y].enabled() && views[low_y].corner().y == low.y,
            any ==> 0 <= high_x < i && views[high_x].enabled() && views[high_x].corner().x == high.x,
            any ==> 0 <= high_y < i && views[high_y].enabled() && views[high_y].corner().y == high.y,
        decreases outputs@.len() - i,
    {
        assert(views[i as int] == outputs@[i as int]@);
        match &outputs[i].state {
            OutputState::Enabled { mode, bottom_left, .. } => {
                if mode.size.x > i32::MAX as u32 || mode.size.y > i32::MAX as u32 {
                    assert(!views[i as int].state.representable());
                    return false;
                }
                if !any || bottom_left.x < low.x {
                    low.x = bottom_left.x;
                    proof {
                        low_x = i as int;
                    }
                }
                if !any || bottom_left.y < low.y {
                    low.y = bottom_left.y;
                    proof {
                        low_y = i as int;
                    }
                }
                if !any || bottom_left.x > high.x {
                    high.x = bottom_left.x;
                    proof {
                        high_x = i as int;
                    }
                }
                if !any || bottom_left.y > high.y {
                    high.y = bottom_left.y;
                    proof {
                        high_y = i as int;
                    }
                }
                any = true;
                assert(views[i as int].enabled());
            },
            OutputState::Disabled => {},
        }
        i += 1;
    }
    if !any {
        return true;
    }
    let fits = high.x as i64 - low.x as i64 <= i32::MAX as i64 && high.y as i64 - low.y as i64 <= i32::MAX as i64;
    proof {
        if fits {
            assert forall|i: int, j: int|
                0 <= i < views.len() && 0 <= j < views.len() && (#[trigger] views[i]).enabled()
                    && (#[trigger] views[j]).enabled() implies views[i].corner().x - views[j].corner().x
                <= i32::MAX && views[i].corner().y - views[j].corner().y <= i32::MAX by {}
        } else {
            if high.x - low.x > i32::MAX {
                assert(views[high_x].corner().x - views[low_x].corner().x > i32::MAX);
            } else {
                assert(views[high_y].corner().y - views[low_y].corner().y > i32::MAX);
            }
        }
    }
    fits
}

/// Why stored entries are no layout.
#[derive(Clone, Copy, Debug, PartialEq, Eq, Structural)]
pub enum StoredLayoutError {
    /// The entries are too many or too far apart to be a layout at all.
    OutOfRange,
    /// The entries make a layout that is not supported.
    Unsupported(UnsupportedCauses),
}

impl LayoutInfo {
    /// The layout of the entries, or `None` where they are too many or too
    /// far apart to be one.
    pub fn checked_from(outputs: Vec<OutputEntry>, primary: Option<OutputId>) -> (res: Option<LayoutInfo>)
        ensures
            res.is_some() == (placement_fits(entry_views(outputs@)) && pair_count(outputs@.len()) <= usize::MAX),
            match res {
                Some(info) => {
                    &&& info.layout.wf()
                    &&& info.layout@.outputs == layout_entries(entry_views(outputs@))
                    &&& info.layout@.primary == option_id_view(primary)
                    &&& info.unsupported_causes == spec_unsupported_causes(info.layout@.outputs)
                },
                None => true,
            },
    {
        if entries_fit(&outputs) {
            Some(LayoutInfo::from(outputs, primary))
        } else {
            None
        }
    }

    /// The layout of a copy of the entries, with what makes it
    /// unsupported.
    pub fn from_iter(entries: &[OutputEntry], primary: Option<OutputId>) -> (res: LayoutInfo)
        requires
            placement_fits(entry_views(entries@)),
            pair_count(entries@.len()) <= usize::MAX,
        ensures
            res.layout.wf(),
            res.layout@.outputs == layout_entries(entry_views(entries@)),
            res.layout@.primary == option_id_view(primary),
            res.unsupported_causes == spec_unsupported_causes(res.layout@.outputs),
    {
        let mut outputs: Vec<OutputEntry> = Vec::new();
        let mut i: usize = 0;
        while i < entries.len()
            invariant
                i <= entries@.len(),
                outputs@.len() == i,
                forall|j: int| 0 <= j < i ==> (#[trigger] outputs@[j])@ == entries@[j]@,
            decreases entries@.len() - i,
        {
            outputs.push(entries[i].clone());
            i += 1;
        }
        assert(entry_views(outputs@) =~= entry_views(entries@));
        LayoutInfo::from(outputs, primary)
    }
}

impl Layout {
    /// The layout of entries that come from a store. They are sorted,
    /// normalized and classified as any entries are, and only a supported
    /// layout is accepted.
    pub fn from_stored(outputs: Vec<OutputEntry>, primary: Option<OutputId>) -> (res: Result<
        Layout,
        StoredLayoutError,
    >)
        ensures
            match res {
                Ok(layout) => {
                    &&& placement_fits(entry_views(outputs@))
                    &&& pair_count(outputs@.len()) <= usize::MAX
                    &&& layout.wf()
                    &&& layout@.outputs == layout_entries(entry_views(outputs@))
                    &&& layout@.primary == option_id_view(primary)
                    &&& spec_unsupported_causes(layout@.outputs) == UnsupportedCauses::spec_empty()
                },
                Err(StoredLayoutError::OutOfRange) => !(placement_fits(entry_views(outputs@)) && pair_count(
                    outputs@.len(),
                ) <= usize::MAX),
                Err(StoredLayoutError::Unsupported(causes)) => {
                    &&& placement_fits(entry_views(outputs@))
                    &&& pair_count(outputs@.len()) <= usize::MAX
                    &&& causes == spec_unsupported_causes(layout_entries(entry_views(outputs@)))
                    &&& causes != UnsupportedCauses::spec_empty()
                },
            },
    {
        match LayoutInfo::checked_from(outputs, primary) {
            None => Err(StoredLayoutError::OutOfRange),
            Some(info) => {
                if info.unsupported_causes.is_empty() {
                    Ok(info.layout)
                } else {
                    Err(StoredLayoutError::Unsupported(info.unsupported_causes))
                }
            },
        }
    }
}

/// The transforms of the enabled entries, in the order of the entries.
pub open spec fn enabled_transforms(entries: Seq<OutputEntryView>) -> Seq<Transform>
    decreases entries.len(),
{
    if entries.len() == 0 {
        Seq::empty()
    } else {
        let before = enabled_transforms(entries.drop_last());
        match entries.last().state {
            OutputState::Enabled { transform, .. } => before.push(transform),
            OutputState::Disabled => before,
        }
    }
}

/// The modes of the enabled entries, in the order of the entries.
pub open spec fn enabled_modes(entries: Seq<OutputEntryView>) -> Seq<Mode>
    decreases entries.len(),
{
    if entries.len() == 0 {
        Seq::empty()
    } else {
        let before = enabled_modes(entries.drop_last());
        match entries.last().state {
            OutputState::Enabled { mode, .. } => before.push(mode),
            OutputState::Disabled => before,
        }
    }
}

/// The places of the enabled entries, in the order of the entries.
pub open spec fn enabled_corners(entries: Seq<OutputEntryView>) -> Seq<Vec2d<i32>>
    decreases entries.len(),
{
    if entries.len() == 0 {
        Seq::empty()
    } else {
        let before = enabled_corners(entries.drop_last());
        match entries.last().state {
            OutputState::Enabled { bottom_left, .. } => before.push(bottom_left),
            OutputState::Disabled => before,
        }
    }
}

/// Number of enabled entries among the first `upto`.
pub open spec fn enabled_count(entries: Seq<OutputEntryView>, upto: int) -> int {
    enabled_rects(entries.subrange(0, upto)).len() as int
}

/// The entries with the enabled ones put at `corners`, the first enabled
/// entry at the first corner and so on.
pub open spec fn entries_placed(entries: Seq<OutputEntryView>, corners: Seq<Vec2d<i32>>) -> Seq<OutputEntryView> {
    Seq::new(
        entries.len(),
        |i: int|
            match entries[i].state {
                OutputState::Enabled { mode, transform, .. } => OutputEntryView {
                    id: entries[i].id,
                    state: OutputState::Enabled { mode, transform, bottom_left: corners[enabled_count(entries, i)] },
                },
                OutputState::Disabled => entries[i],
            },
    )
}

/// Relations of `n` elements in a row: each is on the left of the next,
/// and there is no other relation.
pub fn chain_relations(n: usize) -> (res: RelationMatrix<Direction>)
    requires
        pair_count(n as nat) <= usize::MAX,
    ensures
        res.wf(),
        res.spec_size() == n,
        forall|i: int, j: int|
            0 <= i < j < n ==> #[trigger] res.spec_get(i, j) == (if j == i + 1 {
                Some(Direction::LeftOf)
            } else {
                None
            }),
{
    let mut relations: RelationMatrix<Direction> = RelationMatrix::new(n);
    let mut k: usize = 1;
    while k < n
        invariant
            1 <= k,
            n > 0 ==> k <= n,
            relations.wf(),
            relations.spec_size() == n,
            forall|i: int, j: int|
                0 <= i < j < n ==> #[trigger] relations.spec_get(i, j) == (if j == i + 1 && j < k {
                    Some(Direction::LeftOf)
                } else {
                    None
                }),
        decreases n - k,
    {
        relations.set(k - 1, k, Some(Direction::LeftOf));
        k += 1;
    }
    relations
}

impl Layout {
    /// The rectangles of the enabled outputs, in the order of the entries.
    pub fn enabled_rects(&self) -> (res: Vec<Rect>)
        requires
            self.wf(),
        ensures
            res@ == enabled_rects(self@.outputs),
            res@.len() <= self@.outputs.len(),
    {
        assert forall|i: int| 0 <= i < self.outputs@.len() implies (#[trigger] self.outputs@[i]).state.representable() by {
            assert(self@.outputs[i].state.representable());
        }
        rects_of(&self.outputs)
    }

    /// The relations of the enabled outputs: for each pair the direction in
    /// which the first is adjacent to the second, if it is.
    pub fn relations(&self) -> (res: RelationMatrix<Direction>)
        requires
            self.wf(),
        ensures
            holds_adjacency(&res, enabled_rects(self@.outputs)),
    {
        let rects = self.enabled_rects();
        proof {
            lemma_pair_count_monotonic(rects@.len(), self@.outputs.len());
        }
        let (relations, _) = adjacency_of(&rects);
        relations
    }

    /// The transforms of the enabled outputs, in the order of the entries.
    pub fn enabled_transforms(&self) -> (res: Vec<Transform>)
        ensures
            res@ == enabled_transforms(self@.outputs),
            res@.len() <= self@.outputs.len(),
    {
        let ghost views = self@.outputs;
        let mut transforms: Vec<Transform> = Vec::new();
        let mut i: usize = 0;
        while i < self.outputs.len()
            invariant
                i <= self.outputs@.len(),
                views == entry_views(self.outputs@),
                transforms@ == enabled_transforms(views.subrange(0, i as int)),
                transforms@.len() <= i,
            decreases self.outputs@.len() - i,
        {
            proof {
                let upto = views.subrange(0, i + 1);
                assert(upto.drop_last() =~= views.subrange(0, i as int));
                assert(upto.last() == self.outputs@[i as int]@);
            }
            match &self.outputs[i].state {
                OutputState::Enabled { transform, .. } => {
                    transforms.push(*transform);
                },
                OutputState::Disabled => {},
            }
            i += 1;
        }
        assert(views.subrange(0, self.outputs@.len() as int) =~= views);
        transforms
    }

    /// The mode, the transform and the place of each enabled output, in the
    /// order of the entries.
    pub fn enabled_states(&self) -> (res: Vec<(Mode, Transform, Vec2d<i32>)>)
        ensures
            res@.len() == enabled_transforms(self@.outputs).len(),
            res@.len() == enabled_modes(self@.outputs).len(),
            res@.len() == enabled_corners(self@.outputs).len(),
            res@.len() <= self@.outputs.len(),
            forall|k: int|
                0 <= k < res@.len() ==> (#[trigger] res@[k]).0 == enabled_modes(self@.outputs)[k] && res@[k].1
                    == enabled_transforms(self@.outputs)[k] && res@[k].2 == enabled_corners(self@.outputs)[k],
    {
        let ghost views = self@.outputs;
        let mut states: Vec<(Mode, Transform, Vec2d<i32>)> = Vec::new();
        let mut i: usize = 0;
        while i < self.outputs.len()
            invariant
                i <= self.outputs@.len(),
                views == entry_views(self.outputs@),
                states@.len() <= i,
                states@.len() == enabled_transforms(views.subrange(0, i as int)).len(),
                states@.len() == enabled_modes(views.subrange(0, i as int)).len(),
                states@.len() == enabled_corners(views.subrange(0, i as int)).len(),
                forall|k: int|
                    0 <= k < states@.len() ==> (#[trigger] states@[k]).0 == enabled_modes(
                        views.subrange(0, i as int),
                    )[k] && states@[k].1 == enabled_transforms(views.subrange(0, i as int))[k] && states@[k].2
                        == enabled_corners(views.subrange(0, i as int))[k],
            decreases self.outputs@.len() - i,
        {
            proof {
                let upto = views.subrange(0, i + 1);
                assert(upto.drop_last() =~= views.subrange(0, i as int));
                assert(upto.last() == self.outputs@[i as int]@);
            }
            match &self.outputs[i].state {
                OutputState::Enabled { mode, transform, bottom_left } => {
                    states.push((*mode, *transform, *bottom_left));
                },
                OutputState::Disabled => {},
            }
            i += 1;
        }
        assert(views.subrange(0, self.outputs@.len() as int) =~= views);
        states
    }

    /// The layout with its enabled outputs put at `corners`, the first
    /// enabled output at the first corner and so on; `None` where the
    /// corners are too far apart to make a layout.
    pub fn placed(&self, corners: &[Vec2d<i32>]) -> (res: Option<LayoutInfo>)
        requires
            corners@.len() == enabled_rects(self@.outputs).len(),
        ensures
            res.is_some() == (placement_fits(entries_placed(self@.outputs, corners@)) && pair_count(
                self@.outputs.len(),
            ) <= usize::MAX),
            match res {
                Some(info) => {
                    &&& info.layout.wf()
                    &&& info.layout@.outputs == layout_entries(entries_placed(self@.outputs, corners@))
                    &&& info.layout@.primary == self@.primary
                    &&& info.unsupported_causes == spec_unsupported_causes(info.layout@.outputs)
                },
                None => true,
            },
    {
        let ghost views = self@.outputs;
        let ghost target = entries_placed(views, corners@);
        let mut outputs: Vec<OutputEntry> = Vec::new();
        let mut placed: usize = 0;
        let mut i: usize = 0;
        assert(views.subrange(0, 0) =~= Seq::<OutputEntryView>::empty());
        while i < self.outputs.len()
            invariant
                i <= self.outputs@.len(),
                views == entry_views(self.outputs@),
                target == entries_placed(views, corners@),
                corners@.len() == enabled_rects(views).len(),
                placed == enabled_count(views, i as int),
                outputs@.len() == i,
                forall|j: int| 0 <= j < i ==> (#[trigger] outputs@[j])@ == target[j],
            decreases self.outputs@.len() - i,
        {
            proof {
                let upto = views.subrange(0, i + 1);
                assert(upto.drop_last() =~= views.subrange(0, i as int));
                assert(upto.last() == views[i as int]);
                assert(views[i as int] == self.outputs@[i as int]@);
                lemma_enabled_count_bound(views, i + 1);
            }
            let entry = &self.outputs[i];
            match &entry.state {
                OutputState::Enabled { mode, transform, .. } => {
                    outputs.push(
                        OutputEntry {
                            id: entry.id.clone(),
                            state: OutputState::Enabled {
                                mode: *mode,
                                transform: *transform,
                                bottom_left: corners[placed],
                            },
                        },
                    );
                    placed += 1;
                },
                OutputState::Disabled => {
                    outputs.push(entry.clone());
                },
            }
            i += 1;
        }
        assert(entry_views(outputs@) =~= target);
        let primary = match &self.primary {
            Some(id) => Some(id.clone()),
            None => None,
        };
        LayoutInfo::checked_from(outputs, primary)
    }
}

/// No more entries are enabled among some than among all.
pub proof fn lemma_enabled_count_bound(entries: Seq<OutputEntryView>, upto: int)
    requires
        0 <= upto <= entries.len(),
    ensures
        0 <= enabled_count(entries, upto) <= enabled_rects(entries).len(),
        enabled_count(entries, upto) <= upto,
    decreases entries.len() - upto,
{
    lemma_enabled_rects_len(entries.subrange(0, upto));
    if upto == entries.len() {
        assert(entries.subrange(0, upto) =~= entries);
    } else {
        lemma_enabled_count_bound(entries, upto + 1);
        let longer = entries.subrange(0, upto + 1);
        assert(longer.drop_last() =~= entries.subrange(0, upto));
    }
}

/// There are no more rectangles than entries.
pub proof fn lemma_enabled_rects_len(entries: Seq<OutputEntryView>)
    ensures
        enabled_rects(entries).len() <= entries.len(),
    decreases entries.len(),
{
    if entries.len() > 0 {
        lemma_enabled_rects_len(entries.drop_last());
    }
}

/// There are as many rectangles as transforms: one of each for each
/// enabled entry.
pub proof fn lemma_enabled_shapes(entries: Seq<OutputEntryView>)
    ensures
        enabled_rects(entries).len() == enabled_transforms(entries).len(),
    decreases entries.len(),
{
    if entries.len() > 0 {
        lemma_enabled_shapes(entries.drop_last());
    }
}

} // verus!
