//! The store of known layouts, keyed by the outputs that they arrange.

use crate::layout::{
    entries_canonical, entry_ids, entry_views, layout_entries, lemma_min_corner, lemma_normalized_fixed,
    lemma_sorted_entries_fixed, min_corner, option_id_view, placement_fits, spec_unsupported_causes, Layout,
    LayoutView, OutputEntry, OutputEntryView, OutputId, OutputIdView, StoredLayoutError, UnsupportedCauses,
};
use vstd::prelude::*;
use vstd::std_specs::cmp::PartialEqSpecImpl;

verus! {

/// The key of a layout in the store: the identifiers of its outputs, in
/// their order.
pub open spec fn layout_key(layout: LayoutView) -> Seq<OutputIdView> {
    entry_ids(layout.outputs)
}

/// A layout taken by its key: two of them are equal where they arrange
/// the same outputs, wherever they put them.
#[derive(Debug)]
pub struct LayoutById(pub Layout);

impl PartialEq for LayoutById {
    fn eq(&self, other: &LayoutById) -> (res: bool) {
        self.0.same_outputs(&other.0)
    }
}

impl Eq for LayoutById {

}

impl PartialEqSpecImpl for LayoutById {
    open spec fn obeys_eq_spec() -> bool {
        true
    }

    open spec fn eq_spec(&self, other: &LayoutById) -> bool {
        layout_key(self.0@) == layout_key(other.0@)
    }
}

/// A layout as it is written to the store.
#[derive(Debug)]
pub struct StoredLayout {
    pub outputs: Vec<OutputEntry>,
    pub primary: Option<OutputId>,
}

/// The layout that the entries `given` make with the primary output
/// `primary`, if they make a supported one: they are sorted, normalized
/// and classified, and accepted where nothing makes them unsupported.
pub open spec fn accepted_layout(given: Seq<OutputEntryView>, primary: Option<OutputIdView>) -> Option<LayoutView> {
    if placement_fits(given) && crate::relation::pair_count(given.len()) <= usize::MAX && spec_unsupported_causes(
        layout_entries(given),
    ) == UnsupportedCauses::spec_empty() {
        Some(LayoutView { outputs: layout_entries(given), primary })
    } else {
        None
    }
}

impl StoredLayout {
    /// The layout that the record makes, if it makes a supported one.
    pub open spec fn accepted(&self) -> Option<LayoutView> {
        accepted_layout(entry_views(self.outputs@), option_id_view(self.primary))
    }
}

/// The layouts that the first `upto` records make, by key: of two records
/// with the same key the first stays.
pub open spec fn loaded_upto(records: Seq<StoredLayout>, upto: int) -> Map<Seq<OutputIdView>, LayoutView>
    decreases upto,
{
    if upto <= 0 {
        Map::empty()
    } else {
        let before = loaded_upto(records, upto - 1);
        match records[upto - 1].accepted() {
            Some(layout) => if before.dom().contains(layout_key(layout)) {
                before
            } else {
                before.insert(layout_key(layout), layout)
            },
            None => before,
        }
    }
}

/// The known layouts, one for each set of connected outputs.
#[derive(Debug)]
pub struct Database {
    layouts: Vec<Layout>,
}

impl View for Database {
    type V = Map<Seq<OutputIdView>, LayoutView>;

    closed spec fn view(&self) -> Map<Seq<OutputIdView>, LayoutView> {
        Map::new(
            |key: Seq<OutputIdView>| self.position(key).is_some(),
            |key: Seq<OutputIdView>| self.layouts@[self.position(key).unwrap()]@,
        )
    }
}

impl Database {
    /// Where the layout of the key `key` is held, if it is.
    closed spec fn position(&self, key: Seq<OutputIdView>) -> Option<int> {
        if exists|i: int| 0 <= i < self.layouts@.len() && layout_key(#[trigger] self.layouts@[i]@) == key {
            Some(choose|i: int| 0 <= i < self.layouts@.len() && layout_key(#[trigger] self.layouts@[i]@) == key)
        } else {
            None
        }
    }

    /// No two layouts have the same key, and each is sorted and
    /// normalized.
    pub closed spec fn wf(&self) -> bool {
        &&& forall|i: int, j: int|
            0 <= i < j < self.layouts@.len() ==> layout_key(#[trigger] self.layouts@[i]@) != layout_key(
                #[trigger] self.layouts@[j]@,
            )
        &&& forall|i: int| 0 <= i < self.layouts@.len() ==> (#[trigger] self.layouts@[i]).wf()
    }

    proof fn lemma_position(&self, i: int)
        requires
            self.wf(),
            0 <= i < self.layouts@.len(),
        ensures
            self.position(layout_key(self.layouts@[i]@)) == Some(i),
    {
        let key = layout_key(self.layouts@[i]@);
        let j = choose|j: int| 0 <= j < self.layouts@.len() && layout_key(#[trigger] self.layouts@[j]@) == key;
        if j < i {
            assert(layout_key(self.layouts@[j]@) != layout_key(self.layouts@[i]@));
        } else if i < j {
            assert(layout_key(self.layouts@[i]@) != layout_key(self.layouts@[j]@));
        }
    }

    /// A store with no layout.
    pub fn new() -> (res: Database)
        ensures
            res.wf(),
            res@ == Map::<Seq<OutputIdView>, LayoutView>::empty(),
    {
        let res = Database { layouts: Vec::new() };
        assert(res@ =~= Map::<Seq<OutputIdView>, LayoutView>::empty());
        res
    }

    /// Index of the layout with the outputs of `layout`, if one is held.
    fn find(&self, layout: &Layout) -> (res: Option<usize>)
        requires
            self.wf(),
        ensures
            match res {
                Some(i) => i < self.layouts@.len() && self.position(layout_key(layout@)) == Some(i as int),
                None => self.position(layout_key(layout@)).is_none(),
            },
    {
        let mut i: usize = 0;
        while i < self.layouts.len()
            invariant
                self.wf(),
                i <= self.layouts@.len(),
                forall|j: int| 0 <= j < i ==> layout_key(#[trigger] self.layouts@[j]@) != layout_key(layout@),
            decreases self.layouts@.len() - i,
        {
            if self.layouts[i].same_outputs(layout) {
                proof {
                    self.lemma_position(i as int);
                }
                return Some(i);
            }
            i += 1;
        }
        None
    }

    /// Stores a layout in place of the one for the same outputs, if there
    /// is one.
    pub fn store_layout(&mut self, layout: Layout)
        requires
            old(self).wf(),
            layout.wf(),
        ensures
            final(self).wf(),
            final(self)@ == old(self)@.insert(layout_key(layout@), layout@),
    {
        let ghost key = layout_key(layout@);
        let ghost stored = layout@;
        match self.find(&layout) {
            Some(i) => {
                self.layouts[i] = layout;
                proof {
                    assert forall|a: int, b: int| 0 <= a < b < self.layouts@.len() implies layout_key(
                        #[trigger] self.layouts@[a]@,
                    ) != layout_key(#[trigger] self.layouts@[b]@) by {
                        if a != i {
                            assert(self.layouts@[a] == old(self).layouts@[a]);
                        }
                        if b != i {
                            assert(self.layouts@[b] == old(self).layouts@[b]);
                        }
                        assert(layout_key(old(self).layouts@[a]@) != layout_key(old(self).layouts@[b]@));
                    }
                    assert forall|k: Seq<OutputIdView>| #[trigger]
                        self@.dom().contains(k) == old(self)@.insert(key, stored).dom().contains(k) && (
                        self@.dom().contains(k) ==> self@[k] == old(self)@.insert(key, stored)[k]) by {
                        if k == key {
                            self.lemma_position(i as int);
                        } else {
                            if old(self).position(k).is_some() {
                                let j = old(self).position(k).unwrap();
                                assert(self.layouts@[j] == old(self).layouts@[j]);
                                self.lemma_position(j);
                            }
                            if self.position(k).is_some() {
                                let j = self.position(k).unwrap();
                                assert(self.layouts@[j] == old(self).layouts@[j]);
                                old(self).lemma_position(j);
                            }
                        }
                    }
                    assert(self@ =~= old(self)@.insert(key, stored));
                }
            },
            None => {
                self.layouts.push(layout);
                proof {
                    let n = old(self).layouts@.len() as int;
                    assert forall|a: int, b: int| 0 <= a < b < self.layouts@.len() implies layout_key(
                        #[trigger] self.layouts@[a]@,
                    ) != layout_key(#[trigger] self.layouts@[b]@) by {
                        assert(self.layouts@[a] == old(self).layouts@[a]);
                        if b < n {
                            assert(self.layouts@[b] == old(self).layouts@[b]);
                            assert(layout_key(old(self).layouts@[a]@) != layout_key(old(self).layouts@[b]@));
                        } else {
                            if layout_key(old(self).layouts@[a]@) == key {
                                assert(old(self).position(key).is_some());
                            }
                        }
                    }
                    assert forall|k: Seq<OutputIdView>| #[trigger]
                        self@.dom().contains(k) == old(self)@.insert(key, stored).dom().contains(k) && (
                        self@.dom().contains(k) ==> self@[k] == old(self)@.insert(key, stored)[k]) by {
                        if k == key {
                            self.lemma_position(n);
                        } else {
                            if old(self).position(k).is_some() {
                                let j = old(self).position(k).unwrap();
                                assert(self.layouts@[j] == old(self).layouts@[j]);
                                self.lemma_position(j);
                            }
                            if self.position(k).is_some() {
                                let j = self.position(k).unwrap();
                                assert(self.layouts@[j] == old(self).layouts@[j]);
                                old(self).lemma_position(j);
                            }
                        }
                    }
                    assert(self@ =~= old(self)@.insert(key, stored));
                }
            },
        }
    }

    /// The layout stored for the outputs of `output_ids`, if there is one.
    pub fn get_layout(&self, output_ids: &LayoutById) -> (res: Option<&Layout>)
        requires
            self.wf(),
        ensures
            match res {
                Some(layout) => self@.dom().contains(layout_key(output_ids.0@)) && layout@ == self@[layout_key(
                    output_ids.0@,
                )] && layout.wf(),
                None => !self@.dom().contains(layout_key(output_ids.0@)),
            },
    {
        match self.find(&output_ids.0) {
            Some(i) => Some(&self.layouts[i]),
            None => None,
        }
    }

    /// The layouts of the store, in no order that callers may rely on.
    pub fn layouts(&self) -> (res: &[Layout])
        requires
            self.wf(),
        ensures
            forall|i: int|
                0 <= i < res@.len() ==> self@.dom().contains(layout_key(#[trigger] res@[i]@)) && self@[layout_key(
                    res@[i]@,
                )] == res@[i]@,
            forall|key: Seq<OutputIdView>|
                self@.dom().contains(key) ==> exists|i: int|
                    0 <= i < res@.len() && layout_key(#[trigger] res@[i]@) == key,
    {
        proof {
            assert forall|i: int| 0 <= i < self.layouts@.len() implies self@.dom().contains(
                layout_key(#[trigger] self.layouts@[i]@),
            ) && self@[layout_key(self.layouts@[i]@)] == self.layouts@[i]@ by {
                self.lemma_position(i);
            }
        }
        self.layouts.as_slice()
    }
}

impl StoredLayout {
    /// Why the record makes no supported layout, if it makes none.
    pub open spec fn rejection(&self) -> Option<StoredLayoutError> {
        let given = entry_views(self.outputs@);
        if !(placement_fits(given) && crate::relation::pair_count(given.len()) <= usize::MAX) {
            Some(StoredLayoutError::OutOfRange)
        } else if spec_unsupported_causes(layout_entries(given)) != UnsupportedCauses::spec_empty() {
            Some(StoredLayoutError::Unsupported(spec_unsupported_causes(layout_entries(given))))
        } else {
            None
        }
    }

    /// The layout that the record makes: its entries sorted, normalized
    /// and classified, and accepted only where the layout is supported.
    pub fn to_layout(&self) -> (res: Result<Layout, StoredLayoutError>)
        ensures
            match res {
                Ok(layout) => self.accepted() == Some(layout@) && layout.wf() && self.rejection().is_none(),
                Err(e) => self.accepted().is_none() && self.rejection() == Some(e),
            },
    {
        let mut outputs: Vec<OutputEntry> = Vec::new();
        let mut i: usize = 0;
        while i < self.outputs.len()
            invariant
                i <= self.outputs@.len(),
                outputs@.len() == i,
                forall|j: int| 0 <= j < i ==> (#[trigger] outputs@[j])@ == self.outputs@[j]@,
            decreases self.outputs@.len() - i,
        {
            outputs.push(self.outputs[i].clone());
            i += 1;
        }
        assert(entry_views(outputs@) =~= entry_views(self.outputs@));
        let primary = match &self.primary {
            Some(id) => Some(id.clone()),
            None => None,
        };
        Layout::from_stored(outputs, primary)
    }
}

/// Index of the first record that makes no supported layout, if there is
/// one among the first `upto`.
pub open spec fn first_rejected(records: Seq<StoredLayout>, upto: int) -> Option<int>
    decreases upto,
{
    if upto <= 0 {
        None
    } else {
        match first_rejected(records, upto - 1) {
            Some(i) => Some(i),
            None => if records[upto - 1].rejection().is_some() {
                Some(upto - 1)
            } else {
                None
            },
        }
    }
}

impl Database {
    /// The store that a file gives. Without a file, `None`, the store is
    /// empty. With one, every record has to make a supported layout once
    /// it has been sorted, normalized and classified again: the first that
    /// does not fails the whole. Of two records for the same outputs the
    /// first stays.
    pub fn load_or_empty(stored: Option<Vec<StoredLayout>>) -> (res: Result<Database, StoredLayoutError>)
        ensures
            match stored {
                None => res.is_ok() && res.unwrap()@ == Map::<Seq<OutputIdView>, LayoutView>::empty(),
                Some(records) => match first_rejected(records@, records@.len() as int) {
                    Some(i) => res == Err::<Database, StoredLayoutError>(records@[i].rejection().unwrap()),
                    None => res.is_ok() && res.unwrap()@ == loaded_upto(records@, records@.len() as int),
                },
            },
            res.is_ok() ==> res.unwrap().wf(),
    {
        let mut database = Database::new();
        let records = match stored {
            Some(records) => records,
            None => {
                return Ok(database);
            },
        };
        let mut i: usize = 0;
        while i < records.len()
            invariant
                stored == Some(records),
                i <= records@.len(),
                database.wf(),
                first_rejected(records@, i as int).is_none(),
                database@ == loaded_upto(records@, i as int),
            decreases records@.len() - i,
        {
            match records[i].to_layout() {
                Ok(layout) => {
                    if database.find(&layout).is_none() {
                        database.store_layout(layout);
                    }
                },
                Err(e) => {
                    proof {
                        lemma_first_rejected_stays(records@, i + 1, records@.len() as int);
                    }
                    return Err(e);
                },
            }
            i += 1;
        }
        Ok(database)
    }
}

/// The first record that is rejected among some is the first among more.
pub proof fn lemma_first_rejected_stays(records: Seq<StoredLayout>, upto: int, later: int)
    requires
        0 <= upto <= later,
        first_rejected(records, upto).is_some(),
    ensures
        first_rejected(records, later) == first_rejected(records, upto),
    decreases later,
{
    if upto < later {
        lemma_first_rejected_stays(records, upto, later - 1);
    }
}

/// What was stored for some outputs is what is found for them.
pub proof fn lemma_stored_is_found(before: Map<Seq<OutputIdView>, LayoutView>, layout: LayoutView)
    ensures
        before.insert(layout_key(layout), layout).dom().contains(layout_key(layout)),
        before.insert(layout_key(layout), layout)[layout_key(layout)] == layout,
{
}

/// A supported layout written as a record is read as that layout. What a
/// layout holds is canonical, so that sorting and normalizing it again
/// changes nothing.
pub proof fn lemma_record_round_trip(layout: LayoutView)
    requires
        entries_canonical(layout.outputs),
        crate::relation::pair_count(layout.outputs.len()) <= usize::MAX,
        spec_unsupported_causes(layout.outputs) == UnsupportedCauses::spec_empty(),
    ensures
        accepted_layout(layout.outputs, layout.primary) == Some(layout),
{
    let entries = layout.outputs;
    lemma_min_corner(entries);
    assert(placement_fits(entries)) by {
        assert forall|i: int, j: int|
            0 <= i < entries.len() && 0 <= j < entries.len() && (#[trigger] entries[i]).enabled()
                && (#[trigger] entries[j]).enabled() implies entries[i].corner().x - entries[j].corner().x
            <= i32::MAX && entries[i].corner().y - entries[j].corner().y <= i32::MAX by {
            assert(min_corner(entries).is_some());
        }
    }
    lemma_sorted_entries_fixed(entries);
    lemma_normalized_fixed(entries);
}

} // verus!
