//! What to do when the outputs of the system change: the decisions of the
//! daemon, apart from the waiting and the talking to the display server.

use crate::database::{layout_key, Database, LayoutById};
use crate::layout::{Layout, LayoutInfo, LayoutView, OutputIdView, UnsupportedCauses};
use vstd::prelude::*;

verus! {

/// What the daemon does about an observed layout, as the contracts see it.
pub enum ActionView {
    Ignore,
    Store(LayoutView),
    Apply(LayoutView),
    Synthesize(LayoutView),
}

/// What the daemon does about an observed layout.
#[derive(Debug)]
pub enum Action {
    /// Nothing: the layout is unsupported, or it is the last one.
    Ignore,
    /// The user rearranged the same outputs: store the layout for them.
    Store(Layout),
    /// Other outputs, for which a layout is stored: apply this layout.
    Apply(Layout),
    /// Other outputs, for which no layout is stored: one has to be made
    /// for the outputs of this observed layout.
    Synthesize(Layout),
}

impl View for Action {
    type V = ActionView;

    open spec fn view(&self) -> ActionView {
        match self {
            Action::Ignore => ActionView::Ignore,
            Action::Store(layout) => ActionView::Store(layout@),
            Action::Apply(layout) => ActionView::Apply(layout@),
            Action::Synthesize(layout) => ActionView::Synthesize(layout@),
        }
    }
}

/// The action for the layout `observed` with the causes `causes`, after
/// the layout `last`, with the layouts `stored` at hand. An unsupported
/// layout and one that equals the last are ignored; one of the same
/// outputs as the last is stored; for other outputs the stored layout is
/// applied, and where there is none a layout is to be made.
pub open spec fn spec_decide(
    last: LayoutView,
    observed: LayoutView,
    causes: UnsupportedCauses,
    stored: Map<Seq<OutputIdView>, LayoutView>,
) -> ActionView {
    if causes != UnsupportedCauses::spec_empty() {
        ActionView::Ignore
    } else if observed == last {
        ActionView::Ignore
    } else if layout_key(observed) == layout_key(last) {
        ActionView::Store(observed)
    } else if stored.dom().contains(layout_key(observed)) {
        ActionView::Apply(stored[layout_key(observed)])
    } else {
        ActionView::Synthesize(observed)
    }
}

/// The layout that counts as the last one after `action`: the one stored
/// or applied, and the last one as before where nothing was done yet.
pub open spec fn spec_last_after(last: LayoutView, action: ActionView) -> LayoutView {
    match action {
        ActionView::Ignore => last,
        ActionView::Store(layout) => layout,
        ActionView::Apply(layout) => layout,
        ActionView::Synthesize(_) => last,
    }
}

/// The state of the daemon between two changes: the last layout that it
/// observed, stored or applied.
#[derive(Debug)]
pub struct Controller {
    last: Layout,
}

impl View for Controller {
    type V = LayoutView;

    closed spec fn view(&self) -> LayoutView {
        self.last@
    }
}

impl Controller {
    /// The state at the start: the layout found is the last one, whether
    /// it is supported or not.
    pub fn new(initial: LayoutInfo) -> (res: Controller)
        ensures
            res@ == initial.layout@,
    {
        Controller { last: initial.layout }
    }

    /// The last layout.
    pub fn last(&self) -> (res: &Layout)
        ensures
            res@ == self@,
    {
        &self.last
    }

    /// Decides what to do about the layout observed after a change, and
    /// takes the layout stored or applied as the last one.
    pub fn on_change(&mut self, observed: LayoutInfo, database: &Database) -> (res: Action)
        requires
            database.wf(),
            observed.layout.wf(),
        ensures
            res@ == spec_decide(old(self)@, observed.layout@, observed.unsupported_causes, database@),
            final(self)@ == spec_last_after(old(self)@, res@),
            match res {
                Action::Ignore => true,
                Action::Store(layout) => layout.wf(),
                Action::Apply(layout) => layout.wf(),
                Action::Synthesize(layout) => layout.wf(),
            },
    {
        let LayoutInfo { layout: new_layout, unsupported_causes } = observed;
        if !unsupported_causes.is_empty() {
            return Action::Ignore;
        }
        if new_layout == self.last {
            return Action::Ignore;
        }
        if new_layout.same_outputs(&self.last) {
            self.last = new_layout.clone();
            return Action::Store(new_layout);
        }
        let by_id = LayoutById(new_layout);
        match database.get_layout(&by_id) {
            Some(stored_layout) => {
                self.last = stored_layout.clone();
                Action::Apply(stored_layout.clone())
            },
            None => {
                let LayoutById(new_layout) = by_id;
                Action::Synthesize(new_layout)
            },
        }
    }

    /// Takes a layout that was made and applied as the last one.
    pub fn synthesized(&mut self, layout: Layout)
        ensures
            final(self)@ == layout@,
    {
        self.last = layout;
    }
}

} // verus!
