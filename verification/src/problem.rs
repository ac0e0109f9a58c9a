//! The constraints of a placement, gathered and simplified as they come:
//! every coordinate is a constant or a variable plus a constant, and a
//! variable that an equality ties to a constant or to another variable is
//! removed at once.

use crate::constraint::{Constraint, Expression, Infeasible, Variable};
use crate::geometry::Vec2d;
use crate::relation::{index_before_removal, pair_count, InvertibleRelation, RelationMatrix};
use vstd::prelude::*;

verus! {

/// What a problem holds: the expression of each coordinate, the range of
/// each variable, and for pairs of variables `neg < pos` a range of
/// `pos - neg`.
#[verifier::ext_equal]
pub struct ProblemView {
    pub coordinates: Seq<Vec2d<Expression>>,
    pub mono: Seq<Constraint>,
    pub dual: Map<(int, int), Constraint>,
}

impl ProblemView {
    /// Number of variables.
    pub open spec fn nb_variables(self) -> nat {
        self.mono.len()
    }

    /// The `x` or the `y` of the coordinate `i`.
    pub open spec fn side(self, i: int, on_x: bool) -> Expression {
        if on_x {
            self.coordinates[i].x
        } else {
            self.coordinates[i].y
        }
    }

    /// Ranges of differences are held for pairs of distinct variables,
    /// lower index first, and the coordinates name variables that exist.
    pub open spec fn wf(self) -> bool {
        &&& forall|k: (int, int)| #[trigger] self.dual.dom().contains(k) ==> 0 <= k.0 < k.1 < self.mono.len()
        &&& forall|i: int|
            0 <= i < self.coordinates.len() ==> (#[trigger] self.coordinates[i]).x.in_scope(self.mono.len())
                && self.coordinates[i].y.in_scope(self.mono.len())
    }

    /// The range of `pos - neg`, if one is held.
    pub open spec fn dual_get(self, neg: int, pos: int) -> Option<Constraint> {
        if neg < pos {
            if self.dual.dom().contains((neg, pos)) {
                Some(self.dual[(neg, pos)])
            } else {
                None
            }
        } else if pos < neg {
            if self.dual.dom().contains((pos, neg)) {
                Some(self.dual[(pos, neg)].negated())
            } else {
                None
            }
        } else {
            None
        }
    }

    /// The ranges of differences with that of `pos - neg` set to `range`.
    pub open spec fn dual_set(self, neg: int, pos: int, range: Constraint) -> Map<(int, int), Constraint> {
        if neg < pos {
            self.dual.insert((neg, pos), range)
        } else if pos < neg {
            self.dual.insert((pos, neg), range.negated())
        } else {
            self.dual
        }
    }

    /// The values `values` of the variables meet every range.
    pub open spec fn satisfied_by(self, values: Seq<int>) -> bool {
        &&& values.len() == self.mono.len()
        &&& forall|v: int| 0 <= v < self.mono.len() ==> (#[trigger] self.mono[v]).holds(values[v])
        &&& forall|k: (int, int)| #[trigger]
            self.dual.dom().contains(k) ==> self.dual[k].holds(values[k.1] - values[k.0])
    }

    /// The problem with one more variable, the last, bounded by nothing.
    pub open spec fn with_variable(self) -> ProblemView {
        ProblemView { mono: self.mono.push(Constraint::spec_unconstrained()), ..self }
    }

    /// The problem with one more coordinate.
    pub open spec fn with_coordinate(self, definition: Vec2d<Expression>) -> ProblemView {
        ProblemView { coordinates: self.coordinates.push(definition), ..self }
    }

    /// The coordinates once `removed` has been replaced.
    pub open spec fn replaced_coordinates(self, removed: int, delta: int, kept: Option<Variable>) -> Seq<
        Vec2d<Expression>,
    > {
        Seq::new(
            self.coordinates.len(),
            |i: int|
                Vec2d {
                    x: self.coordinates[i].x.replaced(removed, delta, kept),
                    y: self.coordinates[i].y.replaced(removed, delta, kept),
                },
        )
    }

    /// No coordinate leaves the range of `i32` when `removed` is replaced.
    pub open spec fn replacement_fits(self, removed: int, delta: int) -> bool {
        forall|i: int|
            0 <= i < self.coordinates.len() ==> (#[trigger] self.coordinates[i]).x.replacement_fits(removed, delta)
                && self.coordinates[i].y.replacement_fits(removed, delta)
    }

    /// The ranges of differences once the variable `removed` has left.
    pub open spec fn dual_without(dual: Map<(int, int), Constraint>, removed: int) -> Map<(int, int), Constraint> {
        Map::new(
            |k: (int, int)|
                0 <= k.0 < k.1 && dual.dom().contains(
                    (index_before_removal(k.0, removed), index_before_removal(k.1, removed)),
                ),
            |k: (int, int)| dual[(index_before_removal(k.0, removed), index_before_removal(k.1, removed))],
        )
    }

    /// Range of the variable `p` once `variable` has the value `constant`:
    /// what bounded `p - variable` now bounds `p` too.
    pub open spec fn folded_mono(self, variable: int, constant: int, p: int) -> Option<Constraint> {
        match self.dual_get(variable, p) {
            Some(range) => self.mono[p].intersection(range.shifted(constant)),
            None => Some(self.mono[p]),
        }
    }

    /// The problem in which `variable` has become `constant`, or `None`
    /// where the constant is outside the range of the variable, a range
    /// becomes empty, or a coordinate leaves the range of `i32`.
    pub open spec fn spec_replace_variable_with_constant(self, variable: int, constant: int) -> Option<
        ProblemView,
    > {
        if self.mono[variable].holds(constant) && (forall|p: int|
            0 <= p < self.mono.len() ==> (#[trigger] self.folded_mono(variable, constant, p)).is_some())
            && self.replacement_fits(variable, constant) {
            Some(
                ProblemView {
                    coordinates: self.replaced_coordinates(variable, constant, None),
                    mono: Seq::new(
                        (self.mono.len() - 1) as nat,
                        |p: int| self.folded_mono(variable, constant, index_before_removal(p, variable)).unwrap(),
                    ),
                    dual: ProblemView::dual_without(self.dual, variable),
                },
            )
        } else {
            None
        }
    }

    /// Range of `p - kept` once `removed` has become `kept + offset`: what
    /// bounded `p - removed`, moved by `offset`, meets what bounded
    /// `p - kept` before. The outer `None` says that the two do not meet.
    pub open spec fn carried_dual(self, removed: int, kept: int, offset: int, p: int) -> Option<
        Option<Constraint>,
    > {
        if p == kept || p == removed {
            Some(None)
        } else {
            match self.dual_get(removed, p) {
                Some(range) => match self.dual_get(kept, p) {
                    Some(old) => match range.shifted(offset).intersection(old) {
                        Some(both) => Some(Some(both)),
                        None => None,
                    },
                    None => Some(Some(range.shifted(offset))),
                },
                None => Some(self.dual_get(kept, p)),
            }
        }
    }

    /// The ranges of differences once those of `removed` to the variables
    /// below `upto` have been carried over to `kept`, and the range of
    /// `removed - kept` has been dropped, before `removed` leaves.
    pub open spec fn merged_dual_upto(self, removed: int, kept: int, offset: int, upto: int) -> Map<
        (int, int),
        Constraint,
    > {
        Map::new(
            |k: (int, int)|
                if k.0 == kept && k.1 != removed && k.1 < upto && self.dual_get(removed, k.1).is_some() {
                    k.0 < k.1 < self.mono.len()
                } else if k.1 == kept && k.0 < upto && self.dual_get(removed, k.0).is_some() {
                    0 <= k.0 < k.1
                } else {
                    self.dual.dom().contains(k) && k != (kept, removed)
                },
            |k: (int, int)|
                if k.0 == kept && k.1 != removed && k.1 < upto && self.dual_get(removed, k.1).is_some() {
                    self.carried_dual(removed, kept, offset, k.1).unwrap().unwrap()
                } else if k.1 == kept && k.0 < upto && self.dual_get(removed, k.0).is_some() {
                    self.carried_dual(removed, kept, offset, k.0).unwrap().unwrap().negated()
                } else {
                    self.dual[k]
                },
        )
    }

    /// The ranges of differences once all those of `removed` have been
    /// carried over to `kept`, before `removed` leaves.
    pub open spec fn merged_dual(self, removed: int, kept: int, offset: int) -> Map<(int, int), Constraint> {
        self.merged_dual_upto(removed, kept, offset, self.mono.len() as int)
    }

    /// The problem in which `removed` has become `kept + offset`, for
    /// `kept < removed`, or `None` where a range becomes empty, the offset
    /// is outside the range held for `removed - kept`, or a coordinate
    /// leaves the range of `i32`.
    pub open spec fn spec_substitute_variable(self, removed: int, kept: int, offset: int) -> Option<ProblemView> {
        let mono_kept = self.mono[kept].intersection(self.mono[removed].shifted(-offset));
        let direct = match self.dual_get(kept, removed) {
            Some(range) => range.holds(offset),
            None => true,
        };
        if mono_kept.is_some() && direct && (forall|p: int|
            0 <= p < self.mono.len() ==> (#[trigger] self.carried_dual(removed, kept, offset, p)).is_some())
            && self.replacement_fits(removed, offset) {
            Some(
                ProblemView {
                    coordinates: self.replaced_coordinates(
                        removed,
                        offset,
                        Some(Variable { index: kept as usize }),
                    ),
                    mono: Seq::new(
                        (self.mono.len() - 1) as nat,
                        |p: int|
                            if p == kept {
                                mono_kept.unwrap()
                            } else {
                                self.mono[index_before_removal(p, removed)]
                            },
                    ),
                    dual: ProblemView::dual_without(self.merged_dual(removed, kept, offset), removed),
                },
            )
        } else {
            None
        }
    }

    /// The problem with `lhs + lhs_offset == rhs + rhs_offset` for the two
    /// variables: the one of higher index is replaced by the other. For
    /// one and the same variable the two offsets have to be equal.
    pub open spec fn spec_merge_variables(self, lhs: int, lhs_offset: int, rhs: int, rhs_offset: int) -> Option<
        ProblemView,
    > {
        if lhs < rhs {
            self.spec_substitute_variable(rhs, lhs, lhs_offset - rhs_offset)
        } else if rhs < lhs {
            self.spec_substitute_variable(lhs, rhs, rhs_offset - lhs_offset)
        } else if lhs_offset == rhs_offset {
            Some(self)
        } else {
            None
        }
    }

    /// The problem with `lhs == rhs`, or `None` where that cannot be.
    pub open spec fn spec_add_equality_constraint(self, lhs: Expression, rhs: Expression) -> Option<ProblemView> {
        match (lhs.variable, rhs.variable) {
            (None, None) => if lhs.constant == rhs.constant {
                Some(self)
            } else {
                None
            },
            (Some(v), None) => self.spec_replace_variable_with_constant(
                v.index as int,
                rhs.constant - lhs.constant,
            ),
            (None, Some(v)) => self.spec_replace_variable_with_constant(
                v.index as int,
                lhs.constant - rhs.constant,
            ),
            (Some(l), Some(r)) => self.spec_merge_variables(
                l.index as int,
                lhs.constant as int,
                r.index as int,
                rhs.constant as int,
            ),
        }
    }

    /// The problem with `range.min <= pos - neg <= range.max`, or `None`
    /// where that cannot be: the range bounds a constant, one variable, or
    /// the difference of two.
    pub open spec fn spec_add_dual_constraint(self, neg: Expression, pos: Expression, range: Constraint) -> Option<
        ProblemView,
    > {
        match (neg.variable, pos.variable) {
            (None, None) => if range.holds(pos.constant - neg.constant) {
                Some(self)
            } else {
                None
            },
            (None, Some(p)) => match self.mono[p.index as int].intersection(
                range.shifted(neg.constant - pos.constant),
            ) {
                Some(both) => Some(ProblemView { mono: self.mono.update(p.index as int, both), ..self }),
                None => None,
            },
            (Some(n), None) => match self.mono[n.index as int].intersection(
                range.negated().shifted(pos.constant - neg.constant),
            ) {
                Some(both) => Some(ProblemView { mono: self.mono.update(n.index as int, both), ..self }),
                None => None,
            },
            (Some(n), Some(p)) => if n.index == p.index {
                if range.holds(pos.constant - neg.constant) {
                    Some(self)
                } else {
                    None
                }
            } else {
                let moved = range.shifted(neg.constant - pos.constant);
                let both = match self.dual_get(n.index as int, p.index as int) {
                    Some(old) => moved.intersection(old),
                    None => Some(moved),
                };
                match both {
                    Some(b) => Some(ProblemView { dual: self.dual_set(n.index as int, p.index as int, b), ..self }),
                    None => None,
                }
            },
        }
    }
}

impl Expression {
    /// An expression that is a new variable of `problem`.
    pub fn free_variable(problem: &mut QpProblemState) -> (res: Expression)
        requires
            old(problem).wf(),
            pair_count(old(problem)@.nb_variables() + 1) <= usize::MAX,
        ensures
            final(problem).wf(),
            final(problem)@ == old(problem)@.with_variable(),
            res == (Expression { constant: 0, variable: Some(Variable { index: old(problem)@.nb_variables() as usize }) }),
    {
        Expression { constant: 0, variable: Some(problem.new_variable()) }
    }

    /// The expression once `removed` has been replaced, or `None` where its
    /// constant leaves the range of `i32`.
    fn replace(self, removed: usize, delta: i64, kept: Option<Variable>) -> (res: Option<Expression>)
        requires
            -0x1_0000_0000 <= delta <= 0x1_0000_0000,
        ensures
            res.is_some() == self.replacement_fits(removed as int, delta as int),
            res.is_some() ==> res.unwrap() == self.replaced(removed as int, delta as int, kept),
    {
        match self.variable {
            Some(v) => {
                if v.index == removed {
                    let constant: i64 = self.constant as i64 + delta;
                    if constant < i32::MIN as i64 || constant > i32::MAX as i64 {
                        None
                    } else {
                        Some(Expression { constant: constant as i32, variable: kept })
                    }
                } else if v.index > removed {
                    Some(Expression { constant: self.constant, variable: Some(Variable { index: v.index - 1 }) })
                } else {
                    Some(self)
                }
            },
            None => Some(self),
        }
    }
}

/// The constraints gathered so far, in simplified form: each coordinate as
/// a constant or a variable plus a constant, a range for each variable,
/// and ranges for differences of two variables. Variables that an equality
/// ties to a constant or to another variable are removed at once.
#[derive(Debug)]
pub struct QpProblemState {
    /// The expression of each coordinate.
    pub coordinate_definitions: Vec<Vec2d<Expression>>,
    /// The range of each variable; its length is the number of variables.
    pub mono_constraints: Vec<Constraint>,
    /// For the variables `neg` and `pos`, a range of `pos - neg`.
    pub dual_constraints: RelationMatrix<Constraint>,
}

/// The relations that a matrix holds, for the pairs `(low, high)` with
/// `low < high`.
pub open spec fn dual_view(matrix: &RelationMatrix<Constraint>) -> Map<(int, int), Constraint> {
    Map::new(
        |k: (int, int)| 0 <= k.0 < k.1 < matrix.spec_size() && matrix.spec_get(k.0, k.1).is_some(),
        |k: (int, int)| matrix.spec_get(k.0, k.1).unwrap(),
    )
}

impl View for QpProblemState {
    type V = ProblemView;

    open spec fn view(&self) -> ProblemView {
        ProblemView {
            coordinates: self.coordinate_definitions@,
            mono: self.mono_constraints@,
            dual: dual_view(&self.dual_constraints),
        }
    }
}

/// The coordinates once `removed` has been replaced, or `None` where one of
/// them leaves the range of `i32`.
fn replaced_definitions(
    definitions: &Vec<Vec2d<Expression>>,
    removed: usize,
    delta: i64,
    kept: Option<Variable>,
    Ghost(problem): Ghost<ProblemView>,
) -> (res: Option<Vec<Vec2d<Expression>>>)
    requires
        -0x1_0000_0000 <= delta <= 0x1_0000_0000,
        problem.coordinates == definitions@,
    ensures
        res.is_some() == problem.replacement_fits(removed as int, delta as int),
        res.is_some() ==> res.unwrap()@ == problem.replaced_coordinates(removed as int, delta as int, kept),
{
    let mut replaced: Vec<Vec2d<Expression>> = Vec::new();
    let n = definitions.len();
    let mut i: usize = 0;
    while i < n
        invariant
            i <= n,
            n == definitions@.len(),
            -0x1_0000_0000 <= delta <= 0x1_0000_0000,
            problem.coordinates == definitions@,
            replaced@.len() == i,
            forall|j: int|
                0 <= j < i ==> (#[trigger] definitions@[j]).x.replacement_fits(removed as int, delta as int)
                    && definitions@[j].y.replacement_fits(removed as int, delta as int),
            forall|j: int|
                0 <= j < i ==> #[trigger] replaced@[j] == (Vec2d {
                    x: definitions@[j].x.replaced(removed as int, delta as int, kept),
                    y: definitions@[j].y.replaced(removed as int, delta as int, kept),
                }),
        decreases n - i,
    {
        let definition = definitions[i];
        let x = match definition.x.replace(removed, delta, kept) {
            Some(x) => x,
            None => {
                return None;
            },
        };
        let y = match definition.y.replace(removed, delta, kept) {
            Some(y) => y,
            None => {
                return None;
            },
        };
        replaced.push(Vec2d { x, y });
        i += 1;
    }
    assert(replaced@ =~= problem.replaced_coordinates(removed as int, delta as int, kept));
    Some(replaced)
}

impl QpProblemState {
    /// The matrix of differences has one element for each variable, and
    /// the coordinates name variables that exist.
    pub open spec fn wf(&self) -> bool {
        &&& self.dual_constraints.wf()
        &&& self.dual_constraints.spec_size() == self.mono_constraints@.len()
        &&& self@.wf()
    }

    /// The view reads the matrix of differences as the matrix itself does.
    pub proof fn lemma_view_dual_get(&self)
        requires
            self.dual_constraints.spec_size() == self.mono_constraints@.len(),
        ensures
            forall|neg: int, pos: int| #[trigger] self@.dual_get(neg, pos) == self.dual_constraints.spec_get(neg, pos),
    {
        assert forall|neg: int, pos: int| #[trigger] self@.dual_get(neg, pos) == self.dual_constraints.spec_get(
            neg,
            pos,
        ) by {
            let n = self.dual_constraints.spec_size();
            if neg < pos {
                if !(0 <= neg && pos < n) {
                    self.dual_constraints.lemma_get_none(neg, pos);
                }
            } else if pos < neg {
                self.dual_constraints.lemma_get_reversed(pos, neg);
                if !(0 <= pos && neg < n) {
                    self.dual_constraints.lemma_get_none(pos, neg);
                }
            } else {
                self.dual_constraints.lemma_get_none(neg, pos);
            }
        }
    }

    /// A problem with no coordinate and no variable.
    pub fn new() -> (res: QpProblemState)
        ensures
            res.wf(),
            res@.coordinates.len() == 0,
            res@.nb_variables() == 0,
            res@.dual == Map::<(int, int), Constraint>::empty(),
    {
        proof {
            reveal_with_fuel(pair_count, 1);
        }
        let res = QpProblemState {
            coordinate_definitions: Vec::new(),
            mono_constraints: Vec::new(),
            dual_constraints: RelationMatrix::new(0),
        };
        assert(res@.dual =~= Map::<(int, int), Constraint>::empty());
        res
    }

    /// Adds a variable bounded by nothing, and returns it.
    pub fn new_variable(&mut self) -> (res: Variable)
        requires
            old(self).wf(),
            pair_count(old(self)@.nb_variables() + 1) <= usize::MAX,
        ensures
            final(self).wf(),
            final(self)@ == old(self)@.with_variable(),
            res.index == old(self)@.nb_variables(),
    {
        let index = self.mono_constraints.len();
        self.mono_constraints.push(Constraint::unconstrained());
        let _ = self.dual_constraints.add_element();
        proof {
            let n = index as int;
            assert forall|k: (int, int)| #[trigger] self@.dual.dom().contains(k) == old(self)@.dual.dom().contains(
                k,
            ) by {
                if 0 <= k.0 < k.1 < n + 1 {
                    if k.1 == n {
                        assert(self.dual_constraints.spec_get(k.0, n).is_none());
                    } else {
                        assert(self.dual_constraints.spec_get(k.0, k.1) == old(self).dual_constraints.spec_get(
                            k.0,
                            k.1,
                        ));
                    }
                }
            }
            assert(self@.dual =~= old(self)@.dual);
            assert(self@ =~= old(self)@.with_variable());
        }
        Variable { index }
    }

    /// Number of variables.
    pub fn nb_variables(&self) -> (res: usize)
        ensures
            res == self@.nb_variables(),
    {
        self.mono_constraints.len()
    }

    /// Adds a coordinate, which may name the variables of the problem.
    pub fn add_coordinate(&mut self, definition: Vec2d<Expression>)
        requires
            old(self).wf(),
            definition.x.in_scope(old(self)@.nb_variables()),
            definition.y.in_scope(old(self)@.nb_variables()),
        ensures
            final(self).wf(),
            final(self)@ == old(self)@.with_coordinate(definition),
    {
        self.coordinate_definitions.push(definition);
        proof {
            assert(self@.dual =~= old(self)@.dual);
            assert(self@ =~= old(self)@.with_coordinate(definition));
        }
    }

    /// Gives `variable` the value `constant`: the variable leaves the
    /// problem, the variables behind it move down by one, and what bounded
    /// a difference with it bounds the other variable alone. Nothing
    /// changes where this fails.
    pub fn replace_variable_with_constant(&mut self, variable: Variable, constant: i32) -> (res: Result<
        (),
        Infeasible,
    >)
        requires
            old(self).wf(),
            variable.index < old(self)@.nb_variables(),
        ensures
            final(self).wf(),
            match res {
                Ok(_) => Some(final(self)@) == old(self)@.spec_replace_variable_with_constant(
                    variable.index as int,
                    constant as int,
                ),
                Err(_) => old(self)@.spec_replace_variable_with_constant(variable.index as int, constant as int)
                    .is_none() && final(self)@ == old(self)@,
            },
    {
        self.replace_with(variable.index, constant as i64)
    }

    fn replace_with(&mut self, variable: usize, constant: i64) -> (res: Result<(), Infeasible>)
        requires
            old(self).wf(),
            variable < old(self)@.nb_variables(),
            -0x1_0000_0000 <= constant <= 0x1_0000_0000,
        ensures
            final(self).wf(),
            match res {
                Ok(_) => Some(final(self)@) == old(self)@.spec_replace_variable_with_constant(
                    variable as int,
                    constant as int,
                ),
                Err(_) => old(self)@.spec_replace_variable_with_constant(variable as int, constant as int).is_none()
                    && final(self)@ == old(self)@,
            },
    {
        let ghost before = self@;
        let ghost v = variable as int;
        let ghost c = constant as int;
        proof {
            self.lemma_view_dual_get();
        }
        if !self.mono_constraints[variable].contains_wide(constant) {
            return Err(Infeasible);
        }
        let n = self.mono_constraints.len();
        let mut mono: Vec<Constraint> = Vec::new();
        let mut p: usize = 0;
        while p < n
            invariant
                self.wf(),
                self@ == before,
                *self == *old(self),
                n == before.mono.len(),
                v == variable,
                c == constant,
                v < n,
                p <= n,
                -0x1_0000_0000 <= constant <= 0x1_0000_0000,
                forall|neg: int, pos: int| #[trigger]
                    before.dual_get(neg, pos) == self.dual_constraints.spec_get(neg, pos),
                mono@.len() == (if p > variable { p - 1 } else { p as int }),
                forall|q: int| 0 <= q < p ==> (#[trigger] before.folded_mono(v, c, q)).is_some(),
                forall|q: int|
                    0 <= q < mono@.len() ==> #[trigger] mono@[q] == before.folded_mono(
                        v,
                        c,
                        index_before_removal(q, v),
                    ).unwrap(),
            decreases n - p,
        {
            if p != variable {
                let folded = match self.dual_constraints.get(variable, p) {
                    Some(range) => match self.mono_constraints[p].merge(&range.shift(constant)) {
                        Ok(both) => both,
                        Err(e) => {
                            assert(before.folded_mono(v, c, p as int).is_none());
                            return Err(e);
                        },
                    },
                    None => self.mono_constraints[p],
                };
                mono.push(folded);
            } else {
                assert(before.folded_mono(v, c, p as int).is_some());
            }
            p += 1;
        }
        let definitions = match replaced_definitions(
            &self.coordinate_definitions,
            variable,
            constant,
            None,
            Ghost(before),
        ) {
            Some(definitions) => definitions,
            None => {
                return Err(Infeasible);
            },
        };
        self.dual_constraints.remove_element(variable);
        self.mono_constraints = mono;
        self.coordinate_definitions = definitions;
        proof {
            let after = before.spec_replace_variable_with_constant(v, c).unwrap();
            assert(self@.mono =~= after.mono);
            assert forall|k: (int, int)| #[trigger] self@.dual.dom().contains(k) == after.dual.dom().contains(k) && (
            self@.dual.dom().contains(k) ==> self@.dual[k] == after.dual[k]) by {
                let i = index_before_removal(k.0, v);
                let j = index_before_removal(k.1, v);
                if 0 <= k.0 < k.1 < n - 1 {
                    assert(self.dual_constraints.spec_get(k.0, k.1) == old(self).dual_constraints.spec_get(i, j));
                    assert(before.dual_get(i, j) == old(self).dual_constraints.spec_get(i, j));
                } else if 0 <= k.0 < k.1 {
                    assert(before.dual_get(i, j) == old(self).dual_constraints.spec_get(i, j));
                    old(self).dual_constraints.lemma_get_none(i, j);
                }
            }
            assert(self@.dual =~= after.dual);
            assert(self@ =~= after);
        }
        Ok(())
    }

    /// Ties two variables by `lhs + lhs_offset == rhs + rhs_offset`: the
    /// one of higher index leaves, and its ranges pass to the other.
    /// Nothing changes where this fails.
    pub fn merge_variables(&mut self, lhs: Variable, lhs_offset: i32, rhs: Variable, rhs_offset: i32) -> (res:
        Result<(), Infeasible>)
        requires
            old(self).wf(),
            lhs.index < old(self)@.nb_variables(),
            rhs.index < old(self)@.nb_variables(),
        ensures
            final(self).wf(),
            match res {
                Ok(_) => Some(final(self)@) == old(self)@.spec_merge_variables(
                    lhs.index as int,
                    lhs_offset as int,
                    rhs.index as int,
                    rhs_offset as int,
                ),
                Err(_) => old(self)@.spec_merge_variables(
                    lhs.index as int,
                    lhs_offset as int,
                    rhs.index as int,
                    rhs_offset as int,
                ).is_none() && final(self)@ == old(self)@,
            },
    {
        if lhs.index < rhs.index {
            self.substitute_variable(rhs.index, lhs.index, lhs_offset as i64 - rhs_offset as i64)
        } else if lhs.index > rhs.index {
            self.substitute_variable(lhs.index, rhs.index, rhs_offset as i64 - lhs_offset as i64)
        } else if lhs_offset == rhs_offset {
            Ok(())
        } else {
            Err(Infeasible)
        }
    }

    /// Replaces `removed` by `kept + offset`.
    fn substitute_variable(&mut self, removed: usize, kept: usize, offset: i64) -> (res: Result<(), Infeasible>)
        requires
            old(self).wf(),
            kept < removed < old(self)@.nb_variables(),
            -0x1_0000_0000 <= offset <= 0x1_0000_0000,
        ensures
            final(self).wf(),
            match res {
                Ok(_) => Some(final(self)@) == old(self)@.spec_substitute_variable(
                    removed as int,
                    kept as int,
                    offset as int,
                ),
                Err(_) => old(self)@.spec_substitute_variable(removed as int, kept as int, offset as int).is_none()
                    && final(self)@ == old(self)@,
            },
    {
        let ghost before = self@;
        let ghost r = removed as int;
        let ghost t = kept as int;
        let ghost o = offset as int;
        proof {
            self.lemma_view_dual_get();
        }
        let n = self.mono_constraints.len();
        // The range of the variable that stays.
        let mono_kept = match self.mono_constraints[kept].merge(&self.mono_constraints[removed].shift(-offset)) {
            Ok(both) => both,
            Err(e) => {
                return Err(e);
            },
        };
        // The range held for the difference of the two.
        match self.dual_constraints.get(kept, removed) {
            Some(range) => {
                if !range.contains_wide(offset) {
                    return Err(Infeasible);
                }
            },
            None => {},
        }
        // The ranges of the differences with the variable that leaves pass
        // to the one that stays.
        let mut dual = self.dual_constraints.clone();
        dual.set(kept, removed, None);
        proof {
            assert(dual_view(&dual) =~= before.merged_dual_upto(r, t, o, 0));
        }
        let mut p: usize = 0;
        while p < n
            invariant
                self.wf(),
                self@ == before,
                *self == *old(self),
                n == before.mono.len(),
                r == removed,
                t == kept,
                o == offset,
                kept < removed < n,
                p <= n,
                -0x1_0000_0000 <= offset <= 0x1_0000_0000,
                forall|neg: int, pos: int| #[trigger]
                    before.dual_get(neg, pos) == self.dual_constraints.spec_get(neg, pos),
                dual.wf(),
                dual.spec_size() == n,
                forall|q: int| 0 <= q < p ==> (#[trigger] before.carried_dual(r, t, o, q)).is_some(),
                dual_view(&dual) == before.merged_dual_upto(r, t, o, p as int),
            decreases n - p,
        {
            if p != kept && p != removed {
                match self.dual_constraints.get(removed, p) {
                    Some(range) => {
                        let moved = range.shift(offset);
                        let both = match self.dual_constraints.get(kept, p) {
                            Some(old) => match moved.merge(&old) {
                                Ok(both) => both,
                                Err(e) => {
                                    assert(before.carried_dual(r, t, o, p as int).is_none());
                                    return Err(e);
                                },
                            },
                            None => moved,
                        };
                        let ghost prev = dual;
                        dual.set(kept, p, Some(both));
                        proof {
                            let target = before.merged_dual_upto(r, t, o, p + 1);
                            assert forall|k: (int, int)| #[trigger]
                                dual_view(&dual).dom().contains(k) == target.dom().contains(k) && (dual_view(
                                    &dual,
                                ).dom().contains(k) ==> dual_view(&dual)[k] == target[k]) by {
                                if (k.0 == t && k.1 == p) || (k.0 == p && k.1 == t) {
                                    // The pair that was set: it is held under the lower
                                    // index first, from where the range reads backward.
                                    assert(before.carried_dual(r, t, o, p as int) == Some(Some(both)));
                                    if t < p {
                                        assert(dual.spec_get(t, p as int) == Some(both));
                                    } else {
                                        assert(dual.spec_get(p as int, t) == Some(both.negated()));
                                    }
                                } else {
                                    // Every other pair is as it was.
                                    let earlier = before.merged_dual_upto(r, t, o, p as int);
                                    assert(dual.spec_get(k.0, k.1) == prev.spec_get(k.0, k.1));
                                    assert(dual_view(&prev) == earlier);
                                    assert(dual_view(&dual).dom().contains(k) == dual_view(&prev).dom().contains(k));
                                    assert(earlier.dom().contains(k) == target.dom().contains(k));
                                    if earlier.dom().contains(k) {
                                        assert(dual_view(&dual)[k] == dual_view(&prev)[k]);
                                        assert(earlier[k] == target[k]);
                                    }
                                }
                            }
                            assert(dual_view(&dual) =~= target);
                        }
                    },
                    None => {
                        assert(dual_view(&dual) =~= before.merged_dual_upto(r, t, o, p + 1));
                    },
                }
            } else {
                assert(before.carried_dual(r, t, o, p as int).is_some());
                assert(dual_view(&dual) =~= before.merged_dual_upto(r, t, o, p + 1));
            }
            p += 1;
        }
        let definitions = match replaced_definitions(
            &self.coordinate_definitions,
            removed,
            offset,
            Some(Variable { index: kept }),
            Ghost(before),
        ) {
            Some(definitions) => definitions,
            None => {
                return Err(Infeasible);
            },
        };
        let ghost merged = dual;
        dual.remove_element(removed);
        self.dual_constraints = dual;
        self.mono_constraints[kept] = mono_kept;
        let _ = self.mono_constraints.remove(removed);
        self.coordinate_definitions = definitions;
        proof {
            let after = before.spec_substitute_variable(r, t, o).unwrap();
            assert(self@.mono =~= after.mono);
            assert forall|k: (int, int)| #[trigger] self@.dual.dom().contains(k) == after.dual.dom().contains(k) && (
            self@.dual.dom().contains(k) ==> self@.dual[k] == after.dual[k]) by {
                let i = index_before_removal(k.0, r);
                let j = index_before_removal(k.1, r);
                if 0 <= k.0 < k.1 < n - 1 {
                    assert(self.dual_constraints.spec_get(k.0, k.1) == merged.spec_get(i, j));
                    assert(dual_view(&merged).dom().contains((i, j)) == merged.spec_get(i, j).is_some());
                } else if 0 <= k.0 < k.1 {
                    assert(!dual_view(&merged).dom().contains((i, j)));
                }
            }
            assert(self@.dual =~= after.dual);
            assert(self@ =~= after);
        }
        Ok(())
    }

    /// Adds `range.min <= pos - neg <= range.max`. Between two constants
    /// this is a test; with one variable it narrows the range of that
    /// variable; with two it narrows the range held for their difference,
    /// and for one and the same variable it is a test again. Nothing
    /// changes where this fails.
    pub fn add_dual_constraint(&mut self, neg: Expression, pos: Expression, constraint: Constraint) -> (res: Result<
        (),
        Infeasible,
    >)
        requires
            old(self).wf(),
            neg.in_scope(old(self)@.nb_variables()),
            pos.in_scope(old(self)@.nb_variables()),
        ensures
            final(self).wf(),
            match res {
                Ok(_) => Some(final(self)@) == old(self)@.spec_add_dual_constraint(neg, pos, constraint),
                Err(_) => old(self)@.spec_add_dual_constraint(neg, pos, constraint).is_none() && final(self)@
                    == old(self)@,
            },
    {
        let ghost before = self@;
        proof {
            self.lemma_view_dual_get();
        }
        let forward: i64 = pos.constant as i64 - neg.constant as i64;
        match (neg.variable, pos.variable) {
            (None, None) => {
                if !constraint.contains_wide(forward) {
                    return Err(Infeasible);
                }
            },
            (None, Some(pos_var)) => {
                let both = match self.mono_constraints[pos_var.index].merge(&constraint.shift(-forward)) {
                    Ok(both) => both,
                    Err(e) => {
                        return Err(e);
                    },
                };
                self.mono_constraints[pos_var.index] = both;
                assert(self@ =~= (ProblemView { mono: before.mono.update(pos_var.index as int, both), ..before }));
            },
            (Some(neg_var), None) => {
                let both = match self.mono_constraints[neg_var.index].merge(&constraint.inverse().shift(forward)) {
                    Ok(both) => both,
                    Err(e) => {
                        return Err(e);
                    },
                };
                self.mono_constraints[neg_var.index] = both;
                assert(self@ =~= (ProblemView { mono: before.mono.update(neg_var.index as int, both), ..before }));
            },
            (Some(neg_var), Some(pos_var)) => {
                if neg_var.index == pos_var.index {
                    if !constraint.contains_wide(forward) {
                        return Err(Infeasible);
                    }
                } else {
                    let moved = constraint.shift(-forward);
                    let both = match self.dual_constraints.get(neg_var.index, pos_var.index) {
                        Some(old) => match moved.merge(&old) {
                            Ok(both) => both,
                            Err(e) => {
                                return Err(e);
                            },
                        },
                        None => moved,
                    };
                    self.dual_constraints.set(neg_var.index, pos_var.index, Some(both));
                    proof {
                        let n = neg_var.index as int;
                        let p = pos_var.index as int;
                        let target = before.dual_set(n, p, both);
                        assert forall|k: (int, int)| #[trigger]
                            self@.dual.dom().contains(k) == target.dom().contains(k) && (self@.dual.dom().contains(
                                k,
                            ) ==> self@.dual[k] == target[k]) by {
                            if (k.0 == n && k.1 == p) || (k.0 == p && k.1 == n) {
                            } else {
                                assert(self.dual_constraints.spec_get(k.0, k.1) == old(self).dual_constraints.spec_get(
                                    k.0,
                                    k.1,
                                ));
                            }
                        }
                        assert(self@.dual =~= target);
                        assert(self@ =~= (ProblemView { dual: target, ..before }));
                    }
                }
            },
        }
        Ok(())
    }

    /// Adds `lhs == rhs`. Between two constants this is a test; a variable
    /// equal to a constant is replaced by it; of two variables the one of
    /// higher index is replaced by the other. Nothing changes where this
    /// fails.
    pub fn add_equality_constraint(&mut self, lhs: Expression, rhs: Expression) -> (res: Result<(), Infeasible>)
        requires
            old(self).wf(),
            lhs.in_scope(old(self)@.nb_variables()),
            rhs.in_scope(old(self)@.nb_variables()),
        ensures
            final(self).wf(),
            match res {
                Ok(_) => Some(final(self)@) == old(self)@.spec_add_equality_constraint(lhs, rhs),
                Err(_) => old(self)@.spec_add_equality_constraint(lhs, rhs).is_none() && final(self)@ == old(self)@,
            },
    {
        match (lhs.variable, rhs.variable) {
            (None, None) => {
                if lhs.constant == rhs.constant {
                    Ok(())
                } else {
                    Err(Infeasible)
                }
            },
            (Some(var), None) => self.replace_with(var.index, rhs.constant as i64 - lhs.constant as i64),
            (None, Some(var)) => self.replace_with(var.index, lhs.constant as i64 - rhs.constant as i64),
            (Some(lhs_var), Some(rhs_var)) => self.merge_variables(lhs_var, lhs.constant, rhs_var, rhs.constant),
        }
    }
}

impl ProblemView {
    /// Giving a variable a value leaves a well-formed problem, with that
    /// variable less and as many coordinates.
    pub proof fn lemma_replace_wf(self, variable: int, constant: int)
        requires
            self.wf(),
            0 <= variable < self.nb_variables(),
            self.spec_replace_variable_with_constant(variable, constant).is_some(),
        ensures
            self.spec_replace_variable_with_constant(variable, constant).unwrap().wf(),
            self.spec_replace_variable_with_constant(variable, constant).unwrap().nb_variables() + 1
                == self.nb_variables(),
            self.spec_replace_variable_with_constant(variable, constant).unwrap().coordinates.len()
                == self.coordinates.len(),
    {
        let after = self.spec_replace_variable_with_constant(variable, constant).unwrap();
        assert forall|i: int| 0 <= i < after.coordinates.len() implies (#[trigger] after.coordinates[i]).x.in_scope(
            after.mono.len(),
        ) && after.coordinates[i].y.in_scope(after.mono.len()) by {
            assert(self.coordinates[i].x.in_scope(self.mono.len()));
        }
        assert forall|k: (int, int)| #[trigger] after.dual.dom().contains(k) implies 0 <= k.0 < k.1
            < after.mono.len() by {
            assert(self.dual.dom().contains((index_before_removal(k.0, variable), index_before_removal(k.1, variable))));
        }
    }

    /// Replacing a variable by another leaves a well-formed problem, with
    /// that variable less and as many coordinates.
    pub proof fn lemma_substitute_wf(self, removed: int, kept: int, offset: int)
        requires
            self.wf(),
            0 <= kept < removed < self.nb_variables(),
            self.spec_substitute_variable(removed, kept, offset).is_some(),
        ensures
            self.spec_substitute_variable(removed, kept, offset).unwrap().wf(),
            self.spec_substitute_variable(removed, kept, offset).unwrap().nb_variables() + 1 == self.nb_variables(),
            self.spec_substitute_variable(removed, kept, offset).unwrap().coordinates.len() == self.coordinates.len(),
    {
        let after = self.spec_substitute_variable(removed, kept, offset).unwrap();
        assert forall|i: int| 0 <= i < after.coordinates.len() implies (#[trigger] after.coordinates[i]).x.in_scope(
            after.mono.len(),
        ) && after.coordinates[i].y.in_scope(after.mono.len()) by {
            assert(self.coordinates[i].x.in_scope(self.mono.len()));
        }
        let merged = self.merged_dual(removed, kept, offset);
        assert forall|k: (int, int)| #[trigger] after.dual.dom().contains(k) implies 0 <= k.0 < k.1
            < after.mono.len() by {
            let before = (index_before_removal(k.0, removed), index_before_removal(k.1, removed));
            assert(merged.dom().contains(before));
            if self.dual.dom().contains(before) {
            }
        }
    }

    /// An equality leaves a well-formed problem, with no more variables
    /// and as many coordinates.
    pub proof fn lemma_equality_wf(self, lhs: Expression, rhs: Expression)
        requires
            self.wf(),
            lhs.in_scope(self.nb_variables()),
            rhs.in_scope(self.nb_variables()),
            self.spec_add_equality_constraint(lhs, rhs).is_some(),
        ensures
            self.spec_add_equality_constraint(lhs, rhs).unwrap().wf(),
            self.spec_add_equality_constraint(lhs, rhs).unwrap().nb_variables() <= self.nb_variables(),
            self.spec_add_equality_constraint(lhs, rhs).unwrap().coordinates.len() == self.coordinates.len(),
    {
        match (lhs.variable, rhs.variable) {
            (None, None) => {},
            (Some(v), None) => {
                self.lemma_replace_wf(v.index as int, rhs.constant - lhs.constant);
            },
            (None, Some(v)) => {
                self.lemma_replace_wf(v.index as int, lhs.constant - rhs.constant);
            },
            (Some(l), Some(r)) => {
                if l.index < r.index {
                    self.lemma_substitute_wf(r.index as int, l.index as int, lhs.constant - rhs.constant);
                } else if r.index < l.index {
                    self.lemma_substitute_wf(l.index as int, r.index as int, rhs.constant - lhs.constant);
                }
            },
        }
    }

    /// A range leaves a well-formed problem, with the same variables and
    /// coordinates.
    pub proof fn lemma_dual_wf(self, neg: Expression, pos: Expression, range: Constraint)
        requires
            self.wf(),
            neg.in_scope(self.nb_variables()),
            pos.in_scope(self.nb_variables()),
            self.spec_add_dual_constraint(neg, pos, range).is_some(),
        ensures
            self.spec_add_dual_constraint(neg, pos, range).unwrap().wf(),
            self.spec_add_dual_constraint(neg, pos, range).unwrap().nb_variables() == self.nb_variables(),
            self.spec_add_dual_constraint(neg, pos, range).unwrap().coordinates == self.coordinates,
    {
    }
}

} // verus!
