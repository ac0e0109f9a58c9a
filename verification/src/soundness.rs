//! What the simplified problem guarantees of the coordinates that come out
//! of it. The equalities of the relations hold exactly, whatever values the
//! variables get; and the problem says no less than the ranges that were
//! put into it: values that meet its ranges give coordinates that meet
//! every range that was added.

use crate::constraint::{Constraint, Expression, Variable};
use crate::geometry::{Direction, Vec2d, Vec2di};
use crate::placement::{
    anchor_of, as_ints, constrained_upto, initial_coordinate, initial_problem, lemma_anchor_exists,
    lemma_constrained_counts, lemma_evaluate_is_value, lemma_initial_wf, sizes_valid, spec_prepare_problem,
    spec_solution_coordinates,
};
use crate::problem::ProblemView;
use crate::relation::{index_after_removal, index_before_removal, RelationMatrix};
use vstd::prelude::*;

verus! {

/// `b` is `a + delta`, whatever the values of the variables: the two name
/// the same variable, or none, and their constants differ by `delta`.
pub open spec fn tied(a: Expression, delta: int, b: Expression) -> bool {
    a.variable == b.variable && a.constant + delta == b.constant
}

/// The equality that the relation of the output `lhs` to the output `rhs`
/// asks for holds between their coordinates.
pub open spec fn relation_tied(
    coordinates: Seq<Vec2d<Expression>>,
    sizes: Seq<Vec2di>,
    lhs: int,
    rhs: int,
    relation: Option<Direction>,
) -> bool {
    match relation {
        None => true,
        Some(Direction::LeftOf) => tied(coordinates[lhs].x, sizes[lhs].x as int, coordinates[rhs].x),
        Some(Direction::RightOf) => tied(coordinates[rhs].x, sizes[rhs].x as int, coordinates[lhs].x),
        Some(Direction::Under) => tied(coordinates[lhs].y, sizes[lhs].y as int, coordinates[rhs].y),
        Some(Direction::Above) => tied(coordinates[rhs].y, sizes[rhs].y as int, coordinates[lhs].y),
    }
}

/// The equalities of all the pairs that come before `(lhs, rhs)` hold.
pub open spec fn relations_tied_upto(
    coordinates: Seq<Vec2d<Expression>>,
    sizes: Seq<Vec2di>,
    relations: &RelationMatrix<Direction>,
    rhs: int,
    lhs: int,
) -> bool {
    forall|l: int, r: int|
        0 <= l < r && (r < rhs || (r == rhs && l < lhs)) ==> relation_tied(
            coordinates,
            sizes,
            l,
            r,
            #[trigger] relations.spec_get(l, r),
        )
}

/// Two expressions that are tied stay tied when a variable is replaced.
pub proof fn lemma_tied_replaced(a: Expression, delta: int, b: Expression, removed: int, by: int, kept: Option<Variable>)
    requires
        tied(a, delta, b),
        a.replacement_fits(removed, by),
        b.replacement_fits(removed, by),
    ensures
        tied(a.replaced(removed, by, kept), delta, b.replaced(removed, by, kept)),
{
}

impl ProblemView {
    /// `self` has the coordinates of `before` with one variable replaced,
    /// or the very same coordinates.
    pub open spec fn coordinates_follow(self, before: ProblemView) -> bool {
        ||| self.coordinates == before.coordinates
        ||| exists|removed: int, by: int, kept: Option<Variable>|
            before.replacement_fits(removed, by) && #[trigger] before.replaced_coordinates(removed, by, kept)
                == self.coordinates
    }

    /// An equality replaces at most one variable in the coordinates.
    pub proof fn lemma_equality_follows(self, lhs: Expression, rhs: Expression)
        requires
            self.spec_add_equality_constraint(lhs, rhs).is_some(),
        ensures
            self.spec_add_equality_constraint(lhs, rhs).unwrap().coordinates_follow(self),
    {
        let after = self.spec_add_equality_constraint(lhs, rhs).unwrap();
        match (lhs.variable, rhs.variable) {
            (None, None) => {},
            (Some(v), None) => {
                assert(self.replaced_coordinates(v.index as int, rhs.constant - lhs.constant, None)
                    == after.coordinates);
            },
            (None, Some(v)) => {
                assert(self.replaced_coordinates(v.index as int, lhs.constant - rhs.constant, None)
                    == after.coordinates);
            },
            (Some(l), Some(r)) => {
                if l.index < r.index {
                    assert(self.replaced_coordinates(
                        r.index as int,
                        lhs.constant - rhs.constant,
                        Some(Variable { index: l.index }),
                    ) == after.coordinates);
                } else if r.index < l.index {
                    assert(self.replaced_coordinates(
                        l.index as int,
                        rhs.constant - lhs.constant,
                        Some(Variable { index: r.index }),
                    ) == after.coordinates);
                }
            },
        }
    }

    /// A range leaves the coordinates as they are.
    pub proof fn lemma_dual_keeps_coordinates(self, neg: Expression, pos: Expression, range: Constraint)
        requires
            self.spec_add_dual_constraint(neg, pos, range).is_some(),
        ensures
            self.spec_add_dual_constraint(neg, pos, range).unwrap().coordinates == self.coordinates,
    {
    }

    /// After the equality `a + delta == b` of two coordinates of the
    /// problem, the two are tied.
    pub proof fn lemma_equality_ties(self, i: int, j: int, on_x: bool, delta: int)
        requires
            0 <= i < self.coordinates.len(),
            0 <= j < self.coordinates.len(),
            i32::MIN <= self.side(i, on_x).constant + delta <= i32::MAX,
            self.spec_add_equality_constraint(
                Expression {
                    constant: (self.side(i, on_x).constant + delta) as i32,
                    variable: self.side(i, on_x).variable,
                },
                self.side(j, on_x),
            ).is_some(),
        ensures
            ({
                let after = self.spec_add_equality_constraint(
                    Expression {
                        constant: (self.side(i, on_x).constant + delta) as i32,
                        variable: self.side(i, on_x).variable,
                    },
                    self.side(j, on_x),
                ).unwrap();
                &&& after.coordinates.len() == self.coordinates.len()
                &&& tied(after.side(i, on_x), delta, after.side(j, on_x))
            }),
    {
    }

    /// What was tied before stays tied in a problem whose coordinates
    /// follow.
    pub proof fn lemma_follow_keeps_ties(
        self,
        before: ProblemView,
        sizes: Seq<Vec2di>,
        relations: &RelationMatrix<Direction>,
        rhs: int,
        lhs: int,
    )
        requires
            self.coordinates_follow(before),
            before.coordinates.len() == sizes.len(),
            0 <= lhs <= rhs < sizes.len(),
            relations_tied_upto(before.coordinates, sizes, relations, rhs, lhs),
        ensures
            self.coordinates.len() == sizes.len(),
            relations_tied_upto(self.coordinates, sizes, relations, rhs, lhs),
    {
        if self.coordinates != before.coordinates {
            let (removed, by, kept) = choose|removed: int, by: int, kept: Option<Variable>|
                before.replacement_fits(removed, by) && #[trigger] before.replaced_coordinates(removed, by, kept)
                    == self.coordinates;
            assert forall|l: int, r: int| 0 <= l < r && (r < rhs || (r == rhs && l < lhs)) implies relation_tied(
                self.coordinates,
                sizes,
                l,
                r,
                #[trigger] relations.spec_get(l, r),
            ) by {
                assert(relation_tied(before.coordinates, sizes, l, r, relations.spec_get(l, r)));
                let a = before.coordinates[l];
                let b = before.coordinates[r];
                assert(a.x.replacement_fits(removed, by) && a.y.replacement_fits(removed, by));
                assert(b.x.replacement_fits(removed, by) && b.y.replacement_fits(removed, by));
                match relations.spec_get(l, r) {
                    None => {},
                    Some(Direction::LeftOf) => lemma_tied_replaced(a.x, sizes[l].x as int, b.x, removed, by, kept),
                    Some(Direction::RightOf) => lemma_tied_replaced(b.x, sizes[r].x as int, a.x, removed, by, kept),
                    Some(Direction::Under) => lemma_tied_replaced(a.y, sizes[l].y as int, b.y, removed, by, kept),
                    Some(Direction::Above) => lemma_tied_replaced(b.y, sizes[r].y as int, a.y, removed, by, kept),
                }
            }
        }
    }
}

impl ProblemView {
    /// Once `left` is on the left of `right`, their `x` are tied, and the
    /// coordinates follow those of before.
    pub proof fn lemma_leftof_ties(self, left: int, right: int, sizes: Seq<Vec2di>)
        requires
            sizes_valid(sizes),
            sizes.len() == self.coordinates.len(),
            0 <= left < self.coordinates.len(),
            0 <= right < self.coordinates.len(),
            self.spec_add_leftof_relation(left, right, sizes).is_some(),
        ensures
            self.spec_add_leftof_relation(left, right, sizes).unwrap().coordinates_follow(self),
            self.spec_add_leftof_relation(left, right, sizes).unwrap().coordinates.len() == self.coordinates.len(),
            tied(
                self.spec_add_leftof_relation(left, right, sizes).unwrap().coordinates[left].x,
                sizes[left].x as int,
                self.spec_add_leftof_relation(left, right, sizes).unwrap().coordinates[right].x,
            ),
    {
        let side = self.coordinates[left].x;
        let moved = Expression { constant: (side.constant + sizes[left].x) as i32, variable: side.variable };
        let middle = self.leftof_equality(left, right, sizes).unwrap();
        self.lemma_equality_follows(moved, self.coordinates[right].x);
        self.lemma_equality_ties(left, right, true, sizes[left].x as int);
        middle.lemma_dual_keeps_coordinates(
            middle.coordinates[left].y,
            middle.coordinates[right].y,
            Constraint { min: (-sizes[right].y) as i32, max: sizes[left].y },
        );
    }

    /// Once `under` is under `above`, their `y` are tied, and the
    /// coordinates follow those of before.
    pub proof fn lemma_under_ties(self, under: int, above: int, sizes: Seq<Vec2di>)
        requires
            sizes_valid(sizes),
            sizes.len() == self.coordinates.len(),
            0 <= under < self.coordinates.len(),
            0 <= above < self.coordinates.len(),
            self.spec_add_under_relation(under, above, sizes).is_some(),
        ensures
            self.spec_add_under_relation(under, above, sizes).unwrap().coordinates_follow(self),
            self.spec_add_under_relation(under, above, sizes).unwrap().coordinates.len() == self.coordinates.len(),
            tied(
                self.spec_add_under_relation(under, above, sizes).unwrap().coordinates[under].y,
                sizes[under].y as int,
                self.spec_add_under_relation(under, above, sizes).unwrap().coordinates[above].y,
            ),
    {
        let side = self.coordinates[under].y;
        let moved = Expression { constant: (side.constant + sizes[under].y) as i32, variable: side.variable };
        let middle = self.under_equality(under, above, sizes).unwrap();
        self.lemma_equality_follows(moved, self.coordinates[above].y);
        self.lemma_equality_ties(under, above, false, sizes[under].y as int);
        middle.lemma_dual_keeps_coordinates(
            middle.coordinates[under].x,
            middle.coordinates[above].x,
            Constraint { min: (-sizes[above].x) as i32, max: sizes[under].x },
        );
    }

    /// Once the relation of `lhs` to `rhs` has been added, its equality
    /// holds, and the coordinates follow those of before.
    pub proof fn lemma_relation_ties(self, lhs: int, rhs: int, relation: Option<Direction>, sizes: Seq<Vec2di>)
        requires
            sizes_valid(sizes),
            sizes.len() == self.coordinates.len(),
            0 <= lhs < self.coordinates.len(),
            0 <= rhs < self.coordinates.len(),
            self.spec_add_relation(lhs, rhs, relation, sizes).is_some(),
        ensures
            self.spec_add_relation(lhs, rhs, relation, sizes).unwrap().coordinates_follow(self),
            self.spec_add_relation(lhs, rhs, relation, sizes).unwrap().coordinates.len() == self.coordinates.len(),
            relation_tied(
                self.spec_add_relation(lhs, rhs, relation, sizes).unwrap().coordinates,
                sizes,
                lhs,
                rhs,
                relation,
            ),
    {
        match relation {
            None => {},
            Some(Direction::LeftOf) => self.lemma_leftof_ties(lhs, rhs, sizes),
            Some(Direction::RightOf) => self.lemma_leftof_ties(rhs, lhs, sizes),
            Some(Direction::Under) => self.lemma_under_ties(lhs, rhs, sizes),
            Some(Direction::Above) => self.lemma_under_ties(rhs, lhs, sizes),
        }
    }
}

/// In every problem on the way, the equalities of the relations added so
/// far hold between the coordinates.
pub proof fn lemma_constrained_ties(
    start: ProblemView,
    sizes: Seq<Vec2di>,
    relations: &RelationMatrix<Direction>,
    rhs: int,
    lhs: int,
)
    requires
        sizes_valid(sizes),
        start.coordinates.len() == sizes.len(),
        0 <= lhs <= rhs <= sizes.len(),
        rhs == sizes.len() ==> lhs == 0,
        constrained_upto(start, sizes, relations, rhs, lhs).is_some(),
    ensures
        constrained_upto(start, sizes, relations, rhs, lhs).unwrap().coordinates.len() == sizes.len(),
        relations_tied_upto(
            constrained_upto(start, sizes, relations, rhs, lhs).unwrap().coordinates,
            sizes,
            relations,
            rhs,
            lhs,
        ),
    decreases rhs, lhs,
{
    if lhs > 0 {
        lemma_constrained_ties(start, sizes, relations, rhs, lhs - 1);
        let before = constrained_upto(start, sizes, relations, rhs, lhs - 1).unwrap();
        let after = constrained_upto(start, sizes, relations, rhs, lhs).unwrap();
        let relation = relations.spec_get(lhs - 1, rhs);
        assert(after == before.spec_add_relation(lhs - 1, rhs, relation, sizes).unwrap());
        before.lemma_relation_ties(lhs - 1, rhs, relation, sizes);
        after.lemma_follow_keeps_ties(before, sizes, relations, rhs, lhs - 1);
        assert forall|l: int, r: int| 0 <= l < r && (r < rhs || (r == rhs && l < lhs)) implies relation_tied(
            after.coordinates,
            sizes,
            l,
            r,
            #[trigger] relations.spec_get(l, r),
        ) by {
            if r == rhs && l == lhs - 1 {
            } else {
                assert(r < rhs || (r == rhs && l < lhs - 1));
            }
        }
    } else if rhs > 0 {
        lemma_constrained_ties(start, sizes, relations, rhs - 1, rhs - 1);
    }
}

/// The equalities hold exactly. Whatever values a solver returns for the
/// variables of a problem prepared from `sizes` and `relations`, in the
/// coordinates that come out of them each pair of related outputs
/// touches: the right side of the one left of another is the left side of
/// that other, and the top of the one under another is its bottom.
pub proof fn lemma_solution_meets_equalities(
    sizes: Seq<Vec2di>,
    relations: &RelationMatrix<Direction>,
    values: Seq<i64>,
    lhs: int,
    rhs: int,
)
    requires
        sizes_valid(sizes),
        0 <= lhs < rhs < sizes.len(),
        spec_prepare_problem(sizes, relations).is_some(),
        spec_solution_coordinates(spec_prepare_problem(sizes, relations).unwrap(), values).is_some(),
    ensures
        ({
            let found = spec_solution_coordinates(spec_prepare_problem(sizes, relations).unwrap(), values).unwrap();
            match relations.spec_get(lhs, rhs) {
                None => true,
                Some(Direction::LeftOf) => found[lhs].x + sizes[lhs].x == found[rhs].x,
                Some(Direction::RightOf) => found[rhs].x + sizes[rhs].x == found[lhs].x,
                Some(Direction::Under) => found[lhs].y + sizes[lhs].y == found[rhs].y,
                Some(Direction::Above) => found[rhs].y + sizes[rhs].y == found[lhs].y,
            }
        }),
{
    let n = sizes.len();
    let start = initial_problem(n, anchor_of(sizes));
    lemma_constrained_ties(start, sizes, relations, n as int, 0);
    let problem = spec_prepare_problem(sizes, relations).unwrap();
    assert(relation_tied(problem.coordinates, sizes, lhs, rhs, relations.spec_get(lhs, rhs)));
    let a = problem.coordinates[lhs];
    let b = problem.coordinates[rhs];
    assert(a.x.spec_evaluate(values).is_some() && a.y.spec_evaluate(values).is_some());
    assert(b.x.spec_evaluate(values).is_some() && b.y.spec_evaluate(values).is_some());
}

/// `v` is small enough for sums and differences of two such values to stay
/// strictly within the range of `i32`, where no bound of a range is cut.
pub open spec fn within_reach(v: int) -> bool {
    -0x4000_0000 < v < 0x4000_0000
}

/// A range moved by `delta` holds of a value only where the range holds
/// of the value moved back.
pub proof fn lemma_shifted_sound(range: Constraint, delta: int, w: int)
    requires
        range.shifted(delta).holds(w),
        i32::MIN < w < i32::MAX,
    ensures
        range.holds(w - delta),
{
}

/// The range of the opposite holds of a value only where the range holds
/// of its opposite.
pub proof fn lemma_negated_sound(range: Constraint, u: int)
    requires
        range.negated().holds(u),
        i32::MIN < u < i32::MAX,
    ensures
        range.holds(-u),
{
}

/// What lies in the intersection of two ranges lies in both.
pub proof fn lemma_intersection_sound(a: Constraint, b: Constraint, w: int)
    requires
        a.intersection(b).is_some(),
        a.intersection(b).unwrap().holds(w),
    ensures
        a.holds(w),
        b.holds(w),
{
}

/// The value that the variable `removed` had, seen from the values of the
/// variables that are left.
pub open spec fn removed_value(delta: int, kept: Option<Variable>, values: Seq<int>) -> int {
    match kept {
        Some(k) => values[k.index as int] + delta,
        None => delta,
    }
}

/// An expression in which a variable was replaced has the value that it
/// had with the value of that variable put back.
pub proof fn lemma_replaced_value(
    e: Expression,
    removed: int,
    delta: int,
    kept: Option<Variable>,
    values: Seq<int>,
)
    requires
        0 <= removed <= values.len(),
        e.in_scope(values.len() + 1),
        e.replacement_fits(removed, delta),
        match kept {
            Some(k) => k.index < removed,
            None => true,
        },
    ensures
        e.replaced(removed, delta, kept).value(values) == e.value(
            values.insert(removed, removed_value(delta, kept, values)),
        ),
{
}

impl ProblemView {
    /// The value of each coordinate is within reach.
    pub open spec fn bounded(self, values: Seq<int>) -> bool {
        forall|i: int|
            0 <= i < self.coordinates.len() ==> within_reach((#[trigger] self.coordinates[i]).x.value(values))
                && within_reach(self.coordinates[i].y.value(values))
    }

    /// The variable `v` is a coordinate of its own: some coordinate is
    /// that variable and nothing else.
    pub open spec fn has_home(self, v: int) -> bool {
        exists|i: int, on_x: bool|
            0 <= i < self.coordinates.len() && #[trigger] self.side(i, on_x) == (Expression {
                constant: 0,
                variable: Some(Variable { index: v as usize }),
            })
    }

    /// Every variable is a coordinate of its own.
    pub open spec fn homes(self) -> bool {
        forall|v: int| 0 <= v < self.nb_variables() ==> #[trigger] self.has_home(v)
    }

    /// Where every variable is a coordinate and the coordinates are within
    /// reach, so are the values of the variables.
    pub proof fn lemma_values_within_reach(self, values: Seq<int>, v: int)
        requires
            self.homes(),
            self.bounded(values),
            0 <= v < self.nb_variables(),
            self.nb_variables() <= usize::MAX,
        ensures
            within_reach(values[v]),
    {
        assert(self.has_home(v));
        let (i, on_x) = choose|i: int, on_x: bool|
            0 <= i < self.coordinates.len() && #[trigger] self.side(i, on_x) == (Expression {
                constant: 0,
                variable: Some(Variable { index: v as usize }),
            });
        assert(within_reach(self.coordinates[i].x.value(values)));
    }

    /// The coordinates of `self` have, for the values `values`, the values
    /// that those of `before` have for the values `earlier`.
    pub open spec fn same_coordinates(self, values: Seq<int>, before: ProblemView, earlier: Seq<int>) -> bool {
        &&& self.coordinates.len() == before.coordinates.len()
        &&& forall|i: int|
            0 <= i < self.coordinates.len() ==> (#[trigger] self.coordinates[i]).x.value(values)
                == before.coordinates[i].x.value(earlier) && self.coordinates[i].y.value(values)
                == before.coordinates[i].y.value(earlier)
    }
}

impl ProblemView {
    /// The values `values` of all the variables are within reach.
    pub open spec fn values_within_reach(self, values: Seq<int>) -> bool {
        &&& values.len() == self.nb_variables()
        &&& forall|v: int| 0 <= v < values.len() ==> within_reach(#[trigger] values[v])
    }

    /// The coordinates in which a variable was replaced have the values
    /// that they had with the value of that variable put back.
    pub proof fn lemma_replaced_coordinates(
        self,
        removed: int,
        delta: int,
        kept: Option<Variable>,
        values: Seq<int>,
        after: ProblemView,
    )
        requires
            self.wf(),
            0 <= removed < self.nb_variables(),
            values.len() + 1 == self.nb_variables(),
            self.replacement_fits(removed, delta),
            after.coordinates == self.replaced_coordinates(removed, delta, kept),
            match kept {
                Some(k) => k.index < removed,
                None => true,
            },
        ensures
            after.same_coordinates(values, self, values.insert(removed, removed_value(delta, kept, values))),
    {
        let earlier = values.insert(removed, removed_value(delta, kept, values));
        assert forall|i: int| 0 <= i < after.coordinates.len() implies (#[trigger] after.coordinates[i]).x.value(
            values,
        ) == self.coordinates[i].x.value(earlier) && after.coordinates[i].y.value(values)
            == self.coordinates[i].y.value(earlier) by {
            assert(self.coordinates[i].x.in_scope(self.mono.len()));
            lemma_replaced_value(self.coordinates[i].x, removed, delta, kept, values);
            lemma_replaced_value(self.coordinates[i].y, removed, delta, kept, values);
        }
    }

    /// Values that meet the ranges of a problem in which a variable was
    /// given a value meet, with that value put back, the ranges of the
    /// problem before.
    pub proof fn lemma_replace_sound(self, variable: int, constant: int, values: Seq<int>) -> (earlier: Seq<int>)
        requires
            self.wf(),
            0 <= variable < self.nb_variables(),
            self.spec_replace_variable_with_constant(variable, constant).is_some(),
            self.spec_replace_variable_with_constant(variable, constant).unwrap().satisfied_by(values),
            self.spec_replace_variable_with_constant(variable, constant).unwrap().values_within_reach(values),
            within_reach(constant),
        ensures
            earlier == values.insert(variable, constant),
            self.satisfied_by(earlier),
            self.spec_replace_variable_with_constant(variable, constant).unwrap().same_coordinates(
                values,
                self,
                earlier,
            ),
    {
        let after = self.spec_replace_variable_with_constant(variable, constant).unwrap();
        let earlier = values.insert(variable, constant);
        self.lemma_replaced_coordinates(variable, constant, None, values, after);
        assert forall|p: int| 0 <= p < self.mono.len() implies (#[trigger] self.mono[p]).holds(earlier[p]) by {
            if p != variable {
                let q = index_after_removal(p, variable);
                assert(index_before_removal(q, variable) == p);
                assert(after.mono[q] == self.folded_mono(variable, constant, p).unwrap());
                assert(after.mono[q].holds(values[q]));
                assert(self.folded_mono(variable, constant, p).is_some());
                match self.dual_get(variable, p) {
                    Some(range) => {
                        lemma_intersection_sound(self.mono[p], range.shifted(constant), values[q]);
                    },
                    None => {},
                }
            }
        }
        assert forall|k: (int, int)| #[trigger] self.dual.dom().contains(k) implies self.dual[k].holds(
            earlier[k.1] - earlier[k.0],
        ) by {
            let i = k.0;
            let j = k.1;
            if i == variable {
                let q = index_after_removal(j, variable);
                assert(index_before_removal(q, variable) == j);
                assert(after.mono[q] == self.folded_mono(variable, constant, j).unwrap());
                assert(after.mono[q].holds(values[q]));
                assert(self.folded_mono(variable, constant, j).is_some());
                assert(self.dual_get(variable, j) == Some(self.dual[k]));
                lemma_intersection_sound(self.mono[j], self.dual[k].shifted(constant), values[q]);
                assert(within_reach(values[q]));
                lemma_shifted_sound(self.dual[k], constant, values[q]);
            } else if j == variable {
                let q = index_after_removal(i, variable);
                assert(index_before_removal(q, variable) == i);
                assert(after.mono[q] == self.folded_mono(variable, constant, i).unwrap());
                assert(after.mono[q].holds(values[q]));
                assert(self.folded_mono(variable, constant, i).is_some());
                assert(self.dual_get(variable, i) == Some(self.dual[k].negated()));
                lemma_intersection_sound(self.mono[i], self.dual[k].negated().shifted(constant), values[q]);
                assert(within_reach(values[q]));
                lemma_shifted_sound(self.dual[k].negated(), constant, values[q]);
                lemma_negated_sound(self.dual[k], values[q] - constant);
            } else {
                let a = index_after_removal(i, variable);
                let b = index_after_removal(j, variable);
                assert(index_before_removal(a, variable) == i);
                assert(index_before_removal(b, variable) == j);
                assert(after.dual.dom().contains((a, b)));
                assert(after.dual[(a, b)] == self.dual[k]);
                assert(after.dual[(a, b)].holds(values[b] - values[a]));
            }
        }
        earlier
    }
}

impl ProblemView {
    /// The ranges of the differences with the variable that left, and with
    /// the one that stayed, hold of the values put back.
    pub proof fn lemma_carried_sound(self, removed: int, kept: int, offset: int, p: int, values: Seq<int>)
        requires
            self.wf(),
            0 <= kept < removed < self.nb_variables(),
            self.nb_variables() <= usize::MAX,
            0 <= p < self.nb_variables(),
            p != kept,
            p != removed,
            self.spec_substitute_variable(removed, kept, offset).is_some(),
            self.spec_substitute_variable(removed, kept, offset).unwrap().satisfied_by(values),
            self.spec_substitute_variable(removed, kept, offset).unwrap().values_within_reach(values),
            within_reach(values[kept] + offset),
        ensures
            ({
                let q = index_after_removal(p, removed);
                &&& match self.dual_get(removed, p) {
                    Some(range) => range.holds(values[q] - (values[kept] + offset)),
                    None => true,
                }
                &&& match self.dual_get(kept, p) {
                    Some(range) => range.holds(values[q] - values[kept]),
                    None => true,
                }
            }),
    {
        let after = self.spec_substitute_variable(removed, kept, offset).unwrap();
        let merged = self.merged_dual(removed, kept, offset);
        let q = index_after_removal(p, removed);
        assert(index_before_removal(q, removed) == p);
        assert(index_before_removal(kept, removed) == kept);
        assert(within_reach(values[q]));
        assert(within_reach(values[kept]));
        let d = values[q] - values[kept];
        assert(self.carried_dual(removed, kept, offset, p).is_some());
        match self.dual_get(removed, p) {
            Some(range) => {
                let carried = self.carried_dual(removed, kept, offset, p).unwrap().unwrap();
                // What is held for the pair of the variable that stays.
                if kept < p {
                    assert(merged.dom().contains((kept, p)));
                    assert(merged[(kept, p)] == carried);
                    assert(after.dual.dom().contains((kept, q)));
                    assert(after.dual[(kept, q)] == carried);
                    assert(after.dual[(kept, q)].holds(values[q] - values[kept]));
                } else {
                    assert(merged.dom().contains((p, kept)));
                    assert(merged[(p, kept)] == carried.negated());
                    assert(after.dual.dom().contains((q, kept)));
                    assert(after.dual[(q, kept)] == carried.negated());
                    assert(after.dual[(q, kept)].holds(values[kept] - values[q]));
                    lemma_negated_sound(carried, values[kept] - values[q]);
                }
                assert(carried.holds(d));
                match self.dual_get(kept, p) {
                    Some(old) => {
                        lemma_intersection_sound(range.shifted(offset), old, d);
                    },
                    None => {},
                }
                lemma_shifted_sound(range, offset, d);
            },
            None => {
                match self.dual_get(kept, p) {
                    Some(old) => {
                        if kept < p {
                            assert(merged.dom().contains((kept, p)));
                            assert(merged[(kept, p)] == self.dual[(kept, p)]);
                            assert(after.dual.dom().contains((kept, q)));
                            assert(after.dual[(kept, q)].holds(values[q] - values[kept]));
                        } else {
                            assert(merged.dom().contains((p, kept)));
                            assert(merged[(p, kept)] == self.dual[(p, kept)]);
                            assert(after.dual.dom().contains((q, kept)));
                            assert(after.dual[(q, kept)].holds(values[kept] - values[q]));
                        }
                    },
                    None => {},
                }
            },
        }
    }

    /// Values that meet the ranges of a problem in which a variable was
    /// replaced by another meet, with the value of that variable put back,
    /// the ranges of the problem before.
    pub proof fn lemma_substitute_sound(self, removed: int, kept: int, offset: int, values: Seq<int>) -> (earlier:
        Seq<int>)
        requires
            self.wf(),
            0 <= kept < removed < self.nb_variables(),
            self.nb_variables() <= usize::MAX,
            self.spec_substitute_variable(removed, kept, offset).is_some(),
            self.spec_substitute_variable(removed, kept, offset).unwrap().satisfied_by(values),
            self.spec_substitute_variable(removed, kept, offset).unwrap().values_within_reach(values),
            within_reach(values[kept] + offset),
        ensures
            earlier == values.insert(removed, values[kept] + offset),
            self.satisfied_by(earlier),
            self.spec_substitute_variable(removed, kept, offset).unwrap().same_coordinates(values, self, earlier),
    {
        let after = self.spec_substitute_variable(removed, kept, offset).unwrap();
        let earlier = values.insert(removed, values[kept] + offset);
        let stays = Some(Variable { index: kept as usize });
        assert(removed_value(offset, stays, values) == values[kept] + offset);
        self.lemma_replaced_coordinates(removed, offset, stays, values, after);
        let mono_kept = self.mono[kept].intersection(self.mono[removed].shifted(-offset));
        assert(after.mono[kept] == mono_kept.unwrap());
        assert(after.mono[kept].holds(values[kept]));
        lemma_intersection_sound(self.mono[kept], self.mono[removed].shifted(-offset), values[kept]);
        assert(within_reach(values[kept]));
        lemma_shifted_sound(self.mono[removed], -offset, values[kept]);
        assert forall|p: int| 0 <= p < self.mono.len() implies (#[trigger] self.mono[p]).holds(earlier[p]) by {
            if p != kept && p != removed {
                let q = index_after_removal(p, removed);
                assert(index_before_removal(q, removed) == p);
                assert(after.mono[q] == self.mono[p]);
                assert(after.mono[q].holds(values[q]));
            }
        }
        assert forall|k: (int, int)| #[trigger] self.dual.dom().contains(k) implies self.dual[k].holds(
            earlier[k.1] - earlier[k.0],
        ) by {
            let i = k.0;
            let j = k.1;
            if i == kept && j == removed {
                assert(self.dual_get(kept, removed) == Some(self.dual[k]));
            } else if i == removed || j == removed {
                let p = if i == removed { j } else { i };
                let q = index_after_removal(p, removed);
                self.lemma_carried_sound(removed, kept, offset, p, values);
                assert(within_reach(values[q]));
                if i == removed {
                    assert(self.dual_get(removed, p) == Some(self.dual[k]));
                } else {
                    assert(self.dual_get(removed, p) == Some(self.dual[k].negated()));
                    lemma_negated_sound(self.dual[k], values[q] - (values[kept] + offset));
                }
            } else if i == kept || j == kept {
                let p = if i == kept { j } else { i };
                let q = index_after_removal(p, removed);
                self.lemma_carried_sound(removed, kept, offset, p, values);
                assert(within_reach(values[q]));
                assert(within_reach(values[kept]));
                if i == kept {
                    assert(self.dual_get(kept, p) == Some(self.dual[k]));
                } else {
                    assert(self.dual_get(kept, p) == Some(self.dual[k].negated()));
                    lemma_negated_sound(self.dual[k], values[q] - values[kept]);
                }
            } else {
                let a = index_after_removal(i, removed);
                let b = index_after_removal(j, removed);
                assert(index_before_removal(a, removed) == i);
                assert(index_before_removal(b, removed) == j);
                let merged = self.merged_dual(removed, kept, offset);
                assert(merged.dom().contains(k));
                assert(merged[k] == self.dual[k]);
                assert(after.dual.dom().contains((a, b)));
                assert(after.dual[(a, b)].holds(values[b] - values[a]));
            }
        }
        earlier
    }
}

impl ProblemView {
    /// The variables that are left when one is replaced are coordinates of
    /// their own still.
    pub proof fn lemma_homes_replaced(self, removed: int, delta: int, kept: Option<Variable>, after: ProblemView)
        requires
            self.wf(),
            self.homes(),
            self.nb_variables() <= usize::MAX,
            0 <= removed < self.nb_variables(),
            after.coordinates == self.replaced_coordinates(removed, delta, kept),
            after.nb_variables() + 1 == self.nb_variables(),
        ensures
            after.homes(),
    {
        assert forall|v: int| 0 <= v < after.nb_variables() implies #[trigger] after.has_home(v) by {
            let w = index_before_removal(v, removed);
            assert(self.has_home(w));
            let (i, on_x) = choose|i: int, on_x: bool|
                0 <= i < self.coordinates.len() && #[trigger] self.side(i, on_x) == (Expression {
                    constant: 0,
                    variable: Some(Variable { index: w as usize }),
                });
            assert(after.side(i, on_x) == (Expression { constant: 0, variable: Some(Variable { index: v as usize }) }));
        }
    }

    /// The value that the variable that left had is within reach, where
    /// the coordinates are.
    pub proof fn lemma_removed_within_reach(
        self,
        removed: int,
        delta: int,
        kept: Option<Variable>,
        values: Seq<int>,
        after: ProblemView,
    )
        requires
            self.has_home(removed),
            0 <= removed <= usize::MAX,
            self.replacement_fits(removed, delta),
            after.coordinates == self.replaced_coordinates(removed, delta, kept),
            after.bounded(values),
        ensures
            within_reach(removed_value(delta, kept, values)),
    {
        let (i, on_x) = choose|i: int, on_x: bool|
            0 <= i < self.coordinates.len() && #[trigger] self.side(i, on_x) == (Expression {
                constant: 0,
                variable: Some(Variable { index: removed as usize }),
            });
        assert(self.coordinates[i].x.replacement_fits(removed, delta));
        assert(within_reach(after.coordinates[i].x.value(values)));
        assert(after.side(i, on_x).value(values) == removed_value(delta, kept, values));
    }

    /// Where every variable is a coordinate and the coordinates are within
    /// reach, so are the values of all the variables.
    pub proof fn lemma_all_values_within_reach(self, values: Seq<int>)
        requires
            self.homes(),
            self.bounded(values),
            values.len() == self.nb_variables(),
            self.nb_variables() <= usize::MAX,
        ensures
            self.values_within_reach(values),
    {
        assert forall|v: int| 0 <= v < values.len() implies within_reach(#[trigger] values[v]) by {
            self.lemma_values_within_reach(values, v);
        }
    }

    /// Coordinates that have the values of coordinates within reach are
    /// within reach.
    pub proof fn lemma_same_coordinates_bounded(self, values: Seq<int>, before: ProblemView, earlier: Seq<int>)
        requires
            self.same_coordinates(values, before, earlier),
            self.bounded(values),
        ensures
            before.bounded(earlier),
    {
        assert forall|i: int| 0 <= i < before.coordinates.len() implies within_reach(
            (#[trigger] before.coordinates[i]).x.value(earlier),
        ) && within_reach(before.coordinates[i].y.value(earlier)) by {
            assert(within_reach(self.coordinates[i].x.value(values)));
        }
    }

    /// Values that meet the ranges of a problem to which an equality was
    /// added come from values that meet the ranges of the problem before,
    /// give the coordinates the same values, and make the equality hold.
    pub proof fn lemma_equality_sound(self, lhs: Expression, rhs: Expression, values: Seq<int>) -> (earlier: Seq<
        int,
    >)
        requires
            self.wf(),
            self.homes(),
            self.nb_variables() <= usize::MAX,
            lhs.in_scope(self.nb_variables()),
            rhs.in_scope(self.nb_variables()),
            self.spec_add_equality_constraint(lhs, rhs).is_some(),
            self.spec_add_equality_constraint(lhs, rhs).unwrap().satisfied_by(values),
            self.spec_add_equality_constraint(lhs, rhs).unwrap().bounded(values),
        ensures
            self.satisfied_by(earlier),
            self.bounded(earlier),
            self.spec_add_equality_constraint(lhs, rhs).unwrap().same_coordinates(values, self, earlier),
            self.spec_add_equality_constraint(lhs, rhs).unwrap().homes(),
            lhs.value(earlier) == rhs.value(earlier),
    {
        let after = self.spec_add_equality_constraint(lhs, rhs).unwrap();
        let earlier = match (lhs.variable, rhs.variable) {
            (None, None) => values,
            (Some(v), None) => {
                let c = rhs.constant - lhs.constant;
                self.lemma_replace_wf(v.index as int, c);
                self.lemma_homes_replaced(v.index as int, c, None, after);
                after.lemma_all_values_within_reach(values);
                self.lemma_removed_within_reach(v.index as int, c, None, values, after);
                self.lemma_replace_sound(v.index as int, c, values)
            },
            (None, Some(v)) => {
                let c = lhs.constant - rhs.constant;
                self.lemma_replace_wf(v.index as int, c);
                self.lemma_homes_replaced(v.index as int, c, None, after);
                after.lemma_all_values_within_reach(values);
                self.lemma_removed_within_reach(v.index as int, c, None, values, after);
                self.lemma_replace_sound(v.index as int, c, values)
            },
            (Some(l), Some(r)) => {
                if l.index < r.index {
                    let offset = lhs.constant - rhs.constant;
                    let stays = Some(Variable { index: l.index });
                    self.lemma_substitute_wf(r.index as int, l.index as int, offset);
                    self.lemma_homes_replaced(r.index as int, offset, stays, after);
                    after.lemma_all_values_within_reach(values);
                    self.lemma_removed_within_reach(r.index as int, offset, stays, values, after);
                    self.lemma_substitute_sound(r.index as int, l.index as int, offset, values)
                } else if r.index < l.index {
                    let offset = rhs.constant - lhs.constant;
                    let stays = Some(Variable { index: r.index });
                    self.lemma_substitute_wf(l.index as int, r.index as int, offset);
                    self.lemma_homes_replaced(l.index as int, offset, stays, after);
                    after.lemma_all_values_within_reach(values);
                    self.lemma_removed_within_reach(l.index as int, offset, stays, values, after);
                    self.lemma_substitute_sound(l.index as int, r.index as int, offset, values)
                } else {
                    values
                }
            },
        };
        after.lemma_same_coordinates_bounded(values, self, earlier);
        earlier
    }

    /// Values that meet the ranges of a problem to which a range was added
    /// meet the ranges of the problem before, and that range.
    pub proof fn lemma_dual_sound(self, neg: Expression, pos: Expression, range: Constraint, values: Seq<int>)
        requires
            self.wf(),
            neg.in_scope(self.nb_variables()),
            pos.in_scope(self.nb_variables()),
            self.spec_add_dual_constraint(neg, pos, range).is_some(),
            self.spec_add_dual_constraint(neg, pos, range).unwrap().satisfied_by(values),
            self.values_within_reach(values),
            within_reach(neg.value(values)),
            within_reach(pos.value(values)),
        ensures
            self.satisfied_by(values),
            range.holds(pos.value(values) - neg.value(values)),
    {
        let after = self.spec_add_dual_constraint(neg, pos, range).unwrap();
        match (neg.variable, pos.variable) {
            (None, None) => {},
            (None, Some(p)) => {
                let shift = neg.constant - pos.constant;
                let w = values[p.index as int];
                assert(after.mono[p.index as int].holds(w));
                lemma_intersection_sound(self.mono[p.index as int], range.shifted(shift), w);
                assert(within_reach(w));
                lemma_shifted_sound(range, shift, w);
                assert forall|v: int| 0 <= v < self.mono.len() implies (#[trigger] self.mono[v]).holds(values[v]) by {
                    assert(after.mono[v].holds(values[v]));
                }
                assert forall|k: (int, int)| #[trigger] self.dual.dom().contains(k) implies self.dual[k].holds(
                    values[k.1] - values[k.0],
                ) by {
                    assert(after.dual.dom().contains(k));
                }
            },
            (Some(n), None) => {
                let shift = pos.constant - neg.constant;
                let w = values[n.index as int];
                assert(after.mono[n.index as int].holds(w));
                lemma_intersection_sound(self.mono[n.index as int], range.negated().shifted(shift), w);
                assert(within_reach(w));
                lemma_shifted_sound(range.negated(), shift, w);
                lemma_negated_sound(range, w - shift);
                assert forall|v: int| 0 <= v < self.mono.len() implies (#[trigger] self.mono[v]).holds(values[v]) by {
                    assert(after.mono[v].holds(values[v]));
                }
                assert forall|k: (int, int)| #[trigger] self.dual.dom().contains(k) implies self.dual[k].holds(
                    values[k.1] - values[k.0],
                ) by {
                    assert(after.dual.dom().contains(k));
                }
            },
            (Some(n), Some(p)) => {
                if n.index != p.index {
                    let a = n.index as int;
                    let b = p.index as int;
                    let shift = neg.constant - pos.constant;
                    let moved = range.shifted(shift);
                    let both = match self.dual_get(a, b) {
                        Some(old) => moved.intersection(old),
                        None => Some(moved),
                    }.unwrap();
                    let d = values[b] - values[a];
                    assert(within_reach(values[a]) && within_reach(values[b]));
                    if a < b {
                        assert(after.dual.dom().contains((a, b)));
                        assert(after.dual[(a, b)] == both);
                        assert(after.dual[(a, b)].holds(values[b] - values[a]));
                    } else {
                        assert(after.dual.dom().contains((b, a)));
                        assert(after.dual[(b, a)] == both.negated());
                        assert(after.dual[(b, a)].holds(values[a] - values[b]));
                        lemma_negated_sound(both, values[a] - values[b]);
                    }
                    assert(both.holds(d));
                    match self.dual_get(a, b) {
                        Some(old) => {
                            lemma_intersection_sound(moved, old, d);
                        },
                        None => {},
                    }
                    lemma_shifted_sound(range, shift, d);
                    assert forall|k: (int, int)| #[trigger] self.dual.dom().contains(k) implies self.dual[k].holds(
                        values[k.1] - values[k.0],
                    ) by {
                        if a < b && k == (a, b) {
                            assert(self.dual_get(a, b) == Some(self.dual[k]));
                        } else if b < a && k == (b, a) {
                            assert(self.dual_get(a, b) == Some(self.dual[k].negated()));
                            lemma_negated_sound(self.dual[k], d);
                        } else {
                            assert(after.dual.dom().contains(k));
                            assert(after.dual[k] == self.dual[k]);
                        }
                    }
                }
            },
        }
    }
}

/// An output at `b`, of extent `eb`, slides along one at `a`, of extent
/// `ea`: it starts no lower than where its end meets the start of the
/// other, and no higher than the end of the other.
pub open spec fn slides_along(a: int, b: int, ea: int, eb: int) -> bool {
    a - eb <= b <= a + ea
}

/// The range that the relation of the output `lhs` to the output `rhs`
/// asks for holds between their coordinates, for the values `values` of
/// the variables.
pub open spec fn relation_range_holds(
    coordinates: Seq<Vec2d<Expression>>,
    values: Seq<int>,
    sizes: Seq<Vec2di>,
    lhs: int,
    rhs: int,
    relation: Option<Direction>,
) -> bool {
    match relation {
        None => true,
        Some(Direction::LeftOf) => slides_along(
            coordinates[lhs].y.value(values),
            coordinates[rhs].y.value(values),
            sizes[lhs].y as int,
            sizes[rhs].y as int,
        ),
        Some(Direction::RightOf) => slides_along(
            coordinates[rhs].y.value(values),
            coordinates[lhs].y.value(values),
            sizes[rhs].y as int,
            sizes[lhs].y as int,
        ),
        Some(Direction::Under) => slides_along(
            coordinates[lhs].x.value(values),
            coordinates[rhs].x.value(values),
            sizes[lhs].x as int,
            sizes[rhs].x as int,
        ),
        Some(Direction::Above) => slides_along(
            coordinates[rhs].x.value(values),
            coordinates[lhs].x.value(values),
            sizes[rhs].x as int,
            sizes[lhs].x as int,
        ),
    }
}

impl ProblemView {
    /// After an equality every variable that is left is a coordinate of
    /// its own still.
    pub proof fn lemma_equality_homes(self, lhs: Expression, rhs: Expression)
        requires
            self.wf(),
            self.homes(),
            self.nb_variables() <= usize::MAX,
            lhs.in_scope(self.nb_variables()),
            rhs.in_scope(self.nb_variables()),
            self.spec_add_equality_constraint(lhs, rhs).is_some(),
        ensures
            self.spec_add_equality_constraint(lhs, rhs).unwrap().homes(),
    {
        let after = self.spec_add_equality_constraint(lhs, rhs).unwrap();
        match (lhs.variable, rhs.variable) {
            (None, None) => {},
            (Some(v), None) => {
                let c = rhs.constant - lhs.constant;
                self.lemma_replace_wf(v.index as int, c);
                self.lemma_homes_replaced(v.index as int, c, None, after);
            },
            (None, Some(v)) => {
                let c = lhs.constant - rhs.constant;
                self.lemma_replace_wf(v.index as int, c);
                self.lemma_homes_replaced(v.index as int, c, None, after);
            },
            (Some(l), Some(r)) => {
                if l.index < r.index {
                    let offset = lhs.constant - rhs.constant;
                    self.lemma_substitute_wf(r.index as int, l.index as int, offset);
                    self.lemma_homes_replaced(r.index as int, offset, Some(Variable { index: l.index }), after);
                } else if r.index < l.index {
                    let offset = rhs.constant - lhs.constant;
                    self.lemma_substitute_wf(l.index as int, r.index as int, offset);
                    self.lemma_homes_replaced(l.index as int, offset, Some(Variable { index: r.index }), after);
                }
            },
        }
    }

    /// Problems with the same coordinates and as many variables have the
    /// same variables as coordinates of their own.
    pub proof fn lemma_homes_same_coordinates(self, other: ProblemView)
        requires
            self.homes(),
            self.coordinates == other.coordinates,
            self.nb_variables() == other.nb_variables(),
        ensures
            other.homes(),
    {
        assert forall|v: int| 0 <= v < other.nb_variables() implies #[trigger] other.has_home(v) by {
            assert(self.has_home(v));
            let (i, on_x) = choose|i: int, on_x: bool|
                0 <= i < self.coordinates.len() && #[trigger] self.side(i, on_x) == (Expression {
                    constant: 0,
                    variable: Some(Variable { index: v as usize }),
                });
            assert(other.side(i, on_x) == self.side(i, on_x));
        }
    }

    /// Two outputs tied along one axis, with a range along the other:
    /// values that meet the ranges of the problem after give coordinates
    /// that meet that range, and come from values that meet the ranges of
    /// the problem before.
    pub proof fn lemma_tie_and_range_sound(
        self,
        first: int,
        second: int,
        on_x: bool,
        delta: int,
        range: Constraint,
        values: Seq<int>,
    ) -> (earlier: Seq<int>)
        requires
            self.wf(),
            self.homes(),
            self.nb_variables() <= usize::MAX,
            0 <= first < self.coordinates.len(),
            0 <= second < self.coordinates.len(),
            i32::MIN <= self.side(first, on_x).constant + delta <= i32::MAX,
            self.tie_and_range(first, second, on_x, delta, range).is_some(),
            self.tie_and_range(first, second, on_x, delta, range).unwrap().satisfied_by(values),
            self.tie_and_range(first, second, on_x, delta, range).unwrap().bounded(values),
        ensures
            self.satisfied_by(earlier),
            self.bounded(earlier),
            self.tie_and_range(first, second, on_x, delta, range).unwrap().same_coordinates(values, self, earlier),
            self.tie_and_range(first, second, on_x, delta, range).unwrap().homes(),
            self.tie_and_range(first, second, on_x, delta, range).unwrap().wf(),
            self.tie_and_range(first, second, on_x, delta, range).unwrap().nb_variables() <= self.nb_variables(),
            ({
                let after = self.tie_and_range(first, second, on_x, delta, range).unwrap();
                range.holds(after.side(second, !on_x).value(values) - after.side(first, !on_x).value(values))
            }),
    {
        let after = self.tie_and_range(first, second, on_x, delta, range).unwrap();
        let side = self.side(first, on_x);
        let moved = Expression { constant: (side.constant + delta) as i32, variable: side.variable };
        assert(self.coordinates[first].x.in_scope(self.nb_variables()));
        assert(self.coordinates[second].x.in_scope(self.nb_variables()));
        let tied = self.spec_add_equality_constraint(moved, self.side(second, on_x)).unwrap();
        self.lemma_equality_wf(moved, self.side(second, on_x));
        self.lemma_equality_homes(moved, self.side(second, on_x));
        let neg = tied.side(first, !on_x);
        let pos = tied.side(second, !on_x);
        assert(tied.coordinates[first].x.in_scope(tied.nb_variables()));
        assert(tied.coordinates[second].x.in_scope(tied.nb_variables()));
        tied.lemma_dual_wf(neg, pos, range);
        tied.lemma_homes_same_coordinates(after);
        assert(tied.bounded(values)) by {
            assert forall|i: int| 0 <= i < tied.coordinates.len() implies within_reach(
                (#[trigger] tied.coordinates[i]).x.value(values),
            ) && within_reach(tied.coordinates[i].y.value(values)) by {
                assert(within_reach(after.coordinates[i].x.value(values)));
            }
        }
        tied.lemma_all_values_within_reach(values);
        assert(within_reach(tied.coordinates[first].x.value(values)));
        assert(within_reach(tied.coordinates[second].x.value(values)));
        tied.lemma_dual_sound(neg, pos, range, values);
        let earlier = self.lemma_equality_sound(moved, self.side(second, on_x), values);
        earlier
    }

    /// The problem with `second` tied to `first` at the distance `delta`
    /// along an axis, and the range `range` between them along the other.
    pub open spec fn tie_and_range(self, first: int, second: int, on_x: bool, delta: int, range: Constraint) -> Option<
        ProblemView,
    > {
        let side = self.side(first, on_x);
        match self.spec_add_equality_constraint(
            Expression { constant: (side.constant + delta) as i32, variable: side.variable },
            self.side(second, on_x),
        ) {
            Some(tied) => tied.spec_add_dual_constraint(tied.side(first, !on_x), tied.side(second, !on_x), range),
            None => None,
        }
    }

    /// A relation is a tie along one axis and a range along the other.
    pub proof fn lemma_relation_is_tie_and_range(self, lhs: int, rhs: int, direction: Direction, sizes: Seq<Vec2di>)
        requires
            sizes_valid(sizes),
            sizes.len() == self.coordinates.len(),
            0 <= lhs < self.coordinates.len(),
            0 <= rhs < self.coordinates.len(),
            self.spec_add_relation(lhs, rhs, Some(direction), sizes).is_some(),
        ensures
            self.spec_add_relation(lhs, rhs, Some(direction), sizes) == (match direction {
                Direction::LeftOf => self.tie_and_range(
                    lhs,
                    rhs,
                    true,
                    sizes[lhs].x as int,
                    Constraint { min: (-sizes[rhs].y) as i32, max: sizes[lhs].y },
                ),
                Direction::RightOf => self.tie_and_range(
                    rhs,
                    lhs,
                    true,
                    sizes[rhs].x as int,
                    Constraint { min: (-sizes[lhs].y) as i32, max: sizes[rhs].y },
                ),
                Direction::Under => self.tie_and_range(
                    lhs,
                    rhs,
                    false,
                    sizes[lhs].y as int,
                    Constraint { min: (-sizes[rhs].x) as i32, max: sizes[lhs].x },
                ),
                Direction::Above => self.tie_and_range(
                    rhs,
                    lhs,
                    false,
                    sizes[rhs].y as int,
                    Constraint { min: (-sizes[lhs].x) as i32, max: sizes[rhs].x },
                ),
            }),
            match direction {
                Direction::LeftOf => self.side(lhs, true).constant + sizes[lhs].x <= i32::MAX,
                Direction::RightOf => self.side(rhs, true).constant + sizes[rhs].x <= i32::MAX,
                Direction::Under => self.side(lhs, false).constant + sizes[lhs].y <= i32::MAX,
                Direction::Above => self.side(rhs, false).constant + sizes[rhs].y <= i32::MAX,
            },
    {
    }

    /// Values that meet the ranges of a problem to which a relation was
    /// added give coordinates that meet the range of that relation, and
    /// come from values that meet the ranges of the problem before.
    pub proof fn lemma_relation_sound(
        self,
        lhs: int,
        rhs: int,
        relation: Option<Direction>,
        sizes: Seq<Vec2di>,
        values: Seq<int>,
    ) -> (earlier: Seq<int>)
        requires
            self.wf(),
            self.homes(),
            self.nb_variables() <= usize::MAX,
            sizes_valid(sizes),
            sizes.len() == self.coordinates.len(),
            0 <= lhs < self.coordinates.len(),
            0 <= rhs < self.coordinates.len(),
            self.spec_add_relation(lhs, rhs, relation, sizes).is_some(),
            self.spec_add_relation(lhs, rhs, relation, sizes).unwrap().satisfied_by(values),
            self.spec_add_relation(lhs, rhs, relation, sizes).unwrap().bounded(values),
        ensures
            self.satisfied_by(earlier),
            self.bounded(earlier),
            self.spec_add_relation(lhs, rhs, relation, sizes).unwrap().same_coordinates(values, self, earlier),
            self.spec_add_relation(lhs, rhs, relation, sizes).unwrap().homes(),
            self.spec_add_relation(lhs, rhs, relation, sizes).unwrap().wf(),
            self.spec_add_relation(lhs, rhs, relation, sizes).unwrap().nb_variables() <= self.nb_variables(),
            relation_range_holds(
                self.spec_add_relation(lhs, rhs, relation, sizes).unwrap().coordinates,
                values,
                sizes,
                lhs,
                rhs,
                relation,
            ),
    {
        match relation {
            None => values,
            Some(direction) => {
                self.lemma_relation_is_tie_and_range(lhs, rhs, direction, sizes);
                match direction {
                    Direction::LeftOf => self.lemma_tie_and_range_sound(
                        lhs,
                        rhs,
                        true,
                        sizes[lhs].x as int,
                        Constraint { min: (-sizes[rhs].y) as i32, max: sizes[lhs].y },
                        values,
                    ),
                    Direction::RightOf => self.lemma_tie_and_range_sound(
                        rhs,
                        lhs,
                        true,
                        sizes[rhs].x as int,
                        Constraint { min: (-sizes[lhs].y) as i32, max: sizes[rhs].y },
                        values,
                    ),
                    Direction::Under => self.lemma_tie_and_range_sound(
                        lhs,
                        rhs,
                        false,
                        sizes[lhs].y as int,
                        Constraint { min: (-sizes[rhs].x) as i32, max: sizes[lhs].x },
                        values,
                    ),
                    Direction::Above => self.lemma_tie_and_range_sound(
                        rhs,
                        lhs,
                        false,
                        sizes[rhs].y as int,
                        Constraint { min: (-sizes[lhs].x) as i32, max: sizes[rhs].x },
                        values,
                    ),
                }
            },
        }
    }
}

/// In the problem before any constraint every variable is a coordinate of
/// its own.
pub proof fn lemma_initial_homes(n: nat, anchor: int)
    requires
        0 <= anchor < n,
        2 * n <= usize::MAX,
    ensures
        initial_problem(n, anchor).homes(),
{
    let start = initial_problem(n, anchor);
    assert forall|v: int| 0 <= v < start.nb_variables() implies #[trigger] start.has_home(v) by {
        let k = v / 2;
        let i = if k >= anchor { k + 1 } else { k };
        let on_x = v % 2 == 0;
        assert(start.coordinates[i] == initial_coordinate(i, anchor));
        assert(start.side(i, on_x) == (Expression { constant: 0, variable: Some(Variable { index: v as usize }) }));
    }
}

/// In every problem on the way the variables are coordinates of their
/// own.
pub proof fn lemma_constrained_homes(
    start: ProblemView,
    sizes: Seq<Vec2di>,
    relations: &RelationMatrix<Direction>,
    rhs: int,
    lhs: int,
)
    requires
        start.wf(),
        start.homes(),
        start.nb_variables() <= usize::MAX,
        sizes_valid(sizes),
        start.coordinates.len() == sizes.len(),
        0 <= lhs <= rhs <= sizes.len(),
        rhs == sizes.len() ==> lhs == 0,
        constrained_upto(start, sizes, relations, rhs, lhs).is_some(),
    ensures
        constrained_upto(start, sizes, relations, rhs, lhs).unwrap().homes(),
    decreases rhs, lhs,
{
    if lhs > 0 {
        lemma_constrained_homes(start, sizes, relations, rhs, lhs - 1);
        lemma_constrained_counts(start, sizes, relations, rhs, lhs - 1);
        let before = constrained_upto(start, sizes, relations, rhs, lhs - 1).unwrap();
        match relations.spec_get(lhs - 1, rhs) {
            None => {},
            Some(direction) => {
                before.lemma_relation_is_tie_and_range(lhs - 1, rhs, direction, sizes);
                let (first, second, on_x) = match direction {
                    Direction::LeftOf => (lhs - 1, rhs, true),
                    Direction::RightOf => (rhs, lhs - 1, true),
                    Direction::Under => (lhs - 1, rhs, false),
                    Direction::Above => (rhs, lhs - 1, false),
                };
                let delta = if on_x { sizes[first].x } else { sizes[first].y };
                let side = before.side(first, on_x);
                let moved = Expression { constant: (side.constant + delta) as i32, variable: side.variable };
                assert(before.coordinates[first].x.in_scope(before.nb_variables()));
                assert(before.coordinates[second].x.in_scope(before.nb_variables()));
                before.lemma_equality_wf(moved, before.side(second, on_x));
                before.lemma_equality_homes(moved, before.side(second, on_x));
                let tied = before.spec_add_equality_constraint(moved, before.side(second, on_x)).unwrap();
                let after = constrained_upto(start, sizes, relations, rhs, lhs).unwrap();
                assert(tied.coordinates[first].x.in_scope(tied.nb_variables()));
                assert(tied.coordinates[second].x.in_scope(tied.nb_variables()));
                let range = if on_x {
                    Constraint { min: (-sizes[second].y) as i32, max: sizes[first].y }
                } else {
                    Constraint { min: (-sizes[second].x) as i32, max: sizes[first].x }
                };
                tied.lemma_dual_wf(tied.side(first, !on_x), tied.side(second, !on_x), range);
                tied.lemma_homes_same_coordinates(after);
            },
        }
    } else if rhs > 0 {
        lemma_constrained_homes(start, sizes, relations, rhs - 1, rhs - 1);
    }
}

/// In every problem on the way, values that meet its ranges give
/// coordinates that meet the range of every relation added so far, where
/// those coordinates are within reach.
pub proof fn lemma_constrained_sound(
    start: ProblemView,
    sizes: Seq<Vec2di>,
    relations: &RelationMatrix<Direction>,
    rhs: int,
    lhs: int,
    values: Seq<int>,
    l: int,
    r: int,
)
    requires
        start.wf(),
        start.homes(),
        start.nb_variables() <= usize::MAX,
        sizes_valid(sizes),
        start.coordinates.len() == sizes.len(),
        0 <= lhs <= rhs <= sizes.len(),
        rhs == sizes.len() ==> lhs == 0,
        constrained_upto(start, sizes, relations, rhs, lhs).is_some(),
        constrained_upto(start, sizes, relations, rhs, lhs).unwrap().satisfied_by(values),
        constrained_upto(start, sizes, relations, rhs, lhs).unwrap().bounded(values),
        0 <= l < r,
        r < rhs || (r == rhs && l < lhs),
    ensures
        relation_range_holds(
            constrained_upto(start, sizes, relations, rhs, lhs).unwrap().coordinates,
            values,
            sizes,
            l,
            r,
            relations.spec_get(l, r),
        ),
    decreases rhs, lhs,
{
    let after = constrained_upto(start, sizes, relations, rhs, lhs).unwrap();
    if lhs > 0 {
        let before = constrained_upto(start, sizes, relations, rhs, lhs - 1).unwrap();
        lemma_constrained_counts(start, sizes, relations, rhs, lhs - 1);
        lemma_constrained_homes(start, sizes, relations, rhs, lhs - 1);
        let earlier = before.lemma_relation_sound(lhs - 1, rhs, relations.spec_get(lhs - 1, rhs), sizes, values);
        if !(r == rhs && l == lhs - 1) {
            lemma_constrained_sound(start, sizes, relations, rhs, lhs - 1, earlier, l, r);
            assert(after.coordinates[l].x.value(values) == before.coordinates[l].x.value(earlier));
            assert(after.coordinates[r].x.value(values) == before.coordinates[r].x.value(earlier));
        }
    } else {
        lemma_constrained_sound(start, sizes, relations, rhs - 1, rhs - 1, values, l, r);
    }
}

/// The ranges hold where the solver kept them. For a problem prepared from
/// `sizes` and `relations`, where the values that a solver returns meet,
/// once rounded, the ranges of the problem, the coordinates that come out
/// of them meet the range of every relation: of two outputs side by side
/// the bottom of the right one is no lower than the bottom of the left one
/// less its own height, and no higher than the top of the left one; of two
/// outputs one above the other the same holds of their left sides. This is
/// stated of coordinates that lie within `within_reach`.
pub proof fn lemma_solution_meets_ranges(
    sizes: Seq<Vec2di>,
    relations: &RelationMatrix<Direction>,
    values: Seq<i64>,
    lhs: int,
    rhs: int,
)
    requires
        sizes_valid(sizes),
        2 * sizes.len() <= usize::MAX,
        0 <= lhs < rhs < sizes.len(),
        spec_prepare_problem(sizes, relations).is_some(),
        spec_prepare_problem(sizes, relations).unwrap().satisfied_by(as_ints(values)),
        spec_solution_coordinates(spec_prepare_problem(sizes, relations).unwrap(), values).is_some(),
        forall|i: int|
            0 <= i < sizes.len() ==> within_reach(
                (#[trigger] spec_solution_coordinates(
                    spec_prepare_problem(sizes, relations).unwrap(),
                    values,
                ).unwrap()[i]).x as int,
            ) && within_reach(
                spec_solution_coordinates(spec_prepare_problem(sizes, relations).unwrap(), values).unwrap()[i].y as int,
            ),
    ensures
        ({
            let found = spec_solution_coordinates(spec_prepare_problem(sizes, relations).unwrap(), values).unwrap();
            match relations.spec_get(lhs, rhs) {
                None => true,
                Some(Direction::LeftOf) => found[lhs].y - sizes[rhs].y <= found[rhs].y <= found[lhs].y + sizes[lhs].y,
                Some(Direction::RightOf) => found[rhs].y - sizes[lhs].y <= found[lhs].y <= found[rhs].y + sizes[rhs].y,
                Some(Direction::Under) => found[lhs].x - sizes[rhs].x <= found[rhs].x <= found[lhs].x + sizes[lhs].x,
                Some(Direction::Above) => found[rhs].x - sizes[lhs].x <= found[lhs].x <= found[rhs].x + sizes[rhs].x,
            }
        }),
{
    let n = sizes.len();
    let anchor = lemma_anchor_exists(sizes);
    let start = initial_problem(n, anchor);
    let problem = spec_prepare_problem(sizes, relations).unwrap();
    let found = spec_solution_coordinates(problem, values).unwrap();
    let ints = as_ints(values);
    lemma_initial_wf(n, anchor);
    lemma_initial_homes(n, anchor);
    lemma_constrained_counts(start, sizes, relations, n as int, 0);
    assert forall|i: int| 0 <= i < problem.coordinates.len() implies within_reach(
        (#[trigger] problem.coordinates[i]).x.value(ints),
    ) && within_reach(problem.coordinates[i].y.value(ints)) by {
        assert(problem.coordinates[i].x.in_scope(problem.nb_variables()));
        lemma_evaluate_is_value(problem.coordinates[i].x, values);
        lemma_evaluate_is_value(problem.coordinates[i].y, values);
        assert(within_reach(found[i].x as int));
    }
    lemma_constrained_sound(start, sizes, relations, n as int, 0, ints, lhs, rhs);
    assert(problem.coordinates[lhs].x.in_scope(problem.nb_variables()));
    assert(problem.coordinates[rhs].x.in_scope(problem.nb_variables()));
    lemma_evaluate_is_value(problem.coordinates[lhs].x, values);
    lemma_evaluate_is_value(problem.coordinates[lhs].y, values);
    lemma_evaluate_is_value(problem.coordinates[rhs].x, values);
    lemma_evaluate_is_value(problem.coordinates[rhs].y, values);
}

} // verus!
