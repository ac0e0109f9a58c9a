//! Placement of outputs from their sizes and the directions between them:
//! the output of largest area is put at the origin, and each relation
//! adds an equality and a range to the problem.

use crate::constraint::{Constraint, Expression, Infeasible, Variable};
use crate::geometry::{Direction, Vec2d, Vec2di};
use crate::problem::{ProblemView, QpProblemState};
use crate::relation::{lemma_pair_count_monotonic, pair_count, RelationMatrix};
use vstd::prelude::*;

verus! {

/// Every size has a non-negative width and height.
pub open spec fn sizes_valid(sizes: Seq<Vec2di>) -> bool {
    forall|i: int| 0 <= i < sizes.len() ==> (#[trigger] sizes[i]).x >= 0 && sizes[i].y >= 0
}

/// Area of a size.
pub open spec fn area(size: Vec2di) -> int {
    size.x * size.y
}

/// `anchor` is the output of largest area, the last of them where several
/// have that area.
pub open spec fn is_anchor(sizes: Seq<Vec2di>, anchor: int) -> bool {
    &&& 0 <= anchor < sizes.len()
    &&& forall|j: int| 0 <= j < sizes.len() ==> area(#[trigger] sizes[j]) <= area(sizes[anchor])
    &&& forall|j: int| anchor < j < sizes.len() ==> area(#[trigger] sizes[j]) < area(sizes[anchor])
}

/// The anchor of `sizes`.
pub open spec fn anchor_of(sizes: Seq<Vec2di>) -> int {
    choose|anchor: int| is_anchor(sizes, anchor)
}

/// There is one anchor at most.
pub proof fn lemma_anchor_unique(sizes: Seq<Vec2di>, a: int, b: int)
    requires
        is_anchor(sizes, a),
        is_anchor(sizes, b),
    ensures
        a == b,
{
    if a < b {
        assert(area(sizes[b]) < area(sizes[a]));
        assert(area(sizes[a]) <= area(sizes[b]));
    } else if b < a {
        assert(area(sizes[a]) < area(sizes[b]));
        assert(area(sizes[b]) <= area(sizes[a]));
    }
}

/// Sizes, if there are any, have an anchor.
pub proof fn lemma_anchor_exists(sizes: Seq<Vec2di>) -> (anchor: int)
    requires
        sizes.len() > 0,
    ensures
        is_anchor(sizes, anchor),
        anchor == anchor_of(sizes),
{
    let anchor = lemma_anchor_among(sizes, sizes.len() as int);
    assert(is_anchor(sizes, anchor));
    lemma_anchor_unique(sizes, anchor, anchor_of(sizes));
    anchor
}

/// Among the first `upto` sizes there is one of largest area that none
/// behind it equals.
proof fn lemma_anchor_among(sizes: Seq<Vec2di>, upto: int) -> (anchor: int)
    requires
        0 < upto <= sizes.len(),
    ensures
        0 <= anchor < upto,
        forall|j: int| 0 <= j < upto ==> area(#[trigger] sizes[j]) <= area(sizes[anchor]),
        forall|j: int| anchor < j < upto ==> area(#[trigger] sizes[j]) < area(sizes[anchor]),
    decreases upto,
{
    if upto == 1 {
        0
    } else {
        let before = lemma_anchor_among(sizes, upto - 1);
        if area(sizes[upto - 1]) >= area(sizes[before]) {
            upto - 1
        } else {
            before
        }
    }
}

/// The coordinate of the output `i` before any constraint: the constants
/// `(0, 0)` for the anchor, two variables of its own for another output.
pub open spec fn initial_coordinate(i: int, anchor: int) -> Vec2d<Expression> {
    if i == anchor {
        Vec2d {
            x: Expression { constant: 0, variable: None },
            y: Expression { constant: 0, variable: None },
        }
    } else {
        let k = if i > anchor { i - 1 } else { i };
        Vec2d {
            x: Expression { constant: 0, variable: Some(Variable { index: (2 * k) as usize }) },
            y: Expression { constant: 0, variable: Some(Variable { index: (2 * k + 1) as usize }) },
        }
    }
}

/// The problem of the first `n` outputs before any constraint.
pub open spec fn initial_problem(n: nat, anchor: int) -> ProblemView {
    let free = if 0 <= anchor < n { n - 1 } else { n as int };
    ProblemView {
        coordinates: Seq::new(n, |i: int| initial_coordinate(i, anchor)),
        mono: Seq::new((2 * free) as nat, |v: int| Constraint::spec_unconstrained()),
        dual: Map::empty(),
    }
}

impl ProblemView {
    /// The problem with the output `left` on the left of the output
    /// `right`: the right side of the one is the left side of the other,
    /// and the bottom of `right` lies between the bottom of `left` less
    /// the height of `right` and the top of `left`.
    pub open spec fn spec_add_leftof_relation(self, left: int, right: int, sizes: Seq<Vec2di>) -> Option<
        ProblemView,
    > {
        match self.leftof_equality(left, right, sizes) {
            Some(tied) => tied.spec_add_dual_constraint(
                tied.coordinates[left].y,
                tied.coordinates[right].y,
                Constraint { min: (-sizes[right].y) as i32, max: sizes[left].y },
            ),
            None => None,
        }
    }

    /// The first half of `spec_add_leftof_relation`: the equality.
    pub open spec fn leftof_equality(self, left: int, right: int, sizes: Seq<Vec2di>) -> Option<ProblemView> {
        let side = self.coordinates[left].x;
        if side.constant + sizes[left].x > i32::MAX {
            None
        } else {
            self.spec_add_equality_constraint(
                Expression { constant: (side.constant + sizes[left].x) as i32, variable: side.variable },
                self.coordinates[right].x,
            )
        }
    }

    /// The problem with the output `under` under the output `above`: the
    /// top of the one is the bottom of the other, and the left side of
    /// `above` lies between the left side of `under` less the width of
    /// `above` and the right side of `under`.
    pub open spec fn spec_add_under_relation(self, under: int, above: int, sizes: Seq<Vec2di>) -> Option<
        ProblemView,
    > {
        match self.under_equality(under, above, sizes) {
            Some(tied) => tied.spec_add_dual_constraint(
                tied.coordinates[under].x,
                tied.coordinates[above].x,
                Constraint { min: (-sizes[above].x) as i32, max: sizes[under].x },
            ),
            None => None,
        }
    }

    /// The first half of `spec_add_under_relation`: the equality.
    pub open spec fn under_equality(self, under: int, above: int, sizes: Seq<Vec2di>) -> Option<ProblemView> {
        let side = self.coordinates[under].y;
        if side.constant + sizes[under].y > i32::MAX {
            None
        } else {
            self.spec_add_equality_constraint(
                Expression { constant: (side.constant + sizes[under].y) as i32, variable: side.variable },
                self.coordinates[above].y,
            )
        }
    }

    /// The problem with the relation of the output `lhs` to the output
    /// `rhs`, if there is one.
    pub open spec fn spec_add_relation(self, lhs: int, rhs: int, relation: Option<Direction>, sizes: Seq<Vec2di>)
        -> Option<ProblemView> {
        match relation {
            None => Some(self),
            Some(Direction::LeftOf) => self.spec_add_leftof_relation(lhs, rhs, sizes),
            Some(Direction::RightOf) => self.spec_add_leftof_relation(rhs, lhs, sizes),
            Some(Direction::Under) => self.spec_add_under_relation(lhs, rhs, sizes),
            Some(Direction::Above) => self.spec_add_under_relation(rhs, lhs, sizes),
        }
    }
}

/// The problem once the relations of the pairs that come before
/// `(lhs, rhs)` have been added, the pairs ordered by their higher index
/// and then by their lower one; `None` as soon as one cannot be added.
pub open spec fn constrained_upto(
    start: ProblemView,
    sizes: Seq<Vec2di>,
    relations: &RelationMatrix<Direction>,
    rhs: int,
    lhs: int,
) -> Option<ProblemView>
    decreases rhs, lhs,
{
    if rhs < 0 || lhs < 0 {
        Some(start)
    } else if lhs > 0 {
        match constrained_upto(start, sizes, relations, rhs, lhs - 1) {
            Some(problem) => problem.spec_add_relation(lhs - 1, rhs, relations.spec_get(lhs - 1, rhs), sizes),
            None => None,
        }
    } else if rhs > 0 {
        constrained_upto(start, sizes, relations, rhs - 1, rhs - 1)
    } else {
        Some(start)
    }
}

/// The problem of placing outputs of the sizes `sizes` under the relations
/// `relations`, with the anchor at `(0, 0)`; `None` where the relations
/// cannot all hold.
pub open spec fn spec_prepare_problem(sizes: Seq<Vec2di>, relations: &RelationMatrix<Direction>) -> Option<
    ProblemView,
> {
    constrained_upto(initial_problem(sizes.len(), anchor_of(sizes)), sizes, relations, sizes.len() as int, 0)
}

pub(crate) fn area_of(size: Vec2di) -> (res: i64)
    ensures
        res == area(size),
{
    assert(i32::MIN * i32::MAX <= size.x * size.y <= i32::MIN * i32::MIN) by (nonlinear_arith)
        requires
            i32::MIN <= size.x <= i32::MAX,
            i32::MIN <= size.y <= i32::MAX,
    ;
    size.x as i64 * size.y as i64
}

/// Index of the output of largest area, the last of them where several
/// have that area.
pub fn anchor_index(sizes: &[Vec2di]) -> (res: usize)
    requires
        sizes@.len() > 0,
    ensures
        is_anchor(sizes@, res as int),
        res == anchor_of(sizes@),
{
    let mut best: usize = 0;
    let mut best_area: i64 = area_of(sizes[0]);
    let mut i: usize = 1;
    while i < sizes.len()
        invariant
            1 <= i <= sizes@.len(),
            best < i,
            best_area == area(sizes@[best as int]),
            forall|j: int| 0 <= j < i ==> area(#[trigger] sizes@[j]) <= area(sizes@[best as int]),
            forall|j: int| best < j < i ==> area(#[trigger] sizes@[j]) < area(sizes@[best as int]),
        decreases sizes@.len() - i,
    {
        let candidate: i64 = area_of(sizes[i]);
        if candidate >= best_area {
            best = i;
            best_area = candidate;
        }
        i += 1;
    }
    proof {
        assert(is_anchor(sizes@, best as int));
        lemma_anchor_unique(sizes@, best as int, anchor_of(sizes@));
    }
    best
}

/// Adds to `problem` that the output `left` is on the left of the output
/// `right`. Where the equality holds and the range then fails, the
/// equality stays in the problem.
pub fn add_leftof_relation(problem: &mut QpProblemState, left: usize, right: usize, sizes: &[Vec2di]) -> (res:
    Result<(), Infeasible>)
    requires
        old(problem).wf(),
        old(problem)@.coordinates.len() == sizes@.len(),
        left < sizes@.len(),
        right < sizes@.len(),
        sizes_valid(sizes@),
    ensures
        final(problem).wf(),
        final(problem)@.coordinates.len() == sizes@.len(),
        match res {
            Ok(_) => Some(final(problem)@) == old(problem)@.spec_add_leftof_relation(
                left as int,
                right as int,
                sizes@,
            ),
            Err(_) => old(problem)@.spec_add_leftof_relation(left as int, right as int, sizes@).is_none() && final(problem)@ == (match old(problem)@.leftof_equality(left as int, right as int, sizes@) {
                Some(tied) => tied,
                None => old(problem)@,
            }),
        },
{
    let side = problem.coordinate_definitions[left].x;
    assert(side == problem@.coordinates[left as int].x);
    if side.constant as i64 + sizes[left].x as i64 > i32::MAX as i64 {
        return Err(Infeasible);
    }
    match problem.add_equality_constraint(side + sizes[left].x, problem.coordinate_definitions[right].x) {
        Ok(()) => {},
        Err(e) => {
            return Err(e);
        },
    }
    assert(problem@.coordinates.len() == sizes@.len());
    let neg = problem.coordinate_definitions[left].y;
    let pos = problem.coordinate_definitions[right].y;
    assert(neg == problem@.coordinates[left as int].y);
    assert(pos == problem@.coordinates[right as int].y);
    problem.add_dual_constraint(neg, pos, Constraint::new(-sizes[right].y, sizes[left].y))
}

/// Adds to `problem` that the output `under` is under the output `above`.
/// Where the equality holds and the range then fails, the equality stays
/// in the problem.
pub fn add_under_relation(problem: &mut QpProblemState, under: usize, above: usize, sizes: &[Vec2di]) -> (res:
    Result<(), Infeasible>)
    requires
        old(problem).wf(),
        old(problem)@.coordinates.len() == sizes@.len(),
        under < sizes@.len(),
        above < sizes@.len(),
        sizes_valid(sizes@),
    ensures
        final(problem).wf(),
        final(problem)@.coordinates.len() == sizes@.len(),
        match res {
            Ok(_) => Some(final(problem)@) == old(problem)@.spec_add_under_relation(
                under as int,
                above as int,
                sizes@,
            ),
            Err(_) => old(problem)@.spec_add_under_relation(under as int, above as int, sizes@).is_none() && final(problem)@ == (match old(problem)@.under_equality(under as int, above as int, sizes@) {
                Some(tied) => tied,
                None => old(problem)@,
            }),
        },
{
    let side = problem.coordinate_definitions[under].y;
    assert(side == problem@.coordinates[under as int].y);
    if side.constant as i64 + sizes[under].y as i64 > i32::MAX as i64 {
        return Err(Infeasible);
    }
    match problem.add_equality_constraint(side + sizes[under].y, problem.coordinate_definitions[above].y) {
        Ok(()) => {},
        Err(e) => {
            return Err(e);
        },
    }
    assert(problem@.coordinates.len() == sizes@.len());
    let neg = problem.coordinate_definitions[under].x;
    let pos = problem.coordinate_definitions[above].x;
    assert(neg == problem@.coordinates[under as int].x);
    assert(pos == problem@.coordinates[above as int].x);
    problem.add_dual_constraint(neg, pos, Constraint::new(-sizes[above].x, sizes[under].x))
}

/// Once a relation could not be added, none of the later problems exists.
pub proof fn lemma_constrained_stays_none(
    start: ProblemView,
    sizes: Seq<Vec2di>,
    relations: &RelationMatrix<Direction>,
    rhs: int,
    lhs: int,
    later_rhs: int,
    later_lhs: int,
)
    requires
        0 <= lhs <= rhs,
        0 <= later_lhs <= later_rhs,
        rhs < later_rhs || (rhs == later_rhs && lhs <= later_lhs),
        constrained_upto(start, sizes, relations, rhs, lhs).is_none(),
    ensures
        constrained_upto(start, sizes, relations, later_rhs, later_lhs).is_none(),
    decreases later_rhs, later_lhs,
{
    if rhs == later_rhs && lhs == later_lhs {
    } else if later_lhs > 0 {
        lemma_constrained_stays_none(start, sizes, relations, rhs, lhs, later_rhs, later_lhs - 1);
    } else {
        lemma_constrained_stays_none(start, sizes, relations, rhs, lhs, later_rhs - 1, later_rhs - 1);
    }
}

/// Gathers the constraints of the placement of outputs of the sizes
/// `sizes` under the relations `relations`: the output of largest area is
/// put at `(0, 0)`, every other output gets two variables, and each
/// relation adds an equality and a range. Fails where they cannot all
/// hold, or a coordinate leaves the range of `i32`.
pub fn prepare_problem(sizes: &[Vec2di], relations: &RelationMatrix<Direction>) -> (res: Result<
    QpProblemState,
    Infeasible,
>)
    requires
        sizes@.len() > 0,
        sizes_valid(sizes@),
        relations.wf(),
        relations.spec_size() == sizes@.len(),
        pair_count((2 * sizes@.len()) as nat) <= usize::MAX,
    ensures
        match res {
            Ok(problem) => problem.wf() && Some(problem@) == spec_prepare_problem(sizes@, relations),
            Err(_) => spec_prepare_problem(sizes@, relations).is_none(),
        },
{
    let n = sizes.len();
    let anchor = anchor_index(sizes);
    let ghost a = anchor as int;
    let mut problem = QpProblemState::new();
    assert(problem@ =~= initial_problem(0, a));
    let mut i: usize = 0;
    while i < n
        invariant
            i <= n,
            n == sizes@.len(),
            a == anchor,
            anchor < n,
            pair_count((2 * n) as nat) <= usize::MAX,
            problem.wf(),
            problem@ == initial_problem(i as nat, a),
        decreases n - i,
    {
        let ghost before = problem@;
        let definition = if i != anchor {
            proof {
                crate::relation::lemma_pair_count_monotonic((before.nb_variables() + 2) as nat, (2 * n) as nat);
                crate::relation::lemma_pair_count_monotonic(
                    (before.nb_variables() + 1) as nat,
                    (before.nb_variables() + 2) as nat,
                );
            }
            let x = Expression::free_variable(&mut problem);
            let y = Expression::free_variable(&mut problem);
            Vec2d { x, y }
        } else {
            Vec2d { x: Expression::constant(0), y: Expression::constant(0) }
        };
        assert(definition == initial_coordinate(i as int, a));
        problem.add_coordinate(definition);
        proof {
            let target = initial_problem((i + 1) as nat, a);
            assert(problem@.coordinates =~= target.coordinates);
            assert(problem@.mono =~= target.mono);
            assert(problem@ =~= target);
        }
        i += 1;
    }
    let ghost start = problem@;
    let mut rhs: usize = 0;
    while rhs < n
        invariant
            rhs <= n,
            n == sizes@.len(),
            sizes_valid(sizes@),
            relations.wf(),
            relations.spec_size() == n,
            start == initial_problem(n as nat, anchor_of(sizes@)),
            problem.wf(),
            problem@.coordinates.len() == n,
            Some(problem@) == constrained_upto(start, sizes@, relations, rhs as int, 0),
        decreases n - rhs,
    {
        let mut lhs: usize = 0;
        while lhs < rhs
            invariant
                lhs <= rhs < n,
                n == sizes@.len(),
                sizes_valid(sizes@),
                relations.wf(),
                relations.spec_size() == n,
                start == initial_problem(n as nat, anchor_of(sizes@)),
                problem.wf(),
                problem@.coordinates.len() == n,
                Some(problem@) == constrained_upto(start, sizes@, relations, rhs as int, lhs as int),
            decreases rhs - lhs,
        {
            let added = match relations.get(lhs, rhs) {
                Some(Direction::LeftOf) => add_leftof_relation(&mut problem, lhs, rhs, sizes),
                Some(Direction::RightOf) => add_leftof_relation(&mut problem, rhs, lhs, sizes),
                Some(Direction::Under) => add_under_relation(&mut problem, lhs, rhs, sizes),
                Some(Direction::Above) => add_under_relation(&mut problem, rhs, lhs, sizes),
                None => Ok(()),
            };
            match added {
                Ok(()) => {},
                Err(e) => {
                    proof {
                        assert(constrained_upto(start, sizes@, relations, rhs as int, lhs + 1).is_none());
                        lemma_constrained_stays_none(start, sizes@, relations, rhs as int, lhs + 1, n as int, 0);
                    }
                    return Err(e);
                },
            }
            lhs += 1;
        }
        rhs += 1;
    }
    Ok(problem)
}

impl Expression {
    /// Value of the expression for the values `values` of the variables, or
    /// `None` where the value of its variable, or the sum, is outside the
    /// range of `i32`.
    pub open spec fn spec_evaluate(self, values: Seq<i64>) -> Option<i32> {
        let variable: int = match self.variable {
            Some(v) => values[v.index as int] as int,
            None => 0,
        };
        if i32::MIN <= variable <= i32::MAX && i32::MIN <= self.constant + variable <= i32::MAX {
            Some((self.constant + variable) as i32)
        } else {
            None
        }
    }

    /// Value of the expression where the variables have the values
    /// `variables`, each of them rounded to an integer beforehand.
    pub fn evaluate(&self, variables: &[i64]) -> (res: Result<i32, Infeasible>)
        requires
            self.in_scope(variables@.len()),
        ensures
            res.is_ok() == self.spec_evaluate(variables@).is_some(),
            res.is_ok() ==> Some(res.unwrap()) == self.spec_evaluate(variables@),
    {
        let variable: i64 = match self.variable {
            Some(v) => variables[v.index],
            None => 0,
        };
        if variable < i32::MIN as i64 || variable > i32::MAX as i64 {
            return Err(Infeasible);
        }
        let sum: i64 = self.constant as i64 + variable;
        if sum < i32::MIN as i64 || sum > i32::MAX as i64 {
            return Err(Infeasible);
        }
        Ok(sum as i32)
    }
}

/// The values as mathematical integers.
pub open spec fn as_ints(values: Seq<i64>) -> Seq<int> {
    Seq::new(values.len(), |i: int| values[i] as int)
}

/// Where an expression can be evaluated, the result is its value.
pub proof fn lemma_evaluate_is_value(e: Expression, values: Seq<i64>)
    requires
        e.in_scope(values.len()),
        e.spec_evaluate(values).is_some(),
    ensures
        e.spec_evaluate(values).unwrap() == e.value(as_ints(values)),
{
}

/// The coordinates for the values `values` of the variables, or `None`
/// where one of them is outside the range of `i32`.
pub open spec fn spec_solution_coordinates(problem: ProblemView, values: Seq<i64>) -> Option<Seq<Vec2di>> {
    if forall|i: int|
        0 <= i < problem.coordinates.len() ==> (#[trigger] problem.coordinates[i]).x.spec_evaluate(values).is_some()
            && problem.coordinates[i].y.spec_evaluate(values).is_some() {
        Some(
            Seq::new(
                problem.coordinates.len(),
                |i: int|
                    Vec2d {
                        x: problem.coordinates[i].x.spec_evaluate(values).unwrap(),
                        y: problem.coordinates[i].y.spec_evaluate(values).unwrap(),
                    },
            ),
        )
    } else {
        None
    }
}

/// The bottom-left corner of each output, from the values that a solver
/// found for the variables, each rounded to an integer beforehand.
pub fn solution_coordinates(problem: &QpProblemState, values: &[i64]) -> (res: Result<Vec<Vec2di>, Infeasible>)
    requires
        problem.wf(),
        values@.len() == problem@.nb_variables(),
    ensures
        res.is_ok() == spec_solution_coordinates(problem@, values@).is_some(),
        res.is_ok() ==> Some(res.unwrap()@) == spec_solution_coordinates(problem@, values@),
{
    let n = problem.coordinate_definitions.len();
    let mut coordinates: Vec<Vec2di> = Vec::new();
    let mut i: usize = 0;
    while i < n
        invariant
            i <= n,
            n == problem@.coordinates.len(),
            problem.wf(),
            values@.len() == problem@.nb_variables(),
            coordinates@.len() == i,
            forall|j: int|
                0 <= j < i ==> (#[trigger] problem@.coordinates[j]).x.spec_evaluate(values@).is_some()
                    && problem@.coordinates[j].y.spec_evaluate(values@).is_some(),
            forall|j: int|
                0 <= j < i ==> #[trigger] coordinates@[j] == (Vec2d {
                    x: problem@.coordinates[j].x.spec_evaluate(values@).unwrap(),
                    y: problem@.coordinates[j].y.spec_evaluate(values@).unwrap(),
                }),
        decreases n - i,
    {
        let definition = problem.coordinate_definitions[i];
        assert(definition == problem@.coordinates[i as int]);
        let x = match definition.x.evaluate(values) {
            Ok(x) => x,
            Err(e) => {
                return Err(e);
            },
        };
        let y = match definition.y.evaluate(values) {
            Ok(y) => y,
            Err(e) => {
                return Err(e);
            },
        };
        coordinates.push(Vec2d { x, y });
        i += 1;
    }
    assert(coordinates@ =~= spec_solution_coordinates(problem@, values@).unwrap());
    Ok(coordinates)
}

impl ProblemView {
    /// Putting an output on the left of another leaves a well-formed
    /// problem, with no more variables and as many coordinates.
    pub proof fn lemma_leftof_wf(self, left: int, right: int, sizes: Seq<Vec2di>)
        requires
            self.wf(),
            sizes_valid(sizes),
            sizes.len() == self.coordinates.len(),
            0 <= left < self.coordinates.len(),
            0 <= right < self.coordinates.len(),
            self.spec_add_leftof_relation(left, right, sizes).is_some(),
        ensures
            self.spec_add_leftof_relation(left, right, sizes).unwrap().wf(),
            self.spec_add_leftof_relation(left, right, sizes).unwrap().nb_variables() <= self.nb_variables(),
            self.spec_add_leftof_relation(left, right, sizes).unwrap().coordinates.len() == self.coordinates.len(),
    {
        let side = self.coordinates[left].x;
        let moved = Expression { constant: (side.constant + sizes[left].x) as i32, variable: side.variable };
        assert(self.coordinates[right].x.in_scope(self.nb_variables()));
        self.lemma_equality_wf(moved, self.coordinates[right].x);
        let tied = self.leftof_equality(left, right, sizes).unwrap();
        assert(tied.coordinates[left].y.in_scope(tied.nb_variables()));
        assert(tied.coordinates[right].y.in_scope(tied.nb_variables()));
        tied.lemma_dual_wf(
            tied.coordinates[left].y,
            tied.coordinates[right].y,
            Constraint { min: (-sizes[right].y) as i32, max: sizes[left].y },
        );
    }

    /// Putting an output under another leaves a well-formed problem, with
    /// no more variables and as many coordinates.
    pub proof fn lemma_under_wf(self, under: int, above: int, sizes: Seq<Vec2di>)
        requires
            self.wf(),
            sizes_valid(sizes),
            sizes.len() == self.coordinates.len(),
            0 <= under < self.coordinates.len(),
            0 <= above < self.coordinates.len(),
            self.spec_add_under_relation(under, above, sizes).is_some(),
        ensures
            self.spec_add_under_relation(under, above, sizes).unwrap().wf(),
            self.spec_add_under_relation(under, above, sizes).unwrap().nb_variables() <= self.nb_variables(),
            self.spec_add_under_relation(under, above, sizes).unwrap().coordinates.len() == self.coordinates.len(),
    {
        let side = self.coordinates[under].y;
        let moved = Expression { constant: (side.constant + sizes[under].y) as i32, variable: side.variable };
        assert(self.coordinates[above].y.in_scope(self.nb_variables()));
        self.lemma_equality_wf(moved, self.coordinates[above].y);
        let tied = self.under_equality(under, above, sizes).unwrap();
        assert(tied.coordinates[under].x.in_scope(tied.nb_variables()));
        assert(tied.coordinates[above].x.in_scope(tied.nb_variables()));
        tied.lemma_dual_wf(
            tied.coordinates[under].x,
            tied.coordinates[above].x,
            Constraint { min: (-sizes[above].x) as i32, max: sizes[under].x },
        );
    }

    /// A relation leaves a well-formed problem, with no more variables and
    /// as many coordinates.
    pub proof fn lemma_relation_keeps_counts(self, lhs: int, rhs: int, relation: Option<Direction>, sizes: Seq<Vec2di>)
        requires
            self.wf(),
            sizes_valid(sizes),
            sizes.len() == self.coordinates.len(),
            0 <= lhs < self.coordinates.len(),
            0 <= rhs < self.coordinates.len(),
            self.spec_add_relation(lhs, rhs, relation, sizes).is_some(),
        ensures
            self.spec_add_relation(lhs, rhs, relation, sizes).unwrap().wf(),
            self.spec_add_relation(lhs, rhs, relation, sizes).unwrap().nb_variables() <= self.nb_variables(),
            self.spec_add_relation(lhs, rhs, relation, sizes).unwrap().coordinates.len() == self.coordinates.len(),
    {
        match relation {
            None => {},
            Some(Direction::LeftOf) => self.lemma_leftof_wf(lhs, rhs, sizes),
            Some(Direction::RightOf) => self.lemma_leftof_wf(rhs, lhs, sizes),
            Some(Direction::Under) => self.lemma_under_wf(lhs, rhs, sizes),
            Some(Direction::Above) => self.lemma_under_wf(rhs, lhs, sizes),
        }
    }
}

/// Adding relations leaves a well-formed problem, and adds no variable and
/// no coordinate.
pub proof fn lemma_constrained_counts(
    start: ProblemView,
    sizes: Seq<Vec2di>,
    relations: &RelationMatrix<Direction>,
    rhs: int,
    lhs: int,
)
    requires
        start.wf(),
        sizes_valid(sizes),
        start.coordinates.len() == sizes.len(),
        0 <= lhs <= rhs <= sizes.len(),
        rhs == sizes.len() ==> lhs == 0,
        constrained_upto(start, sizes, relations, rhs, lhs).is_some(),
    ensures
        constrained_upto(start, sizes, relations, rhs, lhs).unwrap().wf(),
        constrained_upto(start, sizes, relations, rhs, lhs).unwrap().nb_variables() <= start.nb_variables(),
        constrained_upto(start, sizes, relations, rhs, lhs).unwrap().coordinates.len() == start.coordinates.len(),
    decreases rhs, lhs,
{
    if lhs > 0 {
        lemma_constrained_counts(start, sizes, relations, rhs, lhs - 1);
        let before = constrained_upto(start, sizes, relations, rhs, lhs - 1).unwrap();
        before.lemma_relation_keeps_counts(lhs - 1, rhs, relations.spec_get(lhs - 1, rhs), sizes);
    } else if rhs > 0 {
        lemma_constrained_counts(start, sizes, relations, rhs - 1, rhs - 1);
    }
}

/// The problem before any constraint is well-formed.
pub proof fn lemma_initial_wf(n: nat, anchor: int)
    requires
        0 <= anchor < n,
    ensures
        initial_problem(n, anchor).wf(),
        initial_problem(n, anchor).coordinates.len() == n,
        initial_problem(n, anchor).nb_variables() == 2 * (n - 1),
{
}

/// A prepared problem is well-formed, with a coordinate for each output,
/// and two variables at most for each output but the anchor.
pub proof fn lemma_prepared_counts(sizes: Seq<Vec2di>, relations: &RelationMatrix<Direction>)
    requires
        sizes.len() > 0,
        sizes_valid(sizes),
        is_anchor(sizes, anchor_of(sizes)),
        spec_prepare_problem(sizes, relations).is_some(),
    ensures
        spec_prepare_problem(sizes, relations).unwrap().wf(),
        spec_prepare_problem(sizes, relations).unwrap().coordinates.len() == sizes.len(),
        spec_prepare_problem(sizes, relations).unwrap().nb_variables() <= 2 * (sizes.len() - 1),
{
    lemma_initial_wf(sizes.len(), anchor_of(sizes));
    lemma_constrained_counts(
        initial_problem(sizes.len(), anchor_of(sizes)),
        sizes,
        relations,
        sizes.len() as int,
        0,
    );
}

} // verus!
