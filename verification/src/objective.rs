//! What the quadratic program minimizes: the sum, over the outputs and the
//! two axes, of the squares of the residuals. The entries of the program
//! are the coefficients of that sum, as is proved here.

use crate::constraint::Expression;
use crate::geometry::{half, Vec2di};
use crate::placement::area;
use crate::problem::ProblemView;
use crate::program::{
    centre_constant, extent_along, linear_entry, names, objective_entry, residual_coefficient, residual_constant,
};
use vstd::prelude::*;

verus! {

/// Where the centre of the output `i` is along an axis, for the values
/// `values` of the variables.
pub open spec fn centre(problem: ProblemView, sizes: Seq<Vec2di>, i: int, on_x: bool, values: Seq<int>) -> int {
    problem.side(i, on_x).value(values) + half(extent_along(sizes[i], on_x))
}

/// The residual of the output `i` along an axis: the sum, over the first
/// `upto` outputs, of the area of each times the distance from its centre
/// to the centre of `i`.
pub open spec fn residual(
    problem: ProblemView,
    sizes: Seq<Vec2di>,
    i: int,
    on_x: bool,
    values: Seq<int>,
    upto: int,
) -> int
    decreases upto,
{
    if upto <= 0 {
        0
    } else {
        residual(problem, sizes, i, on_x, values, upto - 1) + area(sizes[upto - 1]) * (centre(
            problem,
            sizes,
            i,
            on_x,
            values,
        ) - centre(problem, sizes, upto - 1, on_x, values))
    }
}

/// The objective: the sum, over the first `upto` outputs and the two axes,
/// of the squares of the residuals.
pub open spec fn objective(problem: ProblemView, sizes: Seq<Vec2di>, values: Seq<int>, upto: int) -> int
    decreases upto,
{
    if upto <= 0 {
        0
    } else {
        let n = sizes.len() as int;
        let rx = residual(problem, sizes, upto - 1, true, values, n);
        let ry = residual(problem, sizes, upto - 1, false, values, n);
        objective(problem, sizes, values, upto - 1) + rx * rx + ry * ry
    }
}

/// The part of the objective that the values of the variables do not
/// change: the sum of the squares of the constant parts of the residuals.
pub open spec fn objective_constant(problem: ProblemView, sizes: Seq<Vec2di>, upto: int) -> int
    decreases upto,
{
    if upto <= 0 {
        0
    } else {
        let n = sizes.len() as int;
        let kx = residual_constant(problem, sizes, upto - 1, true, n);
        let ky = residual_constant(problem, sizes, upto - 1, false, n);
        objective_constant(problem, sizes, upto - 1) + kx * kx + ky * ky
    }
}

/// Sum of `coefficients[v] * values[v]` over the first `upto` variables.
pub open spec fn dot(coefficients: spec_fn(int) -> int, values: Seq<int>, upto: int) -> int
    decreases upto,
{
    if upto <= 0 {
        0
    } else {
        dot(coefficients, values, upto - 1) + coefficients(upto - 1) * values[upto - 1]
    }
}

/// Sum of `entries(r, c) * values[r] * values[c]` over the first `rows`
/// variables `r` and the first `cols` variables `c`.
pub open spec fn bilinear(entries: spec_fn(int, int) -> int, values: Seq<int>, rows: int, cols: int) -> int
    decreases rows,
{
    if rows <= 0 {
        0
    } else {
        bilinear(entries, values, rows - 1, cols) + values[rows - 1] * dot(
            |c: int| entries(rows - 1, c),
            values,
            cols,
        )
    }
}

/// A sum of products is linear in its coefficients.
pub proof fn lemma_dot_combination(
    sum: spec_fn(int) -> int,
    first: spec_fn(int) -> int,
    second: spec_fn(int) -> int,
    factor: int,
    values: Seq<int>,
    upto: int,
)
    requires
        forall|v: int| 0 <= v < upto ==> #[trigger] sum(v) == first(v) + factor * second(v),
    ensures
        dot(sum, values, upto) == dot(first, values, upto) + factor * dot(second, values, upto),
    decreases upto,
{
    if upto > 0 {
        lemma_dot_combination(sum, first, second, factor, values, upto - 1);
        let v = upto - 1;
        let x = values[v];
        let a = dot(second, values, upto - 1);
        assert(sum(v) == first(v) + factor * second(v));
        assert((first(v) + factor * second(v)) * x == first(v) * x + factor * (second(v) * x)) by (nonlinear_arith);
        assert(factor * (a + second(v) * x) == factor * a + factor * (second(v) * x)) by (nonlinear_arith);
    } else {
        assert(factor * 0 == 0);
    }
}

/// Sums of products with the same coefficients are the same.
pub proof fn lemma_dot_same(first: spec_fn(int) -> int, second: spec_fn(int) -> int, values: Seq<int>, upto: int)
    requires
        forall|v: int| 0 <= v < upto ==> #[trigger] first(v) == second(v),
    ensures
        dot(first, values, upto) == dot(second, values, upto),
    decreases upto,
{
    if upto > 0 {
        lemma_dot_same(first, second, values, upto - 1);
        assert(first(upto - 1) == second(upto - 1));
    }
}

/// The sum that picks the variable of an expression is the value of that
/// variable.
pub proof fn lemma_dot_names(e: Expression, values: Seq<int>, upto: int)
    requires
        0 <= upto,
    ensures
        dot(|v: int| names(e, v), values, upto) == (match e.variable {
            Some(variable) => if variable.index < upto {
                values[variable.index as int]
            } else {
                0
            },
            None => 0,
        }),
    decreases upto,
{
    if upto > 0 {
        lemma_dot_names(e, values, upto - 1);
        let v = upto - 1;
        assert(names(e, v) * values[v] == if names(e, v) == 1 { values[v] } else { 0 }) by (nonlinear_arith)
            requires
                names(e, v) == 0 || names(e, v) == 1,
        ;
    }
}

/// The residual is linear in the values of the variables: it is the sum
/// of its coefficients times the values, plus its constant part.
pub proof fn lemma_residual_linear(
    problem: ProblemView,
    sizes: Seq<Vec2di>,
    i: int,
    on_x: bool,
    values: Seq<int>,
    upto: int,
)
    requires
        problem.wf(),
        values.len() == problem.nb_variables(),
        problem.coordinates.len() == sizes.len(),
        0 <= i < sizes.len(),
        0 <= upto <= sizes.len(),
    ensures
        residual(problem, sizes, i, on_x, values, upto) == dot(
            |v: int| residual_coefficient(problem, sizes, i, on_x, v, upto),
            values,
            values.len() as int,
        ) + residual_constant(problem, sizes, i, on_x, upto),
    decreases upto,
{
    let m = values.len() as int;
    if upto > 0 {
        let j = upto - 1;
        lemma_residual_linear(problem, sizes, i, on_x, values, j);
        let a = area(sizes[j]);
        let here = |v: int| residual_coefficient(problem, sizes, i, on_x, v, upto);
        let before = |v: int| residual_coefficient(problem, sizes, i, on_x, v, j);
        let change = |v: int| names(problem.side(i, on_x), v) - names(problem.side(j, on_x), v);
        let of_i = |v: int| names(problem.side(i, on_x), v);
        let of_j = |v: int| names(problem.side(j, on_x), v);
        assert forall|v: int| 0 <= v < m implies #[trigger] here(v) == before(v) + a * change(v) by {}
        lemma_dot_combination(here, before, change, a, values, m);
        assert forall|v: int| 0 <= v < m implies #[trigger] change(v) == of_i(v) + (-1) * of_j(v) by {}
        lemma_dot_combination(change, of_i, of_j, -1, values, m);
        lemma_dot_names(problem.side(i, on_x), values, m);
        lemma_dot_names(problem.side(j, on_x), values, m);
        assert(problem.coordinates[i].x.in_scope(problem.nb_variables()));
        assert(problem.coordinates[j].x.in_scope(problem.nb_variables()));
        let picked_i = dot(of_i, values, m);
        let picked_j = dot(of_j, values, m);
        let constant_i = centre_constant(problem, sizes, i, on_x);
        let constant_j = centre_constant(problem, sizes, j, on_x);
        assert(centre(problem, sizes, i, on_x, values) == constant_i + picked_i);
        assert(centre(problem, sizes, j, on_x, values) == constant_j + picked_j);
        assert(a * ((constant_i + picked_i) - (constant_j + picked_j)) == a * (constant_i - constant_j) + a * (picked_i
            + (-1) * picked_j)) by (nonlinear_arith);
    } else {
        let here = |v: int| residual_coefficient(problem, sizes, i, on_x, v, upto);
        let zero = |v: int| 0int;
        lemma_dot_same(here, zero, values, m);
        lemma_dot_zero(values, m);
    }
}

/// A sum of products with no coefficient is nothing.
pub proof fn lemma_dot_zero(values: Seq<int>, upto: int)
    ensures
        dot(|v: int| 0int, values, upto) == 0,
    decreases upto,
{
    if upto > 0 {
        lemma_dot_zero(values, upto - 1);
    }
}

/// A sum over pairs is linear in its entries.
pub proof fn lemma_bilinear_combination(
    sum: spec_fn(int, int) -> int,
    first: spec_fn(int, int) -> int,
    second: spec_fn(int, int) -> int,
    values: Seq<int>,
    rows: int,
    cols: int,
)
    requires
        forall|r: int, c: int| 0 <= r < rows && 0 <= c < cols ==> #[trigger] sum(r, c) == first(r, c) + second(r, c),
    ensures
        bilinear(sum, values, rows, cols) == bilinear(first, values, rows, cols) + bilinear(
            second,
            values,
            rows,
            cols,
        ),
    decreases rows,
{
    if rows > 0 {
        lemma_bilinear_combination(sum, first, second, values, rows - 1, cols);
        let r = rows - 1;
        let row = |c: int| sum(r, c);
        let row_first = |c: int| first(r, c);
        let row_second = |c: int| second(r, c);
        assert forall|c: int| 0 <= c < cols implies #[trigger] row(c) == row_first(c) + 1 * row_second(c) by {
            assert(sum(r, c) == first(r, c) + second(r, c));
        }
        lemma_dot_combination(row, row_first, row_second, 1, values, cols);
        let x = values[r];
        let a = dot(row_first, values, cols);
        let b = dot(row_second, values, cols);
        assert(x * (a + 1 * b) == x * a + x * b) by (nonlinear_arith);
    }
}

/// The sum over pairs of the products of coefficients is the square of
/// the sum of the coefficients times the values.
pub proof fn lemma_bilinear_outer(coefficients: spec_fn(int) -> int, values: Seq<int>, rows: int, cols: int)
    requires
        0 <= rows,
    ensures
        bilinear(|r: int, c: int| coefficients(r) * coefficients(c), values, rows, cols) == dot(
            coefficients,
            values,
            rows,
        ) * dot(coefficients, values, cols),
    decreases rows,
{
    let outer = |r: int, c: int| coefficients(r) * coefficients(c);
    let whole = dot(coefficients, values, cols);
    if rows > 0 {
        lemma_bilinear_outer(coefficients, values, rows - 1, cols);
        let r = rows - 1;
        let row = |c: int| outer(r, c);
        let zero = |c: int| 0int;
        assert forall|c: int| 0 <= c < cols implies #[trigger] row(c) == zero(c) + coefficients(r) * coefficients(c) by {}
        lemma_dot_combination(row, zero, coefficients, coefficients(r), values, cols);
        lemma_dot_zero(values, cols);
        let x = values[r];
        let k = coefficients(r);
        let a = dot(coefficients, values, rows - 1);
        assert(a * whole + x * (0 + k * whole) == (a + k * x) * whole) by (nonlinear_arith);
    } else {
        assert(0 * whole == 0);
    }
}

/// The objective is a quadratic form of the values of the variables, with
/// the entries of the program as its coefficients: the sum over pairs of
/// variables of the objective entries, twice the sum of the linear
/// entries, and a part that the values do not change. So the values that
/// make the objective least are those that make half the first sum plus
/// the second sum least, which is what the program asks a solver for.
pub proof fn lemma_objective_is_quadratic_form(
    problem: ProblemView,
    sizes: Seq<Vec2di>,
    values: Seq<int>,
    upto: int,
)
    requires
        problem.wf(),
        values.len() == problem.nb_variables(),
        problem.coordinates.len() == sizes.len(),
        0 <= upto <= sizes.len(),
    ensures
        objective(problem, sizes, values, upto) == bilinear(
            |r: int, c: int| objective_entry(problem, sizes, r, c, upto),
            values,
            values.len() as int,
            values.len() as int,
        ) + 2 * dot(|v: int| linear_entry(problem, sizes, v, upto), values, values.len() as int)
            + objective_constant(problem, sizes, upto),
    decreases upto,
{
    let m = values.len() as int;
    let n = sizes.len() as int;
    let quadratic = |r: int, c: int| objective_entry(problem, sizes, r, c, upto);
    let linear = |v: int| linear_entry(problem, sizes, v, upto);
    if upto > 0 {
        let i = upto - 1;
        lemma_objective_is_quadratic_form(problem, sizes, values, i);
        let quadratic_before = |r: int, c: int| objective_entry(problem, sizes, r, c, i);
        let linear_before = |v: int| linear_entry(problem, sizes, v, i);
        let cx = |v: int| residual_coefficient(problem, sizes, i, true, v, n);
        let cy = |v: int| residual_coefficient(problem, sizes, i, false, v, n);
        let kx = residual_constant(problem, sizes, i, true, n);
        let ky = residual_constant(problem, sizes, i, false, n);
        let outer_x = |r: int, c: int| cx(r) * cx(c);
        let outer_y = |r: int, c: int| cy(r) * cy(c);
        let with_x = |r: int, c: int| quadratic_before(r, c) + outer_x(r, c);
        // The entries grow by the products of the coefficients.
        assert forall|r: int, c: int| 0 <= r < m && 0 <= c < m implies #[trigger] quadratic(r, c) == with_x(r, c)
            + outer_y(r, c) by {}
        lemma_bilinear_combination(quadratic, with_x, outer_y, values, m, m);
        assert forall|r: int, c: int| 0 <= r < m && 0 <= c < m implies #[trigger] with_x(r, c) == quadratic_before(
            r,
            c,
        ) + outer_x(r, c) by {}
        lemma_bilinear_combination(with_x, quadratic_before, outer_x, values, m, m);
        lemma_bilinear_outer(cx, values, m, m);
        lemma_bilinear_outer(cy, values, m, m);
        let linear_with_x = |v: int| linear_before(v) + kx * cx(v);
        assert forall|v: int| 0 <= v < m implies #[trigger] linear(v) == linear_with_x(v) + ky * cy(v) by {}
        lemma_dot_combination(linear, linear_with_x, cy, ky, values, m);
        assert forall|v: int| 0 <= v < m implies #[trigger] linear_with_x(v) == linear_before(v) + kx * cx(v) by {}
        lemma_dot_combination(linear_with_x, linear_before, cx, kx, values, m);
        // The residuals are their coefficients times the values, plus their
        // constant parts.
        lemma_residual_linear(problem, sizes, i, true, values, n);
        lemma_residual_linear(problem, sizes, i, false, values, n);
        let dx = dot(cx, values, m);
        let dy = dot(cy, values, m);
        let rx = residual(problem, sizes, i, true, values, n);
        let ry = residual(problem, sizes, i, false, values, n);
        assert(rx == dx + kx);
        assert(ry == dy + ky);
        assert((dx + kx) * (dx + kx) == dx * dx + 2 * (kx * dx) + kx * kx) by (nonlinear_arith);
        assert((dy + ky) * (dy + ky) == dy * dy + 2 * (ky * dy) + ky * ky) by (nonlinear_arith);
    } else {
        lemma_bilinear_zero(quadratic, values, m, m);
        let zero = |v: int| 0int;
        lemma_dot_same(linear, zero, values, m);
        lemma_dot_zero(values, m);
    }
}

/// A sum over pairs with no entry is nothing.
pub proof fn lemma_bilinear_zero(entries: spec_fn(int, int) -> int, values: Seq<int>, rows: int, cols: int)
    requires
        forall|r: int, c: int| 0 <= r < rows && 0 <= c < cols ==> #[trigger] entries(r, c) == 0,
    ensures
        bilinear(entries, values, rows, cols) == 0,
    decreases rows,
{
    if rows > 0 {
        lemma_bilinear_zero(entries, values, rows - 1, cols);
        let r = rows - 1;
        let row = |c: int| entries(r, c);
        let zero = |c: int| 0int;
        assert forall|c: int| 0 <= c < cols implies #[trigger] row(c) == zero(c) by {
            assert(entries(r, c) == 0);
        }
        lemma_dot_same(row, zero, values, cols);
        lemma_dot_zero(values, cols);
        assert(values[r] * 0 == 0);
    }
}

} // verus!
