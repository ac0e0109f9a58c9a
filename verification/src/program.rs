//! The quadratic program of a placement: the objective, in exact integer
//! arithmetic, and the linear bounds.

use crate::geometry::{half, Direction, Transform, Vec2d, Vec2di};
use crate::layout::{enabled_rects, enabled_transforms, holds_adjacency, Layout, Mode};
use crate::relation::{pair_count, RelationMatrix};
use crate::constraint::{Constraint, Expression, Infeasible};
use crate::placement::{
    area, area_of, lemma_anchor_exists, lemma_prepared_counts, prepare_problem, sizes_valid, solution_coordinates,
    spec_prepare_problem, spec_solution_coordinates,
};
use crate::problem::{ProblemView, QpProblemState};
use crate::rounding::{round_to_integer, spec_round_to_integer};
use vstd::prelude::*;

verus! {

/// A matrix of integers held row after row.
#[derive(Debug)]
pub struct RowMatrix {
    nrow: usize,
    ncol: usize,
    array: Vec<i128>,
}

impl RowMatrix {
    /// The array holds the rows one after the other.
    pub closed spec fn wf(&self) -> bool {
        self.array@.len() == self.nrow * self.ncol
    }

    /// Number of rows.
    pub closed spec fn spec_nrow(&self) -> nat {
        self.nrow as nat
    }

    /// Number of columns.
    pub closed spec fn spec_ncol(&self) -> nat {
        self.ncol as nat
    }

    /// The entry in the row `row` and the column `col`.
    pub closed spec fn entry(&self, row: int, col: int) -> int {
        self.array@[row * self.ncol + col] as int
    }

    /// Adding `v[row] * v[col]` to the entry `(row, col)` stays within
    /// `i128`.
    pub open spec fn update_fits(&self, v: Seq<i128>, row: int, col: int) -> bool {
        &&& i128::MIN <= v[row] * v[col] <= i128::MAX
        &&& i128::MIN <= self.entry(row, col) + v[row] * v[col] <= i128::MAX
    }

    /// A matrix with no row, of `ncol` columns.
    pub fn empty(ncol: usize) -> (res: RowMatrix)
        ensures
            res.wf(),
            res.spec_nrow() == 0,
            res.spec_ncol() == ncol,
    {
        let res = RowMatrix { nrow: 0, ncol, array: Vec::new() };
        assert(res.nrow * res.ncol == 0) by (nonlinear_arith)
            requires
                res.nrow == 0,
        ;
        res
    }

    /// A square matrix with `value` at every place.
    pub fn square(size: usize, value: i128) -> (res: RowMatrix)
        requires
            size * size <= usize::MAX,
        ensures
            res.wf(),
            res.spec_nrow() == size,
            res.spec_ncol() == size,
            forall|row: int, col: int| 0 <= row < size && 0 <= col < size ==> #[trigger] res.entry(row, col) == value,
    {
        let len = size * size;
        let mut array: Vec<i128> = Vec::new();
        let mut i: usize = 0;
        while i < len
            invariant
                i <= len,
                array@.len() == i,
                forall|k: int| 0 <= k < i ==> #[trigger] array@[k] == value,
            decreases len - i,
        {
            array.push(value);
            i += 1;
        }
        let res = RowMatrix { nrow: size, ncol: size, array };
        proof {
            assert forall|row: int, col: int| 0 <= row < size && 0 <= col < size implies #[trigger] res.entry(
                row,
                col,
            ) == value by {
                lemma_cell_in_range(row, col, size as int, size as int);
            }
        }
        res
    }

    /// Number of rows.
    pub fn nrow(&self) -> (res: usize)
        ensures
            res == self.spec_nrow(),
    {
        self.nrow
    }

    /// Number of columns.
    pub fn ncol(&self) -> (res: usize)
        ensures
            res == self.spec_ncol(),
    {
        self.ncol
    }

    /// Place in the array of the entry in the row `row` and the column
    /// `col`.
    pub fn linearized_index(&self, row: usize, col: usize) -> (res: usize)
        requires
            self.wf(),
            row < self.spec_nrow(),
            col < self.spec_ncol(),
        ensures
            res == row * self.spec_ncol() + col,
            res < self.spec_nrow() * self.spec_ncol(),
    {
        proof {
            lemma_cell_in_range(row as int, col as int, self.nrow as int, self.ncol as int);
            assert(self.array@.len() == self.array.len());
        }
        (row * self.ncol) + col
    }

    /// The entries, row after row.
    pub fn row_major_array(&self) -> (res: &[i128])
        requires
            self.wf(),
        ensures
            res@.len() == self.spec_nrow() * self.spec_ncol(),
            forall|row: int, col: int|
                0 <= row < self.spec_nrow() && 0 <= col < self.spec_ncol() ==> res@[row * self.spec_ncol() + col]
                    == #[trigger] self.entry(row, col),
    {
        self.array.as_slice()
    }

    /// Adds to a square matrix the product of the column `v` and the row
    /// `v`: the entry `(row, col)` grows by `v[row] * v[col]`.
    pub fn add_vt_v(&mut self, v: &[i128])
        requires
            old(self).wf(),
            old(self).spec_nrow() == old(self).spec_ncol(),
            old(self).spec_nrow() == v@.len(),
            forall|row: int, col: int|
                0 <= row < v@.len() && 0 <= col < v@.len() ==> #[trigger] old(self).update_fits(v@, row, col),
        ensures
            final(self).wf(),
            final(self).spec_nrow() == old(self).spec_nrow(),
            final(self).spec_ncol() == old(self).spec_ncol(),
            forall|row: int, col: int|
                0 <= row < v@.len() && 0 <= col < v@.len() ==> #[trigger] final(self).entry(row, col) == old(
                    self,
                ).entry(row, col) + v@[row] * v@[col],
    {
        let n = self.nrow;
        let mut row: usize = 0;
        while row < n
            invariant
                self.wf(),
                self.nrow == n,
                self.ncol == n,
                n == v@.len(),
                row <= n,
                old(self).wf(),
                old(self).nrow == n,
                old(self).ncol == n,
                forall|r: int, c: int| 0 <= r < n && 0 <= c < n ==> #[trigger] old(self).update_fits(v@, r, c),
                forall|r: int, c: int|
                    0 <= r < row && 0 <= c < n ==> #[trigger] self.entry(r, c) == old(self).entry(r, c) + v@[r]
                        * v@[c],
                forall|r: int, c: int| row <= r < n && 0 <= c < n ==> #[trigger] self.entry(r, c) == old(self).entry(r, c),
            decreases n - row,
        {
            let mut col: usize = 0;
            while col < n
                invariant
                    self.wf(),
                    self.nrow == n,
                    self.ncol == n,
                    n == v@.len(),
                    row < n,
                    col <= n,
                    old(self).wf(),
                    old(self).nrow == n,
                    old(self).ncol == n,
                    forall|r: int, c: int| 0 <= r < n && 0 <= c < n ==> #[trigger] old(self).update_fits(v@, r, c),
                    forall|r: int, c: int|
                        0 <= r < row && 0 <= c < n ==> #[trigger] self.entry(r, c) == old(self).entry(r, c)
                            + v@[r] * v@[c],
                    forall|c: int|
                        0 <= c < col ==> #[trigger] self.entry(row as int, c) == old(self).entry(row as int, c)
                            + v@[row as int] * v@[c],
                    forall|c: int| col <= c < n ==> #[trigger] self.entry(row as int, c) == old(self).entry(row as int, c),
                    forall|r: int, c: int|
                        row < r < n && 0 <= c < n ==> #[trigger] self.entry(r, c) == old(self).entry(r, c),
                decreases n - col,
            {
                let index = self.linearized_index(row, col);
                let ghost before = *self;
                assert(self.entry(row as int, col as int) == old(self).entry(row as int, col as int));
                assert(old(self).update_fits(v@, row as int, col as int));
                let product: i128 = v[row] * v[col];
                let updated: i128 = self.array[index] + product;
                self.array[index] = updated;
                proof {
                    assert forall|r: int, c: int| 0 <= r < n && 0 <= c < n && !(r == row && c == col) implies #[trigger] self.entry(
                        r,
                        c,
                    ) == before.entry(r, c) by {
                        lemma_cell_distinct(r, c, row as int, col as int, n as int);
                        lemma_cell_in_range(r, c, n as int, n as int);
                        assert(self.array@ == before.array@.update(index as int, updated));
                    }
                }
                col += 1;
            }
            row += 1;
        }
    }

    /// Adds a row, the last.
    pub fn add_row(&mut self, row: &[i128])
        requires
            old(self).wf(),
            row@.len() == old(self).spec_ncol(),
            old(self).spec_nrow() < usize::MAX,
        ensures
            final(self).wf(),
            final(self).spec_nrow() == old(self).spec_nrow() + 1,
            final(self).spec_ncol() == old(self).spec_ncol(),
            forall|r: int, c: int|
                0 <= r < old(self).spec_nrow() && 0 <= c < old(self).spec_ncol() ==> #[trigger] final(self).entry(
                    r,
                    c,
                ) == old(self).entry(r, c),
            forall|c: int|
                0 <= c < old(self).spec_ncol() ==> #[trigger] final(self).entry(old(self).spec_nrow() as int, c)
                    == row@[c],
    {
        let ncol = self.ncol;
        let ghost start = self.array@.len() as int;
        let mut c: usize = 0;
        while c < ncol
            invariant
                c <= ncol,
                ncol == row@.len(),
                self.ncol == ncol,
                self.nrow == old(self).nrow,
                start == old(self).nrow * ncol,
                self.array@.len() == start + c,
                self.array@.subrange(0, start) == old(self).array@,
                forall|k: int| 0 <= k < c ==> #[trigger] self.array@[start + k] == row@[k],
            decreases ncol - c,
        {
            self.array.push(row[c]);
            assert(self.array@.subrange(0, start) =~= old(self).array@);
            c += 1;
        }
        self.nrow = self.nrow + 1;
        proof {
            let rows = old(self).nrow as int;
            assert((rows + 1) * ncol == rows * ncol + ncol) by (nonlinear_arith);
            assert forall|r: int, c: int| 0 <= r < old(self).spec_nrow() && 0 <= c < old(self).spec_ncol() implies #[trigger] self.entry(
                r,
                c,
            ) == old(self).entry(r, c) by {
                lemma_cell_in_range(r, c, old(self).nrow as int, ncol as int);
                assert(self.array@[r * ncol + c] == self.array@.subrange(0, start)[r * ncol + c]);
            }
        }
    }
}

/// The place of a cell of a matrix lies within its array.
pub proof fn lemma_cell_in_range(row: int, col: int, nrow: int, ncol: int)
    requires
        0 <= row < nrow,
        0 <= col < ncol,
    ensures
        0 <= row * ncol + col < nrow * ncol,
{
    assert(0 <= row * ncol + col < nrow * ncol) by (nonlinear_arith)
        requires
            0 <= row < nrow,
            0 <= col < ncol,
    ;
}

/// Two cells of a matrix have two places.
pub proof fn lemma_cell_distinct(r1: int, c1: int, r2: int, c2: int, ncol: int)
    requires
        0 <= c1 < ncol,
        0 <= c2 < ncol,
        0 <= r1,
        0 <= r2,
        !(r1 == r2 && c1 == c2),
    ensures
        r1 * ncol + c1 != r2 * ncol + c2,
{
    assert(r1 * ncol + c1 != r2 * ncol + c2) by (nonlinear_arith)
        requires
            0 <= c1 < ncol,
            0 <= c2 < ncol,
            0 <= r1,
            0 <= r2,
            !(r1 == r2 && c1 == c2),
    ;
}

/// Sum of the areas of the first `upto` sizes.
pub open spec fn total_area(sizes: Seq<Vec2di>, upto: int) -> int
    decreases upto,
{
    if upto <= 0 {
        0
    } else {
        total_area(sizes, upto - 1) + area(sizes[upto - 1])
    }
}

/// The largest sum of areas, in pixels, for which the objective is
/// computed: beyond it the sums may leave the range of `i128`.
pub const AREA_LIMIT: i128 = 0x100_0000_0000;

/// The largest number of outputs, and of variables, for which the
/// objective is computed.
pub const COUNT_LIMIT: usize = 1024;

/// The width or the height of a size.
pub open spec fn extent_along(size: Vec2di, on_x: bool) -> int {
    if on_x {
        size.x as int
    } else {
        size.y as int
    }
}

/// 1 where the expression is the variable `v` plus a constant, 0 else.
pub open spec fn names(e: Expression, v: int) -> int {
    match e.variable {
        Some(variable) => if variable.index == v {
            1
        } else {
            0
        },
        None => 0,
    }
}

/// The constant part of the centre of the output `i` along an axis: that
/// of its coordinate, plus half of its extent.
pub open spec fn centre_constant(problem: ProblemView, sizes: Seq<Vec2di>, i: int, on_x: bool) -> int {
    problem.side(i, on_x).constant + half(extent_along(sizes[i], on_x))
}

/// The residual of the output `i` along an axis is the sum, over the
/// outputs `j`, of the area of `j` times the distance from the centre of
/// `j` to the centre of `i`. It is linear in the variables; this is the
/// coefficient of the variable `v` in it, the sum taken over the first
/// `upto` outputs.
pub open spec fn residual_coefficient(
    problem: ProblemView,
    sizes: Seq<Vec2di>,
    i: int,
    on_x: bool,
    v: int,
    upto: int,
) -> int
    decreases upto,
{
    if upto <= 0 {
        0
    } else {
        residual_coefficient(problem, sizes, i, on_x, v, upto - 1) + area(sizes[upto - 1]) * (names(
            problem.side(i, on_x),
            v,
        ) - names(problem.side(upto - 1, on_x), v))
    }
}

/// The constant part of the residual of the output `i` along an axis, the
/// sum taken over the first `upto` outputs.
pub open spec fn residual_constant(problem: ProblemView, sizes: Seq<Vec2di>, i: int, on_x: bool, upto: int) -> int
    decreases upto,
{
    if upto <= 0 {
        0
    } else {
        residual_constant(problem, sizes, i, on_x, upto - 1) + area(sizes[upto - 1]) * (centre_constant(
            problem,
            sizes,
            i,
            on_x,
        ) - centre_constant(problem, sizes, upto - 1, on_x))
    }
}

/// The objective is the sum of the squares of the residuals of all the
/// outputs, along both axes. This is the coefficient of the product of the
/// variables `r` and `c` in it, the sum taken over the first `upto`
/// outputs.
pub open spec fn objective_entry(problem: ProblemView, sizes: Seq<Vec2di>, r: int, c: int, upto: int) -> int
    decreases upto,
{
    if upto <= 0 {
        0
    } else {
        let n = sizes.len() as int;
        objective_entry(problem, sizes, r, c, upto - 1) + residual_coefficient(
            problem,
            sizes,
            upto - 1,
            true,
            r,
            n,
        ) * residual_coefficient(problem, sizes, upto - 1, true, c, n) + residual_coefficient(
            problem,
            sizes,
            upto - 1,
            false,
            r,
            n,
        ) * residual_coefficient(problem, sizes, upto - 1, false, c, n)
    }
}

/// Half the coefficient of the variable `v` alone in the objective, the
/// sum taken over the first `upto` outputs.
pub open spec fn linear_entry(problem: ProblemView, sizes: Seq<Vec2di>, v: int, upto: int) -> int
    decreases upto,
{
    if upto <= 0 {
        0
    } else {
        let n = sizes.len() as int;
        linear_entry(problem, sizes, v, upto - 1) + residual_constant(problem, sizes, upto - 1, true, n)
            * residual_coefficient(problem, sizes, upto - 1, true, v, n) + residual_constant(
            problem,
            sizes,
            upto - 1,
            false,
            n,
        ) * residual_coefficient(problem, sizes, upto - 1, false, v, n)
    }
}

/// The areas of valid sizes add up to more and more, from zero.
pub proof fn lemma_total_area_monotonic(sizes: Seq<Vec2di>, a: int, b: int)
    requires
        sizes_valid(sizes),
        0 <= a <= b <= sizes.len(),
    ensures
        0 <= total_area(sizes, a) <= total_area(sizes, b),
    decreases b,
{
    if a < b {
        lemma_total_area_monotonic(sizes, a, b - 1);
        lemma_area_bounds(sizes[b - 1]);
    } else if a > 0 {
        lemma_total_area_monotonic(sizes, a - 1, a - 1);
        lemma_area_bounds(sizes[a - 1]);
    }
}

/// The area of a valid size is not negative.
pub proof fn lemma_area_bounds(size: Vec2di)
    requires
        size.x >= 0,
        size.y >= 0,
    ensures
        0 <= area(size),
{
    assert(0 <= size.x * size.y) by (nonlinear_arith)
        requires
            size.x >= 0,
            size.y >= 0,
    ;
}

/// A product is bounded by the product of the bounds of its factors.
pub proof fn lemma_product_bound(x: int, y: int, bx: int, by: int)
    requires
        -bx <= x <= bx,
        -by <= y <= by,
    ensures
        -(bx * by) <= x * y <= bx * by,
{
    assert(-(bx * by) <= x * y <= bx * by) by (nonlinear_arith)
        requires
            -bx <= x <= bx,
            -by <= y <= by,
    ;
}

/// No coefficient of a residual is larger than the sum of the areas.
pub proof fn lemma_coefficient_bound(problem: ProblemView, sizes: Seq<Vec2di>, i: int, on_x: bool, v: int, upto: int)
    requires
        sizes_valid(sizes),
        0 <= upto <= sizes.len(),
    ensures
        -total_area(sizes, upto) <= residual_coefficient(problem, sizes, i, on_x, v, upto) <= total_area(
            sizes,
            upto,
        ),
    decreases upto,
{
    if upto > 0 {
        lemma_coefficient_bound(problem, sizes, i, on_x, v, upto - 1);
        lemma_area_bounds(sizes[upto - 1]);
        let d = names(problem.side(i, on_x), v) - names(problem.side(upto - 1, on_x), v);
        lemma_product_bound(area(sizes[upto - 1]), d, area(sizes[upto - 1]), 1);
    }
}

/// The bound of the distance between the constant parts of two centres.
pub open spec fn centre_span() -> int {
    0x2_0000_0000
}

/// The constant parts of two centres are no further apart than
/// `centre_span()`.
pub proof fn lemma_centre_span(problem: ProblemView, sizes: Seq<Vec2di>, i: int, j: int, on_x: bool)
    requires
        sizes_valid(sizes),
        0 <= i < sizes.len(),
        0 <= j < sizes.len(),
    ensures
        -centre_span() <= centre_constant(problem, sizes, i, on_x) - centre_constant(problem, sizes, j, on_x)
            <= centre_span(),
{
}

/// The constant part of a residual is no larger than the sum of the areas
/// times the largest distance between two centres.
pub proof fn lemma_constant_bound(problem: ProblemView, sizes: Seq<Vec2di>, i: int, on_x: bool, upto: int)
    requires
        sizes_valid(sizes),
        0 <= i < sizes.len(),
        0 <= upto <= sizes.len(),
    ensures
        -(total_area(sizes, upto) * centre_span()) <= residual_constant(problem, sizes, i, on_x, upto)
            <= total_area(sizes, upto) * centre_span(),
    decreases upto,
{
    if upto > 0 {
        lemma_constant_bound(problem, sizes, i, on_x, upto - 1);
        lemma_area_bounds(sizes[upto - 1]);
        lemma_centre_span(problem, sizes, i, upto - 1, on_x);
        let d = centre_constant(problem, sizes, i, on_x) - centre_constant(problem, sizes, upto - 1, on_x);
        lemma_product_bound(area(sizes[upto - 1]), d, area(sizes[upto - 1]), centre_span());
        assert((total_area(sizes, upto - 1) + area(sizes[upto - 1])) * centre_span() == total_area(sizes, upto - 1)
            * centre_span() + area(sizes[upto - 1]) * centre_span()) by (nonlinear_arith);
    } else {
        assert(total_area(sizes, upto) * centre_span() == 0) by (nonlinear_arith)
            requires
                total_area(sizes, upto) == 0,
        ;
    }
}

/// No entry of the objective, summed over `upto` outputs, is larger than
/// `upto` times twice the square of the sum of the areas.
pub proof fn lemma_objective_bound(problem: ProblemView, sizes: Seq<Vec2di>, r: int, c: int, upto: int)
    requires
        sizes_valid(sizes),
        0 <= upto <= sizes.len(),
    ensures
        ({
            let total = total_area(sizes, sizes.len() as int);
            -(upto * (2 * (total * total))) <= objective_entry(problem, sizes, r, c, upto) <= upto * (2 * (total
                * total))
        }),
    decreases upto,
{
    let n = sizes.len() as int;
    let total = total_area(sizes, n);
    if upto > 0 {
        lemma_objective_bound(problem, sizes, r, c, upto - 1);
        lemma_coefficient_bound(problem, sizes, upto - 1, true, r, n);
        lemma_coefficient_bound(problem, sizes, upto - 1, true, c, n);
        lemma_coefficient_bound(problem, sizes, upto - 1, false, r, n);
        lemma_coefficient_bound(problem, sizes, upto - 1, false, c, n);
        lemma_product_bound(
            residual_coefficient(problem, sizes, upto - 1, true, r, n),
            residual_coefficient(problem, sizes, upto - 1, true, c, n),
            total,
            total,
        );
        lemma_product_bound(
            residual_coefficient(problem, sizes, upto - 1, false, r, n),
            residual_coefficient(problem, sizes, upto - 1, false, c, n),
            total,
            total,
        );
        let unit = 2 * (total * total);
        assert(upto * unit == (upto - 1) * unit + unit) by (nonlinear_arith);
    } else {
        assert(upto * (2 * (total * total)) == 0) by (nonlinear_arith)
            requires
                upto == 0,
        ;
    }
}

/// No entry of the linear part, summed over `upto` outputs, is larger than
/// `upto` times twice the square of the sum of the areas times the largest
/// distance between two centres.
pub proof fn lemma_linear_bound(problem: ProblemView, sizes: Seq<Vec2di>, v: int, upto: int)
    requires
        sizes_valid(sizes),
        0 <= upto <= sizes.len(),
    ensures
        ({
            let total = total_area(sizes, sizes.len() as int);
            -(upto * (2 * ((total * centre_span()) * total))) <= linear_entry(problem, sizes, v, upto) <= upto * (2
                * ((total * centre_span()) * total))
        }),
    decreases upto,
{
    let n = sizes.len() as int;
    let total = total_area(sizes, n);
    if upto > 0 {
        lemma_linear_bound(problem, sizes, v, upto - 1);
        lemma_coefficient_bound(problem, sizes, upto - 1, true, v, n);
        lemma_coefficient_bound(problem, sizes, upto - 1, false, v, n);
        lemma_constant_bound(problem, sizes, upto - 1, true, n);
        lemma_constant_bound(problem, sizes, upto - 1, false, n);
        lemma_product_bound(
            residual_constant(problem, sizes, upto - 1, true, n),
            residual_coefficient(problem, sizes, upto - 1, true, v, n),
            total * centre_span(),
            total,
        );
        lemma_product_bound(
            residual_constant(problem, sizes, upto - 1, false, n),
            residual_coefficient(problem, sizes, upto - 1, false, v, n),
            total * centre_span(),
            total,
        );
        let unit = 2 * ((total * centre_span()) * total);
        assert(upto * unit == (upto - 1) * unit + unit) by (nonlinear_arith);
    } else {
        assert(upto * (2 * ((total * centre_span()) * total)) == 0) by (nonlinear_arith)
            requires
                upto == 0,
        ;
    }
}

/// Whether the objective is computed for these sizes: they are no more
/// than `COUNT_LIMIT`, and their areas add up to no more than
/// `AREA_LIMIT`.
pub open spec fn sizes_within_limits(sizes: Seq<Vec2di>) -> bool {
    sizes.len() <= COUNT_LIMIT && total_area(sizes, sizes.len() as int) <= AREA_LIMIT
}

fn check_sizes_within_limits(sizes: &[Vec2di]) -> (res: bool)
    requires
        sizes_valid(sizes@),
    ensures
        res == sizes_within_limits(sizes@),
{
    if sizes.len() > COUNT_LIMIT {
        return false;
    }
    let mut total: i128 = 0;
    let mut j: usize = 0;
    while j < sizes.len()
        invariant
            j <= sizes@.len(),
            sizes_valid(sizes@),
            total == total_area(sizes@, j as int),
            0 <= total <= AREA_LIMIT,
        decreases sizes@.len() - j,
    {
        proof {
            lemma_area_bounds(sizes@[j as int]);
        }
        total = total + area_of(sizes[j]) as i128;
        if total > AREA_LIMIT {
            proof {
                lemma_total_area_monotonic(sizes@, j + 1, sizes@.len() as int);
            }
            return false;
        }
        j += 1;
    }
    true
}

/// The expression of a coordinate along an axis.
fn side_of(definition: &Vec2d<Expression>, on_x: bool) -> (res: Expression)
    ensures
        res == (if on_x {
            definition.x
        } else {
            definition.y
        }),
{
    if on_x {
        definition.x
    } else {
        definition.y
    }
}

/// The constant part of the centre of an output along an axis.
fn centre_of(problem: &QpProblemState, sizes: &[Vec2di], i: usize, on_x: bool) -> (res: i64)
    requires
        problem@.coordinates.len() == sizes@.len(),
        sizes_valid(sizes@),
        i < sizes@.len(),
    ensures
        res == centre_constant(problem@, sizes@, i as int, on_x),
{
    let expression = side_of(&problem.coordinate_definitions[i], on_x);
    let extent: i32 = if on_x { sizes[i].x } else { sizes[i].y };
    expression.constant as i64 + (extent / 2) as i64
}

/// The residual of the output `i` along an axis: the coefficient of each
/// variable in it, and its constant part.
fn residual(problem: &QpProblemState, sizes: &[Vec2di], i: usize, on_x: bool) -> (res: (Vec<i128>, i128))
    requires
        problem.wf(),
        problem@.coordinates.len() == sizes@.len(),
        sizes_valid(sizes@),
        sizes_within_limits(sizes@),
        i < sizes@.len(),
    ensures
        res.0@.len() == problem@.nb_variables(),
        forall|v: int|
            0 <= v < problem@.nb_variables() ==> #[trigger] res.0@[v] == residual_coefficient(
                problem@,
                sizes@,
                i as int,
                on_x,
                v,
                sizes@.len() as int,
            ),
        res.1 == residual_constant(problem@, sizes@, i as int, on_x, sizes@.len() as int),
{
    let n = sizes.len();
    let n_var = problem.nb_variables();
    let mut c_array: Vec<i128> = Vec::new();
    let mut k: usize = 0;
    while k < n_var
        invariant
            k <= n_var,
            c_array@.len() == k,
            forall|v: int| 0 <= v < k ==> #[trigger] c_array@[v] == 0,
        decreases n_var - k,
    {
        c_array.push(0);
        k += 1;
    }
    let mut c: i128 = 0;
    let pos = side_of(&problem.coordinate_definitions[i], on_x);
    assert(pos == problem@.side(i as int, on_x));
    let pos_constant = centre_of(problem, sizes, i, on_x);
    let mut j: usize = 0;
    while j < n
        invariant
            j <= n,
            n == sizes@.len(),
            i < n,
            n_var == problem@.nb_variables(),
            problem.wf(),
            problem@.coordinates.len() == sizes@.len(),
            sizes_valid(sizes@),
            sizes_within_limits(sizes@),
            pos == problem@.side(i as int, on_x),
            pos_constant == centre_constant(problem@, sizes@, i as int, on_x),
            c_array@.len() == n_var,
            forall|v: int|
                0 <= v < n_var ==> #[trigger] c_array@[v] == residual_coefficient(
                    problem@,
                    sizes@,
                    i as int,
                    on_x,
                    v,
                    j as int,
                ),
            c == residual_constant(problem@, sizes@, i as int, on_x, j as int),
        decreases n - j,
    {
        let ghost before = c_array@;
        let a_j: i128 = area_of(sizes[j]) as i128;
        let neg = side_of(&problem.coordinate_definitions[j], on_x);
        assert(neg == problem@.side(j as int, on_x));
        let neg_constant = centre_of(problem, sizes, j, on_x);
        proof {
            lemma_area_bounds(sizes@[j as int]);
            lemma_total_area_monotonic(sizes@, j as int, n as int);
            lemma_total_area_monotonic(sizes@, j + 1, n as int);
            lemma_constant_bound(problem@, sizes@, i as int, on_x, j as int);
            lemma_constant_bound(problem@, sizes@, i as int, on_x, j + 1);
            lemma_centre_span(problem@, sizes@, i as int, j as int, on_x);
            lemma_product_bound(a_j as int, pos_constant - neg_constant, AREA_LIMIT as int, centre_span());
            lemma_product_bound(
                total_area(sizes@, j as int),
                centre_span(),
                AREA_LIMIT as int,
                centre_span(),
            );
            assert forall|v: int| 0 <= v < n_var implies -AREA_LIMIT <= #[trigger] before[v] <= AREA_LIMIT by {
                lemma_coefficient_bound(problem@, sizes@, i as int, on_x, v, j as int);
            }
            assert(problem@.coordinates[i as int].x.in_scope(n_var as nat));
            assert(problem@.coordinates[j as int].x.in_scope(n_var as nat));
        }
        match pos.variable {
            Some(variable) => {
                let raised: i128 = c_array[variable.index] + a_j;
                c_array[variable.index] = raised;
            },
            None => {},
        }
        let ghost middle = c_array@;
        match neg.variable {
            Some(variable) => {
                assert(-AREA_LIMIT <= middle[variable.index as int] <= 2 * AREA_LIMIT);
                let lowered: i128 = c_array[variable.index] - a_j;
                c_array[variable.index] = lowered;
            },
            None => {},
        }
        let difference: i128 = (pos_constant - neg_constant) as i128;
        let term: i128 = a_j * difference;
        c = c + term;
        proof {
            assert forall|v: int| 0 <= v < n_var implies #[trigger] c_array@[v] == residual_coefficient(
                problem@,
                sizes@,
                i as int,
                on_x,
                v,
                j + 1,
            ) by {
                let up = names(pos, v);
                let down = names(neg, v);
                assert(middle[v] == before[v] + a_j * up) by (nonlinear_arith)
                    requires
                        up == 0 || up == 1,
                        up == 1 ==> middle[v] == before[v] + a_j,
                        up == 0 ==> middle[v] == before[v],
                ;
                assert(c_array@[v] == middle[v] - a_j * down) by (nonlinear_arith)
                    requires
                        down == 0 || down == 1,
                        down == 1 ==> c_array@[v] == middle[v] - a_j,
                        down == 0 ==> c_array@[v] == middle[v],
                ;
                assert(a_j * (up - down) == a_j * up - a_j * down) by (nonlinear_arith);
            }
        }
        j += 1;
    }
    (c_array, c)
}

/// Adding `a * array[v]` to `acc[v]` stays within `i128`.
pub open spec fn scaled_fits(acc: Seq<i128>, a: i128, array: Seq<i128>, v: int) -> bool {
    &&& i128::MIN <= a * array[v] <= i128::MAX
    &&& i128::MIN <= acc[v] + a * array[v] <= i128::MAX
}

/// Adds `a` times `array` to `acc`.
fn add_a_times_array(acc: &mut Vec<i128>, a: i128, array: &[i128])
    requires
        old(acc)@.len() == array@.len(),
        forall|v: int| 0 <= v < array@.len() ==> #[trigger] scaled_fits(old(acc)@, a, array@, v),
    ensures
        final(acc)@.len() == array@.len(),
        forall|v: int| 0 <= v < array@.len() ==> #[trigger] final(acc)@[v] == old(acc)@[v] + a * array@[v],
{
    let n = acc.len();
    let mut i: usize = 0;
    while i < n
        invariant
            i <= n,
            n == array@.len(),
            acc@.len() == n,
            forall|v: int| 0 <= v < n ==> #[trigger] scaled_fits(old(acc)@, a, array@, v),
            forall|v: int| 0 <= v < i ==> #[trigger] acc@[v] == old(acc)@[v] + a * array@[v],
            forall|v: int| i <= v < n ==> #[trigger] acc@[v] == old(acc)@[v],
        decreases n - i,
    {
        assert(scaled_fits(old(acc)@, a, array@, i as int));
        let term: i128 = a * array[i];
        let sum: i128 = acc[i] + term;
        acc[i] = sum;
        i += 1;
    }
}

/// A linear bound of the program: `range.min <= x[pos] - x[neg] <=
/// range.max`, and `range.min <= x[pos] <= range.max` where `neg` is
/// `None`.
#[derive(Clone, Copy, Debug, PartialEq, Eq, Structural)]
pub struct LinearBound {
    pub pos: usize,
    pub neg: Option<usize>,
    pub range: Constraint,
}

/// The bounds of the first `upto` variables: one for each variable whose
/// range counts as a bound, in the order of the variables.
pub open spec fn mono_bounds(problem: ProblemView, upto: int) -> Seq<LinearBound>
    decreases upto,
{
    if upto <= 0 {
        Seq::empty()
    } else {
        let before = mono_bounds(problem, upto - 1);
        if problem.mono[upto - 1].spec_is_unconstrained() {
            before
        } else {
            before.push(LinearBound { pos: (upto - 1) as usize, neg: None, range: problem.mono[upto - 1] })
        }
    }
}

/// The bounds of the differences of the pairs of variables that come
/// before `(neg, pos)`, the pairs ordered by their higher index and then
/// by their lower one: one for each pair for which a range is held.
pub open spec fn dual_bounds(problem: ProblemView, pos: int, neg: int) -> Seq<LinearBound>
    decreases pos, neg,
{
    if pos < 0 || neg < 0 {
        Seq::empty()
    } else if neg > 0 {
        let before = dual_bounds(problem, pos, neg - 1);
        match problem.dual_get(neg - 1, pos) {
            Some(range) => before.push(LinearBound { pos: pos as usize, neg: Some((neg - 1) as usize), range }),
            None => before,
        }
    } else if pos > 0 {
        dual_bounds(problem, pos - 1, pos - 1)
    } else {
        Seq::empty()
    }
}

/// The linear bounds of a problem: those of the variables, then those of
/// the differences.
pub open spec fn spec_linear_bounds(problem: ProblemView) -> Seq<LinearBound> {
    mono_bounds(problem, problem.mono.len() as int) + dual_bounds(problem, problem.mono.len() as int, 0)
}

/// The linear bounds of the problem: one for each variable whose range
/// counts as a bound, then one for each pair of variables for whose
/// difference a range is held.
pub fn linear_bounds(problem: &QpProblemState) -> (res: Vec<LinearBound>)
    requires
        problem.wf(),
    ensures
        res@ == spec_linear_bounds(problem@),
{
    let n_var = problem.nb_variables();
    let mut bounds: Vec<LinearBound> = Vec::new();
    let mut variable: usize = 0;
    while variable < n_var
        invariant
            variable <= n_var,
            n_var == problem@.nb_variables(),
            bounds@ == mono_bounds(problem@, variable as int),
        decreases n_var - variable,
    {
        let constraint = problem.mono_constraints[variable];
        if !constraint.is_unconstrained() {
            bounds.push(LinearBound { pos: variable, neg: None, range: constraint });
        }
        variable += 1;
    }
    let ghost mono = bounds@;
    proof {
        problem.lemma_view_dual_get();
        assert(bounds@ =~= mono + dual_bounds(problem@, 0, 0));
    }
    let mut pos: usize = 0;
    while pos < n_var
        invariant
            pos <= n_var,
            n_var == problem@.nb_variables(),
            problem.wf(),
            forall|a: int, b: int| #[trigger] problem@.dual_get(a, b) == problem.dual_constraints.spec_get(a, b),
            bounds@ == mono + dual_bounds(problem@, pos as int, 0),
        decreases n_var - pos,
    {
        let mut neg: usize = 0;
        while neg < pos
            invariant
                neg <= pos < n_var,
                n_var == problem@.nb_variables(),
                problem.wf(),
                forall|a: int, b: int| #[trigger] problem@.dual_get(a, b) == problem.dual_constraints.spec_get(a, b),
                bounds@ == mono + dual_bounds(problem@, pos as int, neg as int),
            decreases pos - neg,
        {
            match problem.dual_constraints.get(neg, pos) {
                Some(constraint) => {
                    bounds.push(LinearBound { pos, neg: Some(neg), range: constraint });
                    assert(bounds@ =~= mono + dual_bounds(problem@, pos as int, neg + 1));
                },
                None => {},
            }
            neg += 1;
        }
        pos += 1;
    }
    bounds
}

/// A quadratic program: minimize `x P x / 2 + q x` over the values `x` of
/// the variables, under linear bounds. `P` is `objective`, `q` is
/// `linear`.
#[derive(Debug)]
pub struct QuadraticProgram {
    pub objective: RowMatrix,
    pub linear: Vec<i128>,
    pub bounds: Vec<LinearBound>,
}

impl QuadraticProgram {
    /// The program is that of `problem` for outputs of the sizes `sizes`:
    /// its objective is the sum of the squares of the residuals, and its
    /// bounds are the ranges that the problem holds.
    pub open spec fn is_program_of(&self, problem: ProblemView, sizes: Seq<Vec2di>) -> bool {
        let n = sizes.len() as int;
        let n_var = problem.nb_variables();
        &&& self.objective.wf()
        &&& self.objective.spec_nrow() == n_var
        &&& self.objective.spec_ncol() == n_var
        &&& forall|r: int, c: int|
            0 <= r < n_var && 0 <= c < n_var ==> #[trigger] self.objective.entry(r, c) == objective_entry(
                problem,
                sizes,
                r,
                c,
                n,
            )
        &&& self.linear@.len() == n_var
        &&& forall|v: int| 0 <= v < n_var ==> #[trigger] self.linear@[v] == linear_entry(problem, sizes, v, n)
        &&& self.bounds@ == spec_linear_bounds(problem)
    }
}

/// The bounds that keep the sums of the objective within `i128`.
proof fn lemma_sums_fit(problem: ProblemView, sizes: Seq<Vec2di>, r: int, c: int, upto: int)
    requires
        sizes_valid(sizes),
        sizes_within_limits(sizes),
        0 <= upto <= sizes.len(),
    ensures
        -0x800_0000_0000_0000_0000_0000 <= objective_entry(problem, sizes, r, c, upto)
            <= 0x800_0000_0000_0000_0000_0000,
        -0x1000_0000_0000_0000_0000_0000_0000_0000 <= linear_entry(problem, sizes, r, upto)
            <= 0x1000_0000_0000_0000_0000_0000_0000_0000,
        -0x100_0000_0000 <= residual_coefficient(problem, sizes, upto - 1, true, r, sizes.len() as int)
            <= 0x100_0000_0000,
        -0x100_0000_0000 <= residual_coefficient(problem, sizes, upto - 1, false, r, sizes.len() as int)
            <= 0x100_0000_0000,
        upto > 0 ==> -0x200_0000_0000_0000_0000 <= residual_constant(
            problem,
            sizes,
            upto - 1,
            true,
            sizes.len() as int,
        ) <= 0x200_0000_0000_0000_0000,
        upto > 0 ==> -0x200_0000_0000_0000_0000 <= residual_constant(
            problem,
            sizes,
            upto - 1,
            false,
            sizes.len() as int,
        ) <= 0x200_0000_0000_0000_0000,
{
    let n = sizes.len() as int;
    let total = total_area(sizes, n);
    lemma_total_area_monotonic(sizes, 0, n);
    lemma_objective_bound(problem, sizes, r, c, upto);
    lemma_linear_bound(problem, sizes, r, upto);
    lemma_coefficient_bound(problem, sizes, upto - 1, true, r, n);
    lemma_coefficient_bound(problem, sizes, upto - 1, false, r, n);
    if upto > 0 {
        lemma_constant_bound(problem, sizes, upto - 1, true, n);
        lemma_constant_bound(problem, sizes, upto - 1, false, n);
    }
    lemma_product_bound(total, total, 0x100_0000_0000, 0x100_0000_0000);
    lemma_product_bound(total, centre_span(), 0x100_0000_0000, centre_span());
    lemma_product_bound(total * centre_span(), total, 0x100_0000_0000 * centre_span(), 0x100_0000_0000);
    lemma_product_bound(upto, 2 * (total * total), 1024, 2 * (0x100_0000_0000int * 0x100_0000_0000int));
    lemma_product_bound(
        upto,
        2 * ((total * centre_span()) * total),
        1024,
        2 * ((0x100_0000_0000int * centre_span()) * 0x100_0000_0000int),
    );
    assert(1024 * (2 * (0x100_0000_0000int * 0x100_0000_0000int)) == 0x800_0000_0000_0000_0000_0000int)
        by (nonlinear_arith);
    assert(1024 * (2 * ((0x100_0000_0000int * 0x2_0000_0000int) * 0x100_0000_0000int))
        == 0x1000_0000_0000_0000_0000_0000_0000_0000int) by (nonlinear_arith);
    assert(0x100_0000_0000int * 0x2_0000_0000int == 0x200_0000_0000_0000_0000int) by (nonlinear_arith);
}

/// The quadratic program of the problem, for outputs of the sizes `sizes`:
/// the objective is the sum, over the outputs and the two axes, of the
/// squares of the residuals, and the bounds are the ranges of the problem.
/// It is computed exactly, and only for outputs and variables few enough
/// and small enough for that.
pub fn create_qp_problem(problem: &QpProblemState, sizes: &[Vec2di]) -> (res: Option<QuadraticProgram>)
    requires
        problem.wf(),
        problem@.coordinates.len() == sizes@.len(),
        sizes_valid(sizes@),
    ensures
        res.is_some() == (sizes_within_limits(sizes@) && problem@.nb_variables() <= 2 * COUNT_LIMIT),
        match res {
            Some(program) => program.is_program_of(problem@, sizes@),
            None => true,
        },
{
    let n_var = problem.nb_variables();
    let n_coord = sizes.len();
    if n_var > 2 * COUNT_LIMIT || !check_sizes_within_limits(sizes) {
        return None;
    }
    assert(n_var * n_var <= 2048 * 2048) by (nonlinear_arith)
        requires
            n_var <= 2048,
    ;
    let mut p = RowMatrix::square(n_var, 0);
    let mut q: Vec<i128> = Vec::new();
    let mut k: usize = 0;
    while k < n_var
        invariant
            k <= n_var,
            q@.len() == k,
            forall|v: int| 0 <= v < k ==> #[trigger] q@[v] == 0,
        decreases n_var - k,
    {
        q.push(0);
        k += 1;
    }
    let mut i: usize = 0;
    while i < n_coord
        invariant
            i <= n_coord,
            n_coord == sizes@.len(),
            n_var == problem@.nb_variables(),
            problem.wf(),
            problem@.coordinates.len() == sizes@.len(),
            sizes_valid(sizes@),
            sizes_within_limits(sizes@),
            p.wf(),
            p.spec_nrow() == n_var,
            p.spec_ncol() == n_var,
            q@.len() == n_var,
            forall|r: int, c: int|
                0 <= r < n_var && 0 <= c < n_var ==> #[trigger] p.entry(r, c) == objective_entry(
                    problem@,
                    sizes@,
                    r,
                    c,
                    i as int,
                ),
            forall|v: int| 0 <= v < n_var ==> #[trigger] q@[v] == linear_entry(problem@, sizes@, v, i as int),
        decreases n_coord - i,
    {
        let ghost n = n_coord as int;
        let ghost view = problem@;
        let (c_array_x, c_x) = residual(problem, sizes, i, true);
        let (c_array_y, c_y) = residual(problem, sizes, i, false);
        let ghost objective_before = p;
        let ghost linear_before = q@;
        proof {
            assert forall|r: int, c: int| 0 <= r < n_var && 0 <= c < n_var implies #[trigger] p.update_fits(
                c_array_x@,
                r,
                c,
            ) by {
                lemma_sums_fit(view, sizes@, r, c, i + 1);
                lemma_sums_fit(view, sizes@, c, r, i + 1);
                lemma_sums_fit(view, sizes@, r, c, i as int);
                lemma_product_bound(c_array_x@[r] as int, c_array_x@[c] as int, 0x100_0000_0000, 0x100_0000_0000);
                assert(0x100_0000_0000int * 0x100_0000_0000int == 0x1_0000_0000_0000_0000_0000int)
                    by (nonlinear_arith);
            }
        }
        p.add_vt_v(c_array_x.as_slice());
        let ghost objective_between = p;
        proof {
            assert forall|v: int| 0 <= v < n_var implies #[trigger] scaled_fits(q@, c_x, c_array_x@, v) by {
                lemma_sums_fit(view, sizes@, v, v, i + 1);
                lemma_sums_fit(view, sizes@, v, v, i as int);
                lemma_product_bound(
                    c_x as int,
                    c_array_x@[v] as int,
                    0x200_0000_0000_0000_0000,
                    0x100_0000_0000,
                );
                assert(0x200_0000_0000_0000_0000int * 0x100_0000_0000int
                    == 0x2_0000_0000_0000_0000_0000_0000_0000int) by (nonlinear_arith);
            }
        }
        add_a_times_array(&mut q, c_x, c_array_x.as_slice());
        let ghost linear_between = q@;
        proof {
            assert forall|r: int, c: int| 0 <= r < n_var && 0 <= c < n_var implies #[trigger] p.update_fits(
                c_array_y@,
                r,
                c,
            ) by {
                lemma_sums_fit(view, sizes@, r, c, i + 1);
                lemma_sums_fit(view, sizes@, c, r, i + 1);
                lemma_sums_fit(view, sizes@, r, c, i as int);
                lemma_product_bound(c_array_x@[r] as int, c_array_x@[c] as int, 0x100_0000_0000, 0x100_0000_0000);
                lemma_product_bound(c_array_y@[r] as int, c_array_y@[c] as int, 0x100_0000_0000, 0x100_0000_0000);
                assert(0x100_0000_0000int * 0x100_0000_0000int == 0x1_0000_0000_0000_0000_0000int)
                    by (nonlinear_arith);
                assert(p.entry(r, c) == objective_before.entry(r, c) + c_array_x@[r] * c_array_x@[c]);
            }
        }
        p.add_vt_v(c_array_y.as_slice());
        proof {
            assert forall|v: int| 0 <= v < n_var implies #[trigger] scaled_fits(q@, c_y, c_array_y@, v) by {
                lemma_sums_fit(view, sizes@, v, v, i + 1);
                lemma_sums_fit(view, sizes@, v, v, i as int);
                lemma_product_bound(
                    c_x as int,
                    c_array_x@[v] as int,
                    0x200_0000_0000_0000_0000,
                    0x100_0000_0000,
                );
                lemma_product_bound(
                    c_y as int,
                    c_array_y@[v] as int,
                    0x200_0000_0000_0000_0000,
                    0x100_0000_0000,
                );
                assert(0x200_0000_0000_0000_0000int * 0x100_0000_0000int
                    == 0x2_0000_0000_0000_0000_0000_0000_0000int) by (nonlinear_arith);
                assert(q@[v] == linear_before[v] + c_x * c_array_x@[v]);
            }
        }
        add_a_times_array(&mut q, c_y, c_array_y.as_slice());
        proof {
            assert forall|r: int, c: int| 0 <= r < n_var && 0 <= c < n_var implies #[trigger] p.entry(r, c)
                == objective_entry(view, sizes@, r, c, i + 1) by {
                assert(objective_between.entry(r, c) == objective_before.entry(r, c) + c_array_x@[r] * c_array_x@[c]);
                assert(p.entry(r, c) == objective_between.entry(r, c) + c_array_y@[r] * c_array_y@[c]);
            }
            assert forall|v: int| 0 <= v < n_var implies #[trigger] q@[v] == linear_entry(view, sizes@, v, i + 1) by {
                assert(linear_between[v] == linear_before[v] + c_x * c_array_x@[v]);
                assert(q@[v] == linear_between[v] + c_y * c_array_y@[v]);
            }
        }
        i += 1;
    }
    let bounds = linear_bounds(problem);
    Some(QuadraticProgram { objective: p, linear: q, bounds })
}

/// The coordinates that come out of the answer `values` of a solver to
/// the program of `problem`, the bits of a double precision number for
/// each variable: none where the solver found no solution, gave a value
/// too few or too many, or a coordinate leaves the range of `i32`.
pub open spec fn spec_finish(problem: ProblemView, values: Option<Vec<u64>>) -> Result<Seq<Vec2di>, Infeasible> {
    match values {
        Some(values) => if values@.len() == problem.nb_variables() {
            match spec_solution_coordinates(problem, rounded_values(values@)) {
                Some(coordinates) => Ok(coordinates),
                None => Err(Infeasible),
            }
        } else {
            Err(Infeasible)
        },
        None => Err(Infeasible),
    }
}

/// The integers nearest to the double precision numbers of the bits
/// `bits`.
pub open spec fn rounded_values(bits: Seq<u64>) -> Seq<i64> {
    Seq::new(bits.len(), |i: int| spec_round_to_integer(bits[i]))
}

/// The integers nearest to the double precision numbers of the bits
/// `bits`.
pub fn round_values(bits: &[u64]) -> (res: Vec<i64>)
    ensures
        res@ == rounded_values(bits@),
{
    let mut rounded: Vec<i64> = Vec::new();
    let mut i: usize = 0;
    while i < bits.len()
        invariant
            i <= bits@.len(),
            rounded@.len() == i,
            forall|j: int| 0 <= j < i ==> #[trigger] rounded@[j] == spec_round_to_integer(bits@[j]),
        decreases bits@.len() - i,
    {
        rounded.push(round_to_integer(bits[i]));
        i += 1;
    }
    assert(rounded@ =~= rounded_values(bits@));
    rounded
}

/// The result as the contracts see it.
pub open spec fn coordinates_view(res: Result<Vec<Vec2di>, Infeasible>) -> Result<Seq<Vec2di>, Infeasible> {
    match res {
        Ok(coordinates) => Ok(coordinates@),
        Err(e) => Err(e),
    }
}

/// `res` is what placing outputs of the sizes `sizes` under the relations
/// `relations` gives with the solver `solve`: an error where the
/// constraints cannot hold or the objective cannot be computed, and else
/// what comes out of an answer of `solve` to the program of the problem.
pub open spec fn is_solver_outcome<F: FnOnce(&QuadraticProgram) -> Option<Vec<u64>>>(
    sizes: Seq<Vec2di>,
    relations: &RelationMatrix<Direction>,
    solve: F,
    res: Result<Vec<Vec2di>, Infeasible>,
) -> bool {
    match spec_prepare_problem(sizes, relations) {
        Some(problem) => if sizes_within_limits(sizes) {
            exists|program: &QuadraticProgram, values: Option<Vec<u64>>|
                program.is_program_of(problem, sizes) && #[trigger] call_ensures(solve, (program,), values)
                    && coordinates_view(res) == spec_finish(problem, values)
        } else {
            res.is_err()
        },
        None => res.is_err(),
    }
}

/// The bottom-left corner of each output, for outputs of the sizes `sizes`
/// under the relations `relations`. The constraints are gathered and
/// simplified, the quadratic program is handed to `solve`, and the values
/// that it returns for the variables, rounded to integers, give the
/// coordinates. `solve` returns the bits of a double precision number for
/// each variable, and `None` where it finds no solution in its time.
pub fn compute_optimized_bottom_left_coords<F: FnOnce(&QuadraticProgram) -> Option<Vec<u64>>>(
    sizes: &[Vec2di],
    relations: &RelationMatrix<Direction>,
    solve: F,
) -> (res: Result<Vec<Vec2di>, Infeasible>)
    requires
        sizes@.len() > 0,
        sizes_valid(sizes@),
        relations.wf(),
        relations.spec_size() == sizes@.len(),
        pair_count((2 * sizes@.len()) as nat) <= usize::MAX,
        forall|program: &QuadraticProgram| call_requires(solve, (program,)),
    ensures
        is_solver_outcome(sizes@, relations, solve, res),
{
    let problem = match prepare_problem(sizes, relations) {
        Ok(problem) => problem,
        Err(e) => {
            return Err(e);
        },
    };
    proof {
        let anchor = lemma_anchor_exists(sizes@);
        lemma_prepared_counts(sizes@, relations);
    }
    let program = match create_qp_problem(&problem, sizes) {
        Some(program) => program,
        None => {
            return Err(Infeasible);
        },
    };
    let values = solve(&program);
    let res = match &values {
        Some(found) => {
            if found.len() == problem.nb_variables() {
                let rounded = round_values(found.as_slice());
                solution_coordinates(&problem, rounded.as_slice())
            } else {
                Err(Infeasible)
            }
        },
        None => Err(Infeasible),
    };
    assert(call_ensures(solve, (&program,), values));
    assert(coordinates_view(res) == spec_finish(problem@, values));
    res
}

/// The size that an output shows the mode `mode` in under `transform`.
pub open spec fn transformed_size(mode: Mode, transform: Transform) -> Vec2di {
    let size = mode.size.swap_if(transform.swaps_axes());
    Vec2d { x: size.x as i32, y: size.y as i32 }
}

/// The sizes that the enabled outputs show the modes `modes` in, each
/// under its transform.
pub open spec fn transformed_sizes(transforms: Seq<Transform>, modes: Seq<Mode>) -> Seq<Vec2di> {
    Seq::new(transforms.len(), |k: int| transformed_size(modes[k], transforms[k]))
}

/// Each mode has a size that a rectangle can hold.
pub open spec fn modes_representable(modes: Seq<Mode>) -> bool {
    forall|k: int| 0 <= k < modes.len() ==> (#[trigger] modes[k]).size.x <= i32::MAX && modes[k].size.y <= i32::MAX
}

impl Layout {
    /// Where the enabled outputs go if each shows its preferred mode and
    /// they keep the relations that they have: the bottom-left corner of
    /// each, in the order of the entries.
    pub fn compute_base_coords<F: FnOnce(&QuadraticProgram) -> Option<Vec<u64>>>(
        &self,
        enabled_output_preferred_modes: &[Mode],
        solve: F,
    ) -> (res: Result<Vec<Vec2di>, Infeasible>)
        requires
            self.wf(),
            enabled_output_preferred_modes@.len() == enabled_transforms(self@.outputs).len(),
            enabled_output_preferred_modes@.len() > 0,
            modes_representable(enabled_output_preferred_modes@),
            pair_count((2 * enabled_output_preferred_modes@.len()) as nat) <= usize::MAX,
            forall|program: &QuadraticProgram| call_requires(solve, (program,)),
        ensures
            exists|relations: RelationMatrix<Direction>|
                #[trigger] holds_adjacency(&relations, enabled_rects(self@.outputs)) && is_solver_outcome(
                    transformed_sizes(enabled_transforms(self@.outputs), enabled_output_preferred_modes@),
                    &relations,
                    solve,
                    res,
                ),
    {
        let transforms = self.enabled_transforms();
        let n = transforms.len();
        let mut output_sizes: Vec<Vec2di> = Vec::new();
        let mut k: usize = 0;
        while k < n
            invariant
                k <= n,
                n == transforms@.len(),
                n == enabled_output_preferred_modes@.len(),
                modes_representable(enabled_output_preferred_modes@),
                output_sizes@.len() == k,
                forall|j: int|
                    0 <= j < k ==> #[trigger] output_sizes@[j] == transformed_size(
                        enabled_output_preferred_modes@[j],
                        transforms@[j],
                    ),
            decreases n - k,
        {
            let size = enabled_output_preferred_modes[k].size.apply(&transforms[k]);
            assert(enabled_output_preferred_modes@[k as int].size.x <= i32::MAX);
            output_sizes.push(Vec2d { x: size.x as i32, y: size.y as i32 });
            k += 1;
        }
        assert(output_sizes@ =~= transformed_sizes(transforms@, enabled_output_preferred_modes@));
        proof {
            crate::layout::lemma_enabled_shapes(self@.outputs);
        }
        let relations = self.relations();
        let res = compute_optimized_bottom_left_coords(output_sizes.as_slice(), &relations, solve);
        assert(holds_adjacency(&relations, enabled_rects(self@.outputs)));
        res
    }
}

} // verus!
