use slam::geometry::{Direction, Vec2d, Vec2di};
use slam::relation::{InvertibleRelation, RelationMatrix};
use slam::constraint::{Constraint, Expression, Variable};
use slam::placement::{
    add_leftof_relation, add_under_relation, anchor_index, prepare_problem, solution_coordinates,
};
use slam::problem::QpProblemState;

#[test]
fn test_qp_problem_replace_with_const() {
    let mut problem = QpProblemState::new();
    let coord0 = Vec2d::new(
        Expression::free_variable(&mut problem) + 40, // index 0
        Expression::free_variable(&mut problem),      // index 1
    );
    let coord1 = Vec2d::new(
        Expression {
            constant: 0,
            variable: coord0.x.variable.clone(), // index 0 multi use
        },
        Expression::constant(42),
    );
    problem.coordinate_definitions = vec![coord0, coord1];
    problem.mono_constraints[0] = Constraint::new(-10, 10);
    problem.mono_constraints[1] = Constraint::new(0, 10);
    let add_constraint = problem.add_dual_constraint(
        problem.coordinate_definitions[0].x.clone(),
        problem.coordinate_definitions[0].y.clone(),
        Constraint::new(-100, 100),
    );
    assert!(add_constraint.is_ok());
    // successful replacement
    let replacement = problem.replace_variable_with_constant(Variable { index: 0 }, -10);
    assert!(replacement.is_ok());
    assert_eq!(
        problem.coordinate_definitions[0].x,
        Expression::constant(30)
    );
    assert_eq!(
        problem.coordinate_definitions[0].y,
        Expression {
            constant: 0,
            variable: Some(Variable { index: 0 }) // index shifted
        }
    );
    assert_eq!(
        problem.coordinate_definitions[1].x,
        Expression::constant(-10)
    );
    // failed replacement (bounds)
    let replacement = problem.replace_variable_with_constant(Variable { index: 0 }, -10);
    assert!(replacement.is_err());

    assert_eq!(problem.nb_variables(), problem.dual_constraints.size());
}

#[test]
fn test_qp_problem_merge_variables() {
    let mut problem = QpProblemState::new();
    let coord0 = Vec2d::new(
        Expression::free_variable(&mut problem) + 40, // index 0
        Expression::free_variable(&mut problem),      // index 1
    );
    let coord1 = Vec2d::new(
        Expression {
            constant: 0,
            variable: coord0.x.variable.clone(), // index 0 multi use
        },
        Expression::free_variable(&mut problem), // index 2
    );
    let coord2 = Vec2d::new(
        Expression::free_variable(&mut problem), // index 3
        Expression::free_variable(&mut problem), // index 4
    );
    problem.coordinate_definitions = vec![coord0, coord1, coord2];
    problem.mono_constraints[1] = Constraint::new(-10, 10);
    problem.mono_constraints[2] = Constraint::new(-10, 10);
    problem.mono_constraints[3] = Constraint::new(0, 10);
    problem.mono_constraints[4] = Constraint::new(0, 10);
    let result = problem.add_dual_constraint(
        problem.coordinate_definitions[0].x.clone(), // index 0
        problem.coordinate_definitions[2].y.clone(), // index 4
        Constraint::new(0, 100),
    );
    assert!(result.is_ok());
    // x = y + 10, {x,y} in [0,10] => x = 10, y = 0, but no simplification
    let result = problem.add_equality_constraint(
        problem.coordinate_definitions[2].x.clone(),
        problem.coordinate_definitions[2].y.clone() + 10,
    );
    assert!(result.is_ok());
    assert_eq!(
        problem.coordinate_definitions[2].x,
        Expression {
            constant: 0,
            variable: Some(Variable { index: 3 })
        }
    );
    assert_eq!(
        problem.coordinate_definitions[2].y,
        Expression {
            constant: -10,
            variable: Some(Variable { index: 3 })
        }
    );
    assert_eq!(
        problem.mono_constraints[3].min,
        problem.mono_constraints[3].max
    );
    assert_eq!(
        problem.dual_constraints.get(0, 3),
        Some(Constraint::new(50, 150))
    );
    // normal merge (0 with 1), shifts 2 -> 1.
    // (0) + 40 == (1) + 10. bounds of (0) infinite so just reuse ones from 1
    let result = problem.add_equality_constraint(
        problem.coordinate_definitions[0].x.clone(),
        problem.coordinate_definitions[0].y.clone() + 10,
    );
    assert!(result.is_ok());
    assert_eq!(
        problem.coordinate_definitions[0].x,
        Expression {
            constant: 40,
            variable: Some(Variable { index: 0 })
        }
    );
    assert_eq!(problem.mono_constraints[0], Constraint::new(-40, -20));
    assert_eq!(
        problem.coordinate_definitions[0].y,
        Expression {
            constant: 30,
            variable: Some(Variable { index: 0 })
        }
    );
    // failed merge
    let result = problem.add_equality_constraint(
        problem.coordinate_definitions[0].x.clone(),
        problem.coordinate_definitions[1].y.clone() + 100,
    );
    assert!(result.is_err());

    assert_eq!(problem.nb_variables(), problem.dual_constraints.size())
}

#[test]
fn constraint_ranges() {
    let range = Constraint::new(-5, 9);
    assert!(range.contains(-5));
    assert!(range.contains(9));
    assert!(!range.contains(10));
    assert!(!range.contains(-6));
    assert!(!range.is_unconstrained());
    assert!(Constraint::unconstrained().is_unconstrained());
    assert_eq!(Constraint::unconstrained(), Constraint::new(i32::MIN, i32::MAX));
    assert!(Constraint::new(i32::MIN / 2, i32::MAX).is_unconstrained());
    assert!(!Constraint::new(i32::MIN / 2 + 1, i32::MAX).is_unconstrained());
    assert_eq!(range + 3, Constraint::new(-2, 12));
    assert_eq!(range.inverse(), Constraint::new(-9, 5));
}

#[test]
fn constraint_bounds_stay_in_range() {
    let wide = Constraint::new(i32::MIN, i32::MAX);
    assert_eq!(wide + 7, Constraint::new(i32::MIN + 7, i32::MAX));
    assert_eq!(wide + (-7), Constraint::new(i32::MIN, i32::MAX - 7));
    assert_eq!(wide.inverse(), Constraint::new(-i32::MAX, i32::MAX));
    // The inverse of the inverse is not always the range itself.
    assert_eq!(wide.inverse().inverse(), Constraint::new(-i32::MAX, i32::MAX));
}

#[test]
fn constraint_merge_is_the_intersection() {
    let a = Constraint::new(-10, 10);
    let b = Constraint::new(4, 20);
    assert_eq!(a.merge(&b).ok(), Some(Constraint::new(4, 10)));
    assert_eq!(b.merge(&a).ok(), Some(Constraint::new(4, 10)));
    assert_eq!(a.merge(&Constraint::new(10, 11)).ok(), Some(Constraint::new(10, 10)));
    assert!(a.merge(&Constraint::new(11, 12)).is_err());
}

#[test]
fn inverse_of_a_stored_range_is_read_backward() {
    let mut matrix = RelationMatrix::new(2);
    matrix.set(1, 0, Some(Constraint::new(i32::MIN, 0)));
    assert_eq!(matrix.get(0, 1), Some(Constraint::new(0, i32::MAX)));
    assert_eq!(matrix.get(1, 0), Some(Constraint::new(-i32::MAX, 0)));
}

#[test]
fn equality_of_two_constants_is_a_test() {
    let mut problem = QpProblemState::new();
    assert!(problem
        .add_equality_constraint(Expression::constant(3), Expression::constant(3))
        .is_ok());
    assert!(problem
        .add_equality_constraint(Expression::constant(3), Expression::constant(4))
        .is_err());
}

#[test]
fn equality_with_a_constant_replaces_the_variable() {
    let mut problem = QpProblemState::new();
    let x = Expression::free_variable(&mut problem);
    let y = Expression::free_variable(&mut problem);
    problem.add_coordinate(Vec2d::new(x, y));
    // y + 5 == 12
    assert!(problem
        .add_equality_constraint(y + 5, Expression::constant(12))
        .is_ok());
    assert_eq!(problem.nb_variables(), 1);
    assert_eq!(problem.coordinate_definitions[0].x, x);
    assert_eq!(problem.coordinate_definitions[0].y, Expression::constant(7));
    // 20 == x + 1
    assert!(problem
        .add_equality_constraint(Expression::constant(20), x + 1)
        .is_ok());
    assert_eq!(problem.nb_variables(), 0);
    assert_eq!(problem.coordinate_definitions[0].x, Expression::constant(19));
}

#[test]
fn merging_a_variable_with_itself() {
    let mut problem = QpProblemState::new();
    let x = Expression::free_variable(&mut problem);
    problem.add_coordinate(Vec2d::new(x, Expression::constant(0)));
    assert!(problem.add_equality_constraint(x + 1, x + 1).is_ok());
    assert_eq!(problem.nb_variables(), 1);
    assert!(problem.add_equality_constraint(x, x + 1).is_err());
    assert!(problem
        .merge_variables(Variable { index: 0 }, 3, Variable { index: 0 }, 3)
        .is_ok());
    assert!(problem
        .merge_variables(Variable { index: 0 }, 3, Variable { index: 0 }, 4)
        .is_err());
}

#[test]
fn failed_operations_leave_the_problem_as_it_was() {
    let mut problem = QpProblemState::new();
    let x = Expression::free_variable(&mut problem);
    let y = Expression::free_variable(&mut problem);
    problem.add_coordinate(Vec2d::new(x, y));
    problem.mono_constraints[0] = Constraint::new(0, 10);
    problem.mono_constraints[1] = Constraint::new(100, 110);
    assert!(problem
        .add_dual_constraint(x, y, Constraint::new(0, 1000))
        .is_ok());
    // x == y cannot be: the ranges do not meet.
    assert!(problem.add_equality_constraint(x, y).is_err());
    assert_eq!(problem.nb_variables(), 2);
    assert_eq!(problem.mono_constraints[0], Constraint::new(0, 10));
    assert_eq!(problem.mono_constraints[1], Constraint::new(100, 110));
    assert_eq!(problem.dual_constraints.get(0, 1), Some(Constraint::new(0, 1000)));
    assert_eq!(problem.coordinate_definitions[0], Vec2d::new(x, y));
    // y == x + 2000 is outside the range of y - x.
    assert!(problem.add_equality_constraint(y, x + 2000).is_err());
    assert_eq!(problem.nb_variables(), 2);
    // A constant outside the range of the variable.
    assert!(problem
        .replace_variable_with_constant(Variable { index: 1 }, 99)
        .is_err());
    assert_eq!(problem.nb_variables(), 2);
}

#[test]
fn dual_constraint_cases() {
    let mut problem = QpProblemState::new();
    let x = Expression::free_variable(&mut problem);
    let y = Expression::free_variable(&mut problem);
    problem.add_coordinate(Vec2d::new(x, y));
    // Between constants: 2 <= 7 - 3 <= 5.
    assert!(problem
        .add_dual_constraint(Expression::constant(3), Expression::constant(7), Constraint::new(2, 5))
        .is_ok());
    assert!(problem
        .add_dual_constraint(Expression::constant(3), Expression::constant(9), Constraint::new(2, 5))
        .is_err());
    // One variable on the positive side: 0 <= (x + 4) - 10 <= 6, so 6 <= x <= 12.
    assert!(problem
        .add_dual_constraint(Expression::constant(10), x + 4, Constraint::new(0, 6))
        .is_ok());
    assert_eq!(problem.mono_constraints[0], Constraint::new(6, 12));
    // One variable on the negative side: 0 <= 10 - (y + 4) <= 6, so 0 <= y <= 6.
    assert!(problem
        .add_dual_constraint(y + 4, Expression::constant(10), Constraint::new(0, 6))
        .is_ok());
    assert_eq!(problem.mono_constraints[1], Constraint::new(0, 6));
    // Two variables: 1 <= (y + 2) - (x + 5) <= 9, so 4 <= y - x <= 12.
    assert!(problem
        .add_dual_constraint(x + 5, y + 2, Constraint::new(1, 9))
        .is_ok());
    assert_eq!(problem.dual_constraints.get(0, 1), Some(Constraint::new(4, 12)));
    assert_eq!(problem.dual_constraints.get(1, 0), Some(Constraint::new(-12, -4)));
    // A second range for the same pair narrows the first.
    assert!(problem
        .add_dual_constraint(y, x, Constraint::new(-10, 0))
        .is_ok());
    assert_eq!(problem.dual_constraints.get(0, 1), Some(Constraint::new(4, 10)));
    // One that does not meet it fails.
    assert!(problem
        .add_dual_constraint(x, y, Constraint::new(11, 20))
        .is_err());
    // One and the same variable: a test on the constants.
    assert!(problem
        .add_dual_constraint(x, x + 3, Constraint::new(0, 3))
        .is_ok());
    assert!(problem
        .add_dual_constraint(x, x + 4, Constraint::new(0, 3))
        .is_err());
}

#[test]
fn replacing_a_variable_folds_its_differences() {
    let mut problem = QpProblemState::new();
    let x = Expression::free_variable(&mut problem);
    let y = Expression::free_variable(&mut problem);
    let z = Expression::free_variable(&mut problem);
    problem.add_coordinate(Vec2d::new(x, y));
    problem.add_coordinate(Vec2d::new(z, Expression::constant(0)));
    // 1 <= y - x <= 5 and -3 <= x - z <= 3
    assert!(problem.add_dual_constraint(x, y, Constraint::new(1, 5)).is_ok());
    assert!(problem.add_dual_constraint(z, x, Constraint::new(-3, 3)).is_ok());
    assert!(problem
        .replace_variable_with_constant(Variable { index: 0 }, 100)
        .is_ok());
    assert_eq!(problem.nb_variables(), 2);
    // y is now the variable 0 and z the variable 1.
    assert_eq!(problem.mono_constraints[0], Constraint::new(101, 105));
    assert_eq!(problem.mono_constraints[1], Constraint::new(97, 103));
    assert_eq!(problem.dual_constraints.get(0, 1), None);
    assert_eq!(problem.coordinate_definitions[0].x, Expression::constant(100));
    assert_eq!(
        problem.coordinate_definitions[0].y,
        Expression { constant: 0, variable: Some(Variable { index: 0 }) }
    );
    assert_eq!(
        problem.coordinate_definitions[1].x,
        Expression { constant: 0, variable: Some(Variable { index: 1 }) }
    );
}

#[test]
fn overflow_of_a_coordinate_is_infeasible() {
    let mut problem = QpProblemState::new();
    let x = Expression::free_variable(&mut problem);
    problem.add_coordinate(Vec2d::new(x + i32::MAX, Expression::constant(0)));
    assert!(problem
        .replace_variable_with_constant(Variable { index: 0 }, 1)
        .is_err());
    assert_eq!(problem.nb_variables(), 1);
    assert!(problem
        .replace_variable_with_constant(Variable { index: 0 }, 0)
        .is_ok());
    assert_eq!(problem.coordinate_definitions[0].x, Expression::constant(i32::MAX));
}

#[test]
fn anchor_is_the_last_of_the_largest() {
    assert_eq!(anchor_index(&[Vec2di::new(10, 10)]), 0);
    assert_eq!(
        anchor_index(&[Vec2di::new(10, 10), Vec2di::new(20, 10), Vec2di::new(5, 5)]),
        1
    );
    assert_eq!(
        anchor_index(&[Vec2di::new(10, 20), Vec2di::new(20, 10), Vec2di::new(5, 5)]),
        1
    );
    assert_eq!(
        anchor_index(&[Vec2di::new(46341, 46341), Vec2di::new(i32::MAX, i32::MAX)]),
        1
    );
}

fn two_outputs() -> (Vec<Vec2di>, RelationMatrix<Direction>) {
    let sizes = vec![Vec2di::new(1920, 1080), Vec2di::new(1280, 1024)];
    let mut relations = RelationMatrix::new(2);
    relations.set(0, 1, Some(Direction::LeftOf));
    (sizes, relations)
}

#[test]
fn two_outputs_side_by_side() {
    let (sizes, relations) = two_outputs();
    let problem = prepare_problem(&sizes, &relations).ok().unwrap();
    // The larger output is at (0, 0); the other keeps one variable, its y.
    assert_eq!(problem.nb_variables(), 1);
    assert_eq!(
        problem.coordinate_definitions,
        vec![
            Vec2d::new(Expression::constant(0), Expression::constant(0)),
            Vec2d::new(
                Expression::constant(1920),
                Expression { constant: 0, variable: Some(Variable { index: 0 }) }
            ),
        ]
    );
    assert_eq!(problem.mono_constraints, vec![Constraint::new(-1024, 1080)]);
    let found = solution_coordinates(&problem, &[28]).ok().unwrap();
    assert_eq!(found, vec![Vec2di::new(0, 0), Vec2di::new(1920, 28)]);
}

#[test]
fn right_of_and_above_swap_the_roles() {
    let sizes = vec![Vec2di::new(800, 600), Vec2di::new(1024, 768)];
    let mut relations = RelationMatrix::new(2);
    relations.set(0, 1, Some(Direction::RightOf));
    let problem = prepare_problem(&sizes, &relations).ok().unwrap();
    // Output 1 is the anchor; output 0 is on its right.
    assert_eq!(problem.coordinate_definitions[1].x, Expression::constant(0));
    assert_eq!(problem.coordinate_definitions[0].x, Expression::constant(1024));
    assert_eq!(problem.mono_constraints, vec![Constraint::new(-600, 768)]);
    let mut relations = RelationMatrix::new(2);
    relations.set(0, 1, Some(Direction::Above));
    let problem = prepare_problem(&sizes, &relations).ok().unwrap();
    assert_eq!(problem.coordinate_definitions[0].y, Expression::constant(768));
    assert_eq!(problem.mono_constraints, vec![Constraint::new(-800, 1024)]);
    let mut relations = RelationMatrix::new(2);
    relations.set(0, 1, Some(Direction::Under));
    let problem = prepare_problem(&sizes, &relations).ok().unwrap();
    assert_eq!(problem.coordinate_definitions[0].y, Expression::constant(-600));
    // -1024 <= 0 - x0 <= 800
    assert_eq!(problem.mono_constraints, vec![Constraint::new(-800, 1024)]);
}

#[test]
fn conflicting_relations_are_infeasible() {
    let sizes = vec![Vec2di::new(1000, 1000); 3];
    let mut relations = RelationMatrix::new(3);
    relations.set(0, 1, Some(Direction::LeftOf));
    relations.set(1, 2, Some(Direction::LeftOf));
    relations.set(0, 2, Some(Direction::Above));
    assert!(prepare_problem(&sizes, &relations).is_err());
}

#[test]
fn a_row_of_three_outputs() {
    let sizes = vec![Vec2di::new(1000, 1000), Vec2di::new(500, 400), Vec2di::new(300, 200)];
    let mut relations = RelationMatrix::new(3);
    relations.set(0, 1, Some(Direction::LeftOf));
    relations.set(1, 2, Some(Direction::LeftOf));
    let problem = prepare_problem(&sizes, &relations).ok().unwrap();
    assert_eq!(problem.nb_variables(), 2);
    assert_eq!(problem.coordinate_definitions[1].x, Expression::constant(1000));
    assert_eq!(problem.coordinate_definitions[2].x, Expression::constant(1500));
    // 0 <= y1 + 400 and y1 <= 1000; -200 <= y2 - y1 <= 400.
    assert_eq!(problem.mono_constraints[0], Constraint::new(-400, 1000));
    assert_eq!(problem.mono_constraints[1], Constraint::unconstrained());
    assert_eq!(problem.dual_constraints.get(0, 1), Some(Constraint::new(-200, 400)));
    let found = solution_coordinates(&problem, &[300, 400]).ok().unwrap();
    assert_eq!(
        found,
        vec![Vec2di::new(0, 0), Vec2di::new(1000, 300), Vec2di::new(1500, 400)]
    );
    for (l, r) in [(0usize, 1usize), (1, 2)] {
        // The sides touch, and the right output slides along the left one.
        assert_eq!(found[l].x + sizes[l].x, found[r].x);
        assert!(found[l].y - sizes[r].y <= found[r].y);
        assert!(found[r].y <= found[l].y + sizes[l].y);
    }
}

#[test]
fn values_within_the_ranges_give_outputs_that_touch() {
    // Four outputs around a corner: 0 left of 1, 1 under 2, 3 above 0.
    let sizes = vec![
        Vec2di::new(800, 600),
        Vec2di::new(1000, 700),
        Vec2di::new(640, 480),
        Vec2di::new(320, 200),
    ];
    let mut relations = RelationMatrix::new(4);
    relations.set(0, 1, Some(Direction::LeftOf));
    relations.set(1, 2, Some(Direction::Under));
    relations.set(3, 0, Some(Direction::Above));
    let problem = prepare_problem(&sizes, &relations).ok().unwrap();
    // The output 1 is the anchor; y0, x2 and x3 are left.
    assert_eq!(problem.nb_variables(), 3);
    for values in [[0i64, 0, 0], [-600, -640, -1120], [700, 1000, 0], [50, 321, -900]] {
        let meets = problem
            .mono_constraints
            .iter()
            .zip(values.iter())
            .all(|(range, value)| range.min as i64 <= *value && *value <= range.max as i64)
            && (0..3).all(|neg| {
                (0..3).all(|pos| match problem.dual_constraints.get(neg, pos) {
                    Some(range) => {
                        let difference = values[pos] - values[neg];
                        range.min as i64 <= difference && difference <= range.max as i64
                    }
                    None => true,
                })
            });
        let found = solution_coordinates(&problem, &values).ok().unwrap();
        assert_eq!(found[1], Vec2di::new(0, 0));
        // The equalities hold whatever the values.
        assert_eq!(found[0].x + sizes[0].x, found[1].x);
        assert_eq!(found[1].y + sizes[1].y, found[2].y);
        assert_eq!(found[0].y + sizes[0].y, found[3].y);
        let slides = |a: i32, b: i32, ea: i32, eb: i32| a - eb <= b && b <= a + ea;
        let ranges = slides(found[0].y, found[1].y, sizes[0].y, sizes[1].y)
            && slides(found[1].x, found[2].x, sizes[1].x, sizes[2].x)
            && slides(found[0].x, found[3].x, sizes[0].x, sizes[3].x);
        // The ranges hold where the values meet those of the problem.
        if meets {
            assert!(ranges);
        }
    }
    let inside = solution_coordinates(&problem, &[50, 321, -900]).ok().unwrap();
    assert_eq!(
        inside,
        vec![
            Vec2di::new(-800, 50),
            Vec2di::new(0, 0),
            Vec2di::new(321, 700),
            Vec2di::new(-900, 650)
        ]
    );
}

#[test]
fn outputs_without_relation_keep_their_variables() {
    let sizes = vec![Vec2di::new(10, 10), Vec2di::new(20, 20), Vec2di::new(5, 5)];
    let relations = RelationMatrix::new(3);
    let problem = prepare_problem(&sizes, &relations).ok().unwrap();
    assert_eq!(problem.nb_variables(), 4);
    assert_eq!(
        problem.coordinate_definitions[0],
        Vec2d::new(
            Expression { constant: 0, variable: Some(Variable { index: 0 }) },
            Expression { constant: 0, variable: Some(Variable { index: 1 }) }
        )
    );
    assert_eq!(
        problem.coordinate_definitions[1],
        Vec2d::new(Expression::constant(0), Expression::constant(0))
    );
    assert_eq!(
        problem.coordinate_definitions[2],
        Vec2d::new(
            Expression { constant: 0, variable: Some(Variable { index: 2 }) },
            Expression { constant: 0, variable: Some(Variable { index: 3 }) }
        )
    );
}

#[test]
fn relations_one_by_one() {
    let sizes = vec![Vec2di::new(100, 50), Vec2di::new(60, 40)];
    let mut problem = QpProblemState::new();
    problem.add_coordinate(Vec2d::new(Expression::constant(0), Expression::constant(0)));
    let x = Expression::free_variable(&mut problem);
    let y = Expression::free_variable(&mut problem);
    problem.add_coordinate(Vec2d::new(x, y));
    assert!(add_leftof_relation(&mut problem, 0, 1, &sizes).is_ok());
    assert_eq!(problem.coordinate_definitions[1].x, Expression::constant(100));
    assert_eq!(problem.mono_constraints, vec![Constraint::new(-40, 50)]);
    // The output cannot be on the left as well.
    assert!(add_leftof_relation(&mut problem, 1, 0, &sizes).is_err());
    assert_eq!(problem.nb_variables(), 1);
    // Its top may be the bottom of the other: they touch at a corner.
    assert!(add_under_relation(&mut problem, 1, 0, &sizes).is_ok());
    assert_eq!(problem.coordinate_definitions[1].y, Expression::constant(-40));
    assert_eq!(problem.nb_variables(), 0);
}

#[test]
fn a_relation_that_fails_on_its_range_keeps_its_equality() {
    let sizes = vec![Vec2di::new(100, 50), Vec2di::new(60, 40)];
    let mut problem = QpProblemState::new();
    problem.add_coordinate(Vec2d::new(Expression::constant(0), Expression::constant(0)));
    let x = Expression::free_variable(&mut problem);
    problem.add_coordinate(Vec2d::new(x, Expression::constant(500)));
    assert!(add_leftof_relation(&mut problem, 0, 1, &sizes).is_err());
    assert_eq!(problem.coordinate_definitions[1].x, Expression::constant(100));
    assert_eq!(problem.nb_variables(), 0);
}

#[test]
fn evaluation_checks_the_range() {
    let with_variable = Expression { constant: 10, variable: Some(Variable { index: 1 }) };
    assert_eq!(with_variable.evaluate(&[0, 5]).ok(), Some(15));
    assert_eq!(with_variable.evaluate(&[0, -25]).ok(), Some(-15));
    assert_eq!(
        with_variable.evaluate(&[0, i32::MAX as i64 - 10]).ok(),
        Some(i32::MAX)
    );
    assert!(with_variable.evaluate(&[0, i32::MAX as i64 - 9]).is_err());
    assert!(with_variable.evaluate(&[0, i32::MAX as i64 + 1]).is_err());
    assert!(with_variable.evaluate(&[0, i64::MIN]).is_err());
    assert_eq!(Expression::constant(-3).evaluate(&[]).ok(), Some(-3));
}

#[test]
fn coordinates_outside_the_range_are_infeasible() {
    let (sizes, relations) = two_outputs();
    let problem = prepare_problem(&sizes, &relations).ok().unwrap();
    assert!(solution_coordinates(&problem, &[i64::MAX]).is_err());
    assert!(solution_coordinates(&problem, &[i32::MIN as i64 - 1]).is_err());
    assert_eq!(
        solution_coordinates(&problem, &[i32::MIN as i64]).ok(),
        Some(vec![Vec2di::new(0, 0), Vec2di::new(1920, i32::MIN)])
    );
}
