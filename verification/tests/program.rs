use slam::geometry::{Direction, Rotation, Transform, Vec2d, Vec2di};
use slam::layout::{Edid, LayoutInfo, Mode, OutputEntry, OutputId, OutputState};
use slam::program::{
    compute_optimized_bottom_left_coords, create_qp_problem, linear_bounds, LinearBound,
    QuadraticProgram, RowMatrix,
};
use slam::relation::RelationMatrix;
use slam::constraint::{Constraint, Expression};
use slam::placement::prepare_problem;
use slam::problem::QpProblemState;

/// Solves a program of one variable exactly: the minimum of `p x x / 2 + q x`
/// is at `-q / p`, brought into the bounds.
fn solve_one_variable(program: &QuadraticProgram) -> Option<Vec<u64>> {
    if program.linear.is_empty() {
        return Some(Vec::new());
    }
    assert_eq!(program.linear.len(), 1);
    let p = program.objective.row_major_array()[0];
    let q = program.linear[0];
    let mut x = if p == 0 { 0 } else { -q / p };
    for bound in &program.bounds {
        x = x.clamp(bound.range.min as i128, bound.range.max as i128);
    }
    Some(vec![(x as f64).to_bits()])
}

#[test]
fn row_matrix_operations() {
    let mut matrix = RowMatrix::square(2, 3);
    assert_eq!(matrix.nrow(), 2);
    assert_eq!(matrix.ncol(), 2);
    assert_eq!(matrix.row_major_array(), [3, 3, 3, 3].as_slice());
    assert_eq!(matrix.linearized_index(1, 0), 2);
    matrix.add_vt_v(&[2, -5]);
    assert_eq!(matrix.row_major_array(), [7, -7, -7, 28].as_slice());
    let mut rows = RowMatrix::empty(3);
    assert_eq!(rows.nrow(), 0);
    rows.add_row(&[1, 0, -1]);
    rows.add_row(&[0, 4, 0]);
    assert_eq!(rows.nrow(), 2);
    assert_eq!(rows.ncol(), 3);
    assert_eq!(rows.row_major_array(), [1, 0, -1, 0, 4, 0].as_slice());
    assert_eq!(rows.linearized_index(1, 2), 5);
}

#[test]
fn program_of_two_outputs_side_by_side() {
    let sizes = vec![Vec2di::new(1920, 1080), Vec2di::new(1280, 1024)];
    let mut relations = RelationMatrix::new(2);
    relations.set(0, 1, Some(Direction::LeftOf));
    let problem = prepare_problem(&sizes, &relations).ok().unwrap();
    let program = create_qp_problem(&problem, &sizes).unwrap();
    // The areas are 2073600 and 1310720: the objective is the sum of their
    // squares times y * y, less 28 times as much times 2 y.
    assert_eq!(program.objective.row_major_array(), [6_017_803_878_400i128].as_slice());
    assert_eq!(program.linear, vec![-168_498_508_595_200i128]);
    assert_eq!(
        program.bounds,
        vec![LinearBound {
            pos: 0,
            neg: None,
            range: Constraint::new(-1024, 1080)
        }]
    );
    let found = compute_optimized_bottom_left_coords(&sizes, &relations, solve_one_variable);
    assert_eq!(found.ok(), Some(vec![Vec2di::new(0, 0), Vec2di::new(1920, 28)]));
}

#[test]
fn program_of_two_free_outputs() {
    let sizes = vec![Vec2di::new(4, 2), Vec2di::new(2, 1)];
    let relations = RelationMatrix::new(2);
    let problem = prepare_problem(&sizes, &relations).ok().unwrap();
    let program = create_qp_problem(&problem, &sizes).unwrap();
    // The areas are 8 and 2. Along x the residual of the anchor is -2 x + 2
    // and that of the other output 8 x - 8; along y they are -2 y + 2 and
    // 8 y - 8.
    assert_eq!(program.objective.row_major_array(), [68i128, 0, 0, 68].as_slice());
    assert_eq!(program.linear, vec![-68i128, -68]);
    assert!(program.bounds.is_empty());
}

#[test]
fn bounds_of_a_problem() {
    let mut problem = QpProblemState::new();
    let x = Expression::free_variable(&mut problem);
    let y = Expression::free_variable(&mut problem);
    let z = Expression::free_variable(&mut problem);
    problem.add_coordinate(Vec2d::new(x, y));
    problem.add_coordinate(Vec2d::new(z, Expression::constant(0)));
    problem.mono_constraints[1] = Constraint::new(-5, 5);
    problem.mono_constraints[2] = Constraint::new(i32::MIN / 2, i32::MAX);
    assert!(problem.add_dual_constraint(z, x, Constraint::new(1, 2)).is_ok());
    assert!(problem.add_dual_constraint(y, z, Constraint::new(-3, 4)).is_ok());
    assert_eq!(
        linear_bounds(&problem),
        vec![
            LinearBound { pos: 1, neg: None, range: Constraint::new(-5, 5) },
            LinearBound { pos: 2, neg: Some(0), range: Constraint::new(-2, -1) },
            LinearBound { pos: 2, neg: Some(1), range: Constraint::new(-3, 4) },
        ]
    );
}

#[test]
fn objective_is_not_computed_beyond_its_limits() {
    let large = vec![Vec2di::new(1 << 20, 1 << 20), Vec2di::new(1, 1)];
    let relations = RelationMatrix::new(2);
    let problem = prepare_problem(&large, &relations).ok().unwrap();
    // The areas add up to 2^40 + 1.
    assert!(create_qp_problem(&problem, &large).is_none());
    assert!(compute_optimized_bottom_left_coords(&large, &relations, solve_one_variable).is_err());
    let at_the_limit = vec![Vec2di::new(1 << 20, 1 << 20)];
    let relations = RelationMatrix::new(1);
    let problem = prepare_problem(&at_the_limit, &relations).ok().unwrap();
    assert!(create_qp_problem(&problem, &at_the_limit).is_some());
    let many = vec![Vec2di::new(1, 1); 1025];
    let relations = RelationMatrix::new(1025);
    let problem = prepare_problem(&many, &relations).ok().unwrap();
    assert!(create_qp_problem(&problem, &many).is_none());
}

#[test]
fn answers_of_the_solver() {
    let sizes = vec![Vec2di::new(1920, 1080), Vec2di::new(1280, 1024)];
    let mut relations = RelationMatrix::new(2);
    relations.set(0, 1, Some(Direction::LeftOf));
    let no_solution = |_: &QuadraticProgram| None;
    assert!(compute_optimized_bottom_left_coords(&sizes, &relations, no_solution).is_err());
    let too_many = |_: &QuadraticProgram| Some(vec![1.0f64.to_bits(), 2.0f64.to_bits()]);
    assert!(compute_optimized_bottom_left_coords(&sizes, &relations, too_many).is_err());
    let too_large = |_: &QuadraticProgram| Some(vec![1e10f64.to_bits()]);
    assert!(compute_optimized_bottom_left_coords(&sizes, &relations, too_large).is_err());
    let too_large = |_: &QuadraticProgram| Some(vec![f64::NAN.to_bits()]);
    assert!(compute_optimized_bottom_left_coords(&sizes, &relations, too_large).is_err());
    let too_large = |_: &QuadraticProgram| Some(vec![f64::NEG_INFINITY.to_bits()]);
    assert!(compute_optimized_bottom_left_coords(&sizes, &relations, too_large).is_err());
    let fixed = |_: &QuadraticProgram| Some(vec![(-7.0f64).to_bits()]);
    assert_eq!(
        compute_optimized_bottom_left_coords(&sizes, &relations, fixed).ok(),
        Some(vec![Vec2di::new(0, 0), Vec2di::new(1920, -7)])
    );
    // The values are rounded to the nearest integer, halves away from zero.
    let between = |_: &QuadraticProgram| Some(vec![27.5f64.to_bits()]);
    assert_eq!(
        compute_optimized_bottom_left_coords(&sizes, &relations, between).ok(),
        Some(vec![Vec2di::new(0, 0), Vec2di::new(1920, 28)])
    );
    let below = |_: &QuadraticProgram| Some(vec![(-27.5f64).to_bits()]);
    assert_eq!(
        compute_optimized_bottom_left_coords(&sizes, &relations, below).ok(),
        Some(vec![Vec2di::new(0, 0), Vec2di::new(1920, -28)])
    );
    // Relations that cannot hold never reach the solver.
    let mut conflict = RelationMatrix::new(3);
    conflict.set(0, 1, Some(Direction::LeftOf));
    conflict.set(1, 2, Some(Direction::LeftOf));
    conflict.set(0, 2, Some(Direction::Above));
    let sizes = vec![Vec2di::new(1000, 1000); 3];
    let unreachable = |_: &QuadraticProgram| -> Option<Vec<u64>> { panic!("solver called") };
    assert!(compute_optimized_bottom_left_coords(&sizes, &conflict, unreachable).is_err());
}

#[test]
fn base_coordinates_of_a_layout() {
    let state = |x: i32, y: i32, transform: Transform| OutputState::Enabled {
        mode: Mode { size: Vec2d::new(800, 600), frequency: 60 },
        transform,
        bottom_left: Vec2d::new(x, y),
    };
    let layout = LayoutInfo::from(
        vec![
            OutputEntry { id: OutputId::Edid(Edid::from(1)), state: state(0, 0, Transform::default()) },
            OutputEntry { id: OutputId::Edid(Edid::from(2)), state: OutputState::Disabled },
            OutputEntry {
                id: OutputId::Edid(Edid::from(3)),
                state: state(800, 0, Transform::default().rotate(Rotation::R90)),
            },
        ],
        None,
    )
    .layout;
    // The first output in a larger mode, the second, turned, in a smaller one.
    let modes = [
        Mode { size: Vec2d::new(1920, 1080), frequency: 60 },
        Mode { size: Vec2d::new(1024, 768), frequency: 75 },
    ];
    let found = layout.compute_base_coords(&modes, solve_one_variable);
    // The second output is 768 wide and 1024 high: its middle goes to the
    // middle of the first, 540 - 512 above its bottom.
    assert_eq!(found.ok(), Some(vec![Vec2di::new(0, 0), Vec2di::new(1920, 28)]));
}
