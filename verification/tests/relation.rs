use slam::geometry::Direction;
use slam::relation::{buffer_size, RelationMatrix};

#[test]
fn test_relation_matrix_basic() {
    // Check buffer size
    assert_eq!(buffer_size(0), 0);
    assert_eq!(buffer_size(1), 0);
    assert_eq!(buffer_size(2), 1);
    assert_eq!(buffer_size(3), 3);
    // Basic ops
    let size = 10;
    let mut matrix = RelationMatrix::new(size);
    // Check linearization
    {
        let mut manual_offset = 0;
        for n in 1..size {
            for m in 0..n {
                assert_eq!(matrix.linearized_index(m, n), manual_offset);
                manual_offset += 1;
            }
        }
        assert_eq!(manual_offset, matrix.buffer_len())
    }
    // Sanity check for store/load logic
    matrix.set(2, 3, Some(Direction::LeftOf));
    assert_eq!(matrix.get(2, 3), Some(Direction::LeftOf));
    assert_eq!(matrix.get(3, 2), Some(Direction::RightOf));
    matrix.set(3, 2, Some(Direction::Above));
    assert_eq!(matrix.get(2, 3), Some(Direction::Under));
    // Add some more content
    for (i, j) in [(0, 4), (4, 2), (2, 1), (1, 3)] {
        matrix.set(i, j, Some(Direction::LeftOf))
    }
    // Remove and check that the matrix are the same if we skip the removed id.
    let original = matrix.clone();
    let removed_id = 3;
    matrix.remove_element(removed_id);
    assert_eq!(matrix.buffer_len(), buffer_size(matrix.size()));
    for lhs in 0..matrix.size() {
        for rhs in 0..matrix.size() {
            assert_eq!(
                matrix.get(lhs, rhs),
                original.get(
                    lhs + if lhs >= removed_id { 1 } else { 0 },
                    rhs + if rhs >= removed_id { 1 } else { 0 }
                )
            );
        }
    }
}

fn check(n: usize, is_connex: bool, relations: &[(usize, usize)]) {
    let mut matrix = RelationMatrix::new(n);
    for (i, j) in relations {
        // direction itself does not matter
        matrix.set(*i, *j, Some(Direction::LeftOf))
    }
    assert!(
        matrix.is_single_connected_component() == is_connex,
        "case: n={} rels={:?}",
        n,
        relations
    )
}

#[test]
fn test_relation_matrix_connexity() {
    check(0, true, &[]);

    check(1, true, &[]);

    check(2, false, &[]);
    check(2, true, &[(0, 1)]);

    check(3, false, &[]);
    check(3, false, &[(0, 1)]);
    check(3, false, &[(0, 2)]);
    check(3, false, &[(1, 2)]);
    check(3, true, &[(1, 2), (0, 1)]);
    check(3, true, &[(0, 2), (0, 1)]);
    check(3, true, &[(0, 1), (1, 2), (0, 2)]);

    check(4, false, &[(0, 1), (1, 2), (0, 2)]);
    check(4, false, &[(0, 1), (2, 3)]);
    check(4, false, &[(0, 2), (1, 3)]);
    check(4, false, &[(0, 3), (1, 2)]);
    check(4, true, &[(0, 3), (1, 2), (0, 2)]);
    check(4, true, &[(0, 1), (1, 2), (2, 3)]);
    check(4, true, &[(0, 2), (3, 2), (1, 3)]);

    check(5, false, &[(0, 1), (1, 2), (2, 1), (3, 4)]);
    check(5, true, &[(0, 1), (1, 2), (2, 3), (3, 4)]);
    check(5, true, &[(0, 4), (4, 2), (2, 1), (1, 3)]);
}

#[test]
fn new_matrix_has_no_relation() {
    let matrix: RelationMatrix<Direction> = RelationMatrix::new(4);
    assert_eq!(matrix.size(), 4);
    assert_eq!(matrix.buffer_len(), 6);
    for i in 0..4 {
        for j in 0..4 {
            assert_eq!(matrix.get(i, j), None);
        }
    }
}

#[test]
fn relation_read_backward_is_the_inverse() {
    let mut matrix = RelationMatrix::new(5);
    matrix.set(1, 4, Some(Direction::Under));
    matrix.set(3, 0, Some(Direction::LeftOf));
    for i in 0..5 {
        for j in 0..5 {
            if i != j {
                let forward = matrix.get(i, j);
                let expected = match forward {
                    Some(Direction::LeftOf) => Some(Direction::RightOf),
                    Some(Direction::RightOf) => Some(Direction::LeftOf),
                    Some(Direction::Above) => Some(Direction::Under),
                    Some(Direction::Under) => Some(Direction::Above),
                    None => None,
                };
                assert_eq!(matrix.get(j, i), expected);
            }
        }
    }
    assert_eq!(matrix.get(4, 1), Some(Direction::Above));
    assert_eq!(matrix.get(0, 3), Some(Direction::RightOf));
}

#[test]
fn setting_the_diagonal_changes_nothing() {
    let mut matrix = RelationMatrix::new(3);
    matrix.set(0, 1, Some(Direction::Above));
    matrix.set(2, 2, Some(Direction::LeftOf));
    assert_eq!(matrix.get(2, 2), None);
    assert_eq!(matrix.get(0, 1), Some(Direction::Above));
    assert_eq!(matrix.get(0, 2), None);
    assert_eq!(matrix.get(1, 2), None);
    // Outside the matrix the diagonal reads as no relation too.
    assert_eq!(matrix.get(7, 7), None);
}

#[test]
fn add_element_returns_the_new_index() {
    let mut matrix = RelationMatrix::new(2);
    matrix.set(0, 1, Some(Direction::LeftOf));
    assert_eq!(matrix.add_element(), 2);
    assert_eq!(matrix.size(), 3);
    assert_eq!(matrix.buffer_len(), 3);
    assert_eq!(matrix.get(0, 1), Some(Direction::LeftOf));
    assert_eq!(matrix.get(0, 2), None);
    assert_eq!(matrix.get(2, 1), None);
    let mut empty: RelationMatrix<Direction> = RelationMatrix::new(0);
    assert_eq!(empty.add_element(), 0);
    assert_eq!(empty.add_element(), 1);
    assert_eq!(empty.buffer_len(), 1);
}

#[test]
fn remove_then_add_keeps_the_other_relations() {
    let mut matrix = RelationMatrix::new(5);
    matrix.set(0, 1, Some(Direction::LeftOf));
    matrix.set(1, 2, Some(Direction::Under));
    matrix.set(0, 4, Some(Direction::Above));
    matrix.set(3, 4, Some(Direction::RightOf));
    matrix.set(2, 4, Some(Direction::LeftOf));
    let original = matrix.clone();
    let k = 2;
    matrix.remove_element(k);
    assert_eq!(matrix.add_element(), 4);
    assert_eq!(matrix.size(), original.size());
    for i in 0..5 {
        for j in 0..5 {
            if i != k && j != k {
                let ni = if i > k { i - 1 } else { i };
                let nj = if j > k { j - 1 } else { j };
                assert_eq!(matrix.get(ni, nj), original.get(i, j));
            }
        }
    }
    for j in 0..5 {
        assert_eq!(matrix.get(4, j), None);
        assert_eq!(matrix.get(j, 4), None);
    }
}

#[test]
fn remove_first_and_last_element() {
    let mut matrix = RelationMatrix::new(3);
    matrix.set(0, 1, Some(Direction::LeftOf));
    matrix.set(1, 2, Some(Direction::Under));
    let mut without_first = matrix.clone();
    without_first.remove_element(0);
    assert_eq!(without_first.size(), 2);
    assert_eq!(without_first.get(0, 1), Some(Direction::Under));
    matrix.remove_element(2);
    assert_eq!(matrix.size(), 2);
    assert_eq!(matrix.get(0, 1), Some(Direction::LeftOf));
    matrix.remove_element(0);
    matrix.remove_element(0);
    assert_eq!(matrix.size(), 0);
    assert_eq!(matrix.buffer_len(), 0);
}

#[test]
fn cycles_are_connected_and_disjoint_edges_are_not() {
    for n in 2..7usize {
        let mut cycle = RelationMatrix::new(n);
        for i in 0..n {
            cycle.set(i, (i + 1) % n, Some(Direction::LeftOf));
        }
        assert!(cycle.is_single_connected_component());
    }
    let mut disjoint = RelationMatrix::new(4);
    disjoint.set(0, 1, Some(Direction::LeftOf));
    disjoint.set(2, 3, Some(Direction::LeftOf));
    assert!(!disjoint.is_single_connected_component());
}
