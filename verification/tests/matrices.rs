use admission_sim::flags::{is_admitted, union};
use admission_sim::matrix::StatusMatrix;
use admission_sim::reduce::{append_vector, fold_edges, gather, make_matrix, make_matrix_any_value};

#[test]
fn matrix_merge_transpose_rows() {
    let a = StatusMatrix::from_triplets((2, 3), vec![0, 1], vec![2, 0], vec![1, 1]);
    let b = StatusMatrix::from_triplets((2, 3), vec![0, 1], vec![2, 1], vec![2, 16]);
    let m = a.merge(&b);
    assert_eq!(m.nrows(), 2);
    assert_eq!(m.ncols(), 3);
    assert_eq!(m.by_row(), vec![vec![(2, 3)], vec![(0, 1), (1, 16)]]);
    let t = m.transpose();
    assert_eq!(t.nrows(), 3);
    assert_eq!(t.ncols(), 2);
    assert_eq!(t.by_row(), vec![vec![(1, 1)], vec![(1, 16)], vec![(0, 3)]]);
    assert_eq!(t.transpose().by_row(), m.by_row());
}

#[test]
fn merging_the_same_round_twice_changes_nothing() {
    let acc = StatusMatrix::from_triplets((3, 3), vec![0, 1, 2], vec![0, 1, 2], vec![1, 3, 7]);
    let round = StatusMatrix::from_triplets((3, 3), vec![0, 2, 1], vec![0, 2, 0], vec![2, 32, 64]);
    let once = acc.merge(&round);
    let twice = once.merge(&round);
    assert_eq!(once.by_row(), vec![vec![(0, 3)], vec![(0, 64), (1, 3)], vec![(2, 39)]]);
    assert_eq!(twice.by_row(), once.by_row());
    assert_eq!(round.merge(&acc).by_row(), once.by_row());
}

#[test]
fn merge_keeps_no_entry_without_an_event() {
    let a = StatusMatrix::from_triplets((1, 2), vec![0, 0], vec![0, 1], vec![0, 4]);
    let b = StatusMatrix::from_triplets((1, 2), vec![0], vec![0], vec![0]);
    assert_eq!(a.by_row(), vec![vec![(0, 0), (1, 4)]]);
    assert_eq!(a.merge(&b).by_row(), vec![vec![(1, 4)]]);
}

#[test]
fn empty_matrix_has_empty_rows() {
    let m = StatusMatrix::from_triplets((2, 0), vec![], vec![], vec![]);
    assert_eq!(m.by_row(), vec![vec![], vec![]]);
    assert_eq!(m.transpose().by_row(), Vec::<Vec<(usize, u8)>>::new());
}

#[test]
fn make_matrix_stores_the_value_at_each_edge() {
    let m = make_matrix(&vec![(2, 0), (0, 1), (2, 1)], 3, 2, 16);
    assert_eq!(m.by_row(), vec![vec![(1, 16)], vec![], vec![(0, 16), (1, 16)]]);
}

#[test]
fn make_matrix_any_value_stores_each_status() {
    let m = make_matrix_any_value(&vec![(1, (0, 8)), (0, (0, 4)), (1, (2, 4))], 2, 3);
    assert_eq!(m.by_row(), vec![vec![(0, 4)], vec![(0, 8), (2, 4)]]);
}

#[test]
fn edge_order_does_not_change_the_matrix() {
    let left = vec![(1, (0, 8)), (0, (0, 4))];
    let right = vec![(1, (2, 4))];
    let one = make_matrix_any_value(&append_vector(left.clone(), right.clone()), 2, 3);
    let other = make_matrix_any_value(&append_vector(right, left), 2, 3);
    assert_eq!(one.by_row(), other.by_row());
}

#[test]
fn gather_puts_agents_in_columns() {
    let lists = vec![vec![(2, 1), (0, 1)], vec![], vec![(1, 1)]];
    let m = gather(&lists, 3);
    assert_eq!(m.nrows(), 3);
    assert_eq!(m.ncols(), 3);
    assert_eq!(m.by_row(), vec![vec![(0, 1)], vec![(2, 1)], vec![(0, 1)]]);
}

#[test]
fn fold_edges_appends_the_agents_edges() {
    let acc = fold_edges(vec![(9, (9, 9))], 4, &vec![(1, 2), (3, 4)]);
    assert_eq!(acc, vec![(9, (9, 9)), (1, (4, 2)), (3, (4, 4))]);
    assert_eq!(append_vector(vec![1, 2], vec![3]), vec![1, 2, 3]);
}

#[test]
fn status_bytes_compose_by_or() {
    assert_eq!(union(union(1, 2), 8), 11);
    assert_eq!(union(union(1, 2), 4), 7);
    assert_eq!(union(1, 16), 17);
    assert_eq!(union(7, 32), 39);
    assert_eq!(union(1, 64), 65);
    assert_eq!(union(65, 128), 193);
    assert_eq!(union(39, 39), 39);
    for status in 0..=255u8 {
        assert_eq!(is_admitted(status), [11, 17, 39, 193].contains(&status));
    }
}
