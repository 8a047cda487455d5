use ndrank::elem::Elem;
use ndrank::finite::{CountAxisExt, CountExt, FillInPlaceExt};
use ndrank::grid::Grid;
use ndrank::pairwise::{PairwiseExt, PairwiseInplaceExt};
use ndrank::rank::RankMethod;
use ndrank::ranking::{RankAxisExt, RankExt};

fn fin(v: i64) -> Elem {
    Elem::Finite(v)
}

fn gi(shape: Vec<usize>, vals: Vec<i64>) -> Grid<Elem> {
    let data: Vec<Elem> = vals.into_iter().map(Elem::Finite).collect();
    Grid::from_shape_vec(shape, data).unwrap()
}

fn ge(shape: Vec<usize>, data: Vec<Elem>) -> Grid<Elem> {
    Grid::from_shape_vec(shape, data).unwrap()
}

#[test]
fn count_and_fill() {
    let mut vals = ge(vec![4], vec![fin(1), fin(2), Elem::Nan, fin(3)]);
    assert_eq!(3, vals.count_finite());
    assert_eq!(1, vals.count_non_finite());
    vals.fill_non_finite_inplace(fin(42));
    assert_eq!(vals.data, vec![fin(1), fin(2), fin(42), fin(3)]);
    assert_eq!(4, vals.count_finite());
    assert_eq!(0, vals.count_non_finite());
}

#[test]
fn count_matrix() {
    let vals = ge(
        vec![2, 4],
        vec![
            fin(1),
            fin(2),
            Elem::Nan,
            fin(3),
            Elem::Nan,
            fin(4),
            fin(5),
            Elem::Nan,
        ],
    );
    assert_eq!(5, vals.count_finite());
    assert_eq!(vec![3, 2], vals.count_finite_axis(0).data);
    assert_eq!(vec![1, 2], vals.count_non_finite_axis(0).data);
    assert_eq!(vec![1, 2, 1, 1], vals.count_finite_axis(1).data);
    assert_eq!(vec![1, 0, 1, 1], vals.count_non_finite_axis(1).data);
}

#[test]
fn pairwise() {
    let lhs = gi(vec![3], vec![1, 2, 3]);
    let rhs = gi(vec![3], vec![-1, 2, 5]);

    assert_eq!(lhs.maximum_with(&rhs).data, vec![fin(1), fin(2), fin(5)]);
    assert_eq!(lhs.minimum_with(&rhs).data, vec![fin(-1), fin(2), fin(3)]);
}

#[test]
fn inplace() {
    let mut lhs = gi(vec![3], vec![1, 2, 3]);
    let rhs = gi(vec![3], vec![-1, 2, 5]);

    lhs.maximum_with_inplace(&rhs);
    assert_eq!(lhs.data, vec![fin(1), fin(2), fin(5)]);

    lhs.minimum_with_inplace(&rhs);
    assert_eq!(lhs.data, vec![fin(-1), fin(2), fin(5)]);
}

#[test]
fn rank_vector_no_ties() {
    let arr = gi(vec![4], vec![4, 3, 2, 1]);
    let ranks = arr.rank(RankMethod::Minimum);
    assert_eq!(ranks.data, vec![4, 3, 2, 1]);
    assert_eq!(ranks.shape, vec![4]);
}

#[test]
fn rank_vector_missing_values() {
    let arr = ge(vec![4], vec![fin(4), fin(3), Elem::Nan, fin(1)]);
    let ranks = arr.rank(RankMethod::Minimum);
    assert_eq!(ranks.data, vec![3, 2, 0, 1]);
}

#[test]
fn rank_vector_ties_minimum() {
    let arr = gi(vec![4], vec![4, 2, 2, 1]);
    let ranks = arr.rank(RankMethod::Minimum);
    assert_eq!(ranks.data, vec![4, 2, 2, 1]);
}

#[test]
fn rank_vector_ties_maximum() {
    let arr = gi(vec![4], vec![4, 2, 2, 1]);
    let ranks = arr.rank(RankMethod::Maximum);
    assert_eq!(ranks.data, vec![4, 3, 3, 1]);
}

#[test]
fn rank_vector_ties_average() {
    let arr = gi(vec![4], vec![4, 1, 1, 1]);
    let ranks = arr.rank(RankMethod::Average);
    assert_eq!(ranks.data, vec![4, 2, 2, 2]);
}

#[test]
fn rank_matrix_full() {
    let arr = gi(vec![2, 3], vec![6, 5, 4, 3, 2, 1]);
    let ranks = arr.rank(RankMethod::Minimum);
    assert_eq!(ranks.data, vec![6, 5, 4, 3, 2, 1]);
    assert_eq!(ranks.shape, vec![2, 3]);
}

#[test]
fn rank_matrix_rows() {
    let arr = gi(vec![2, 3], vec![6, 5, 4, 3, 2, 1]);
    let ranks = arr.rank_axis(0, RankMethod::Minimum);
    assert_eq!(ranks.data, vec![3, 2, 1, 3, 2, 1]);
}

#[test]
fn rank_matrix_cols() {
    let arr = gi(vec![2, 3], vec![6, 5, 4, 3, 2, 1]);
    let ranks = arr.rank_axis(1, RankMethod::Minimum);
    assert_eq!(ranks.data, vec![2, 2, 2, 1, 1, 1]);
}

#[test]
fn discretize_matrix_full() {
    let arr = gi(vec![2, 3], vec![6, 5, 4, 3, 2, 1]);
    let ranks = arr.discretize(RankMethod::Minimum, 3);
    assert_eq!(ranks.data, vec![3, 3, 2, 2, 1, 1]);
}

#[test]
fn discretize_matrix_rows() {
    let arr = gi(vec![2, 3], vec![6, 5, 4, 3, 2, 1]);
    let ranks = arr.discretize_axis(0, RankMethod::Minimum, 2);
    assert_eq!(ranks.data, vec![2, 1, 1, 2, 1, 1]);
}

#[test]
fn discretize_matrix_cols() {
    let arr = gi(vec![2, 3], vec![6, 5, 4, 3, 2, 1]);
    let ranks = arr.discretize_axis(1, RankMethod::Minimum, 2);
    assert_eq!(ranks.data, vec![2, 2, 2, 1, 1, 1]);
}

#[test]
fn discretize_matrix_with_missing_values() {
    let arr = ge(
        vec![2, 3],
        vec![fin(6), fin(5), Elem::Nan, fin(3), Elem::Nan, fin(1)],
    );
    let ranks = arr.discretize(RankMethod::Minimum, 2);
    assert_eq!(ranks.data, vec![2, 2, 0, 1, 0, 1]);
}

#[test]
fn rank_ties_average_floor() {
    let arr = gi(vec![4], vec![4, 2, 2, 1]);
    let ranks = arr.rank(RankMethod::Average);
    assert_eq!(ranks.data, vec![4, 2, 2, 1]);
}

#[test]
fn count_with_infinities() {
    let vals = ge(
        vec![4],
        vec![Elem::NegInf, fin(1), Elem::PosInf, Elem::Nan],
    );
    assert_eq!(1, vals.count_finite());
    assert_eq!(3, vals.count_non_finite());
    assert_eq!(4, vals.count_finite() + vals.count_non_finite());
}

#[test]
fn rank_with_infinities() {
    let arr = ge(
        vec![4],
        vec![Elem::PosInf, fin(1), Elem::NegInf, Elem::Nan],
    );
    let ranks = arr.rank(RankMethod::Minimum);
    assert_eq!(ranks.data, vec![3, 2, 1, 0]);
}

#[test]
fn fill_twice_same_as_once() {
    let mut once = ge(vec![3], vec![fin(1), Elem::PosInf, Elem::Nan]);
    once.fill_non_finite_inplace(fin(7));
    let mut twice = ge(vec![3], vec![fin(1), Elem::PosInf, Elem::Nan]);
    twice.fill_non_finite_inplace(fin(7));
    twice.fill_non_finite_inplace(fin(7));
    assert_eq!(once.data, twice.data);
    assert_eq!(once.data, vec![fin(1), fin(7), fin(7)]);
}

#[test]
fn fill_with_non_finite_replacement() {
    let mut vals = ge(vec![2], vec![fin(1), Elem::PosInf]);
    vals.fill_non_finite_inplace(Elem::Nan);
    assert_eq!(vals.data, vec![fin(1), Elem::Nan]);
    assert_eq!(1, vals.count_non_finite());
}

#[test]
fn pairwise_with_nan() {
    let lhs = ge(vec![2], vec![Elem::Nan, fin(1)]);
    let rhs = ge(vec![2], vec![fin(5), Elem::Nan]);
    assert_eq!(lhs.maximum_with(&rhs).data, vec![Elem::Nan, fin(1)]);
    assert_eq!(lhs.minimum_with(&rhs).data, vec![Elem::Nan, fin(1)]);
}

#[test]
fn discretize_fewer_ranks_than_buckets() {
    let arr = gi(vec![2], vec![10, 20]);
    let out = arr.discretize(RankMethod::Minimum, 5);
    assert_eq!(out.data, vec![1, 2]);
}

#[test]
fn discretize_remainder_front_loaded() {
    let arr = gi(vec![5], vec![10, 20, 30, 40, 50]);
    let out = arr.discretize(RankMethod::Minimum, 3);
    assert_eq!(out.data, vec![1, 1, 2, 2, 3]);
}

#[test]
fn discretize_all_missing() {
    let arr = ge(vec![2], vec![Elem::Nan, Elem::Nan]);
    let out = arr.discretize(RankMethod::Minimum, 3);
    assert_eq!(out.data, vec![0, 0]);
}

#[test]
fn empty_axis_counts() {
    let vals = ge(vec![0], vec![]);
    assert_eq!(0, vals.count_finite());
    assert_eq!(0, vals.count_non_finite());
    let ranks = vals.rank(RankMethod::Minimum);
    assert_eq!(ranks.data, Vec::<usize>::new());
}

#[test]
fn rank_axis_with_empty_slices() {
    let arr = gi(vec![2, 0], vec![]);
    let ranks = arr.rank_axis(0, RankMethod::Minimum);
    assert_eq!(ranks.shape, vec![2, 0]);
    assert_eq!(ranks.data, Vec::<usize>::new());
}

#[test]
fn rank_cube_last_axis() {
    let arr = gi(vec![2, 2, 2], vec![10, 20, 30, 40, 50, 60, 70, 80]);
    let ranks = arr.rank_axis(2, RankMethod::Minimum);
    assert_eq!(ranks.data, vec![1, 1, 2, 2, 3, 3, 4, 4]);
}

#[test]
fn rank_axis_zero_extent_axis() {
    let arr = gi(vec![0, 3], vec![]);
    let ranks = arr.rank_axis(0, RankMethod::Minimum);
    assert_eq!(ranks.shape, vec![0, 3]);
    assert!(ranks.data.is_empty());
}

#[test]
fn discretize_axis_with_missing_values() {
    let arr = ge(
        vec![2, 3],
        vec![fin(6), fin(5), Elem::Nan, fin(3), Elem::Nan, fin(1)],
    );
    let out = arr.discretize_axis(0, RankMethod::Minimum, 2);
    assert_eq!(out.data, vec![2, 1, 0, 2, 0, 1]);
}

#[test]
fn from_shape_vec_rejects_mismatch() {
    let r = Grid::from_shape_vec(vec![2, 2], vec![fin(1), fin(2), fin(3)]);
    assert!(r.is_none());
}
