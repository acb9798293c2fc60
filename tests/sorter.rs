use std::sync::Arc;

use arrow::array::{ArrayRef, Float64Array, StringArray};
use arrow::compute::kernels::rank::rank;
use arrow::compute::SortOptions;
use column_sorter::ranking::SortResult;
use column_sorter::schema::{permissive_types, FieldType};
use column_sorter::sorter::{SortOrder, Sorter, SorterStatus};

/// The rank of each value: the number of values at or below it, as arrow's
/// `rank` gives it.
fn max_ranks(values: &[i64]) -> Vec<u32> {
    values
        .iter()
        .map(|v| values.iter().filter(|w| *w <= v).count() as u32)
        .collect()
}

fn finished(values: &[i64]) -> Sorter {
    let mut s = Sorter::new(0, "A1".to_string());
    assert!(s.checkpoint());
    s.publish(Ok(max_ranks(values)));
    assert_eq!(s.status(), SorterStatus::Finished);
    s
}

fn tie_dataset() -> Vec<i64> {
    (0..1500)
        .map(|i| if [0, 9, 99, 999, 1000].contains(&i) { 0 } else { i + 10 })
        .collect()
}

#[test]
fn test_simple() {
    let s = finished(&tie_dataset());
    assert!(s.is_done());
    let rows = s.get_sorted_indices(0, 5).unwrap();
    let expected = vec![0, 9, 99, 999, 1000];
    assert_eq!(rows, expected);
}

#[test]
fn sorted_then_rest_in_order() {
    let s = finished(&tie_dataset());
    let rows = s.get_sorted_indices(5, 3).unwrap();
    assert_eq!(rows, vec![1, 2, 3]);
}

#[test]
fn record_orders_invert_sorted_indices() {
    let values = vec![5, 3, 9, 3, 1, 7, 5, 0];
    let s = finished(&values);
    let n = values.len() as u64;
    let sorted = s.get_sorted_indices(0, n).unwrap();
    assert_eq!(sorted, vec![7, 4, 1, 3, 0, 6, 5, 2]);
    for i in 0..n {
        let r = s.get_record_order(i).unwrap();
        assert_eq!(sorted[r as usize], i);
    }
    for (r, i) in sorted.iter().enumerate() {
        assert_eq!(s.get_record_order(*i), Some(r as u64));
    }
}

#[test]
fn values_in_rank_order_do_not_decrease() {
    let values = vec![4, -2, 8, 8, 0, -2, 15, 3];
    let s = finished(&values);
    let sorted = s.get_sorted_indices(0, values.len() as u64).unwrap();
    for w in sorted.windows(2) {
        let (a, b) = (values[w[0] as usize], values[w[1] as usize]);
        assert!(a <= b);
        if a == b {
            assert!(w[0] < w[1]);
        }
    }
}

#[test]
fn windows_are_clipped() {
    let s = finished(&[3, 1, 2]);
    assert_eq!(s.get_sorted_indices(0, 3).unwrap(), vec![1, 2, 0]);
    assert_eq!(s.get_sorted_indices(1, 10).unwrap(), vec![2, 0]);
    assert_eq!(s.get_sorted_indices(2, 1).unwrap(), vec![0]);
    assert_eq!(s.get_sorted_indices(0, 0).unwrap(), Vec::<u64>::new());
    assert_eq!(s.get_sorted_indices(3, 5).unwrap(), Vec::<u64>::new());
    assert_eq!(s.get_sorted_indices(100, 5).unwrap(), Vec::<u64>::new());
    assert_eq!(s.get_sorted_indices(1, u64::MAX).unwrap(), vec![2, 0]);
    assert_eq!(s.get_sorted_indices(u64::MAX, u64::MAX).unwrap(), Vec::<u64>::new());
}

#[test]
fn record_order_of_missing_row_is_none() {
    let s = finished(&[3, 1, 2]);
    assert_eq!(s.get_record_order(0), Some(2));
    assert_eq!(s.get_record_order(3), None);
    assert_eq!(s.get_record_order(u64::MAX), None);
}

#[test]
fn empty_column_finishes_empty() {
    let s = finished(&[]);
    assert_eq!(s.get_sorted_indices(0, 10).unwrap(), Vec::<u64>::new());
    assert_eq!(s.get_record_order(0), None);
}

#[test]
fn running_job_answers_none() {
    let s = Sorter::new(2, "price".to_string());
    assert_eq!(s.status(), SorterStatus::Running);
    assert!(!s.is_done());
    assert_eq!(s.get_sorted_indices(0, 5), None);
    assert_eq!(s.get_record_order(0), None);
}

#[test]
fn accessors() {
    let s = Sorter::new(2, "price".to_string());
    assert_eq!(s.column_index, 2);
    assert_eq!(s.column_index(), 2);
    assert_eq!(s.column_name(), "price");
    assert!(matches!(s.order(), SortOrder::Ascending));
}

#[test]
fn terminal_status_is_kept() {
    let mut s = finished(&[2, 1]);
    s.publish(Err("late failure".to_string()));
    assert_eq!(s.status(), SorterStatus::Finished);
    s.terminate();
    assert!(!s.checkpoint());
    assert_eq!(s.status(), SorterStatus::Finished);
    assert_eq!(s.get_sorted_indices(0, 2).unwrap(), vec![1, 0]);

    let mut e = Sorter::new(0, "A1".to_string());
    e.publish(Err("cannot open".to_string()));
    assert_eq!(e.status(), SorterStatus::Error("cannot open".to_string()));
    e.publish(Ok(vec![1]));
    assert_eq!(e.status(), SorterStatus::Error("cannot open".to_string()));
    assert_eq!(e.get_sorted_indices(0, 1), None);
}

#[test]
fn terminate_right_after_new() {
    let mut s = Sorter::new(0, "A1".to_string());
    s.terminate();
    s.terminate();
    assert_eq!(s.status(), SorterStatus::Running);
    assert!(!s.checkpoint());
    assert_eq!(s.status(), SorterStatus::Error("Terminated".to_string()));
    assert!(s.is_done());
    s.publish(Ok(vec![1, 2]));
    assert_eq!(s.status(), SorterStatus::Error("Terminated".to_string()));
    assert_eq!(s.get_sorted_indices(0, 2), None);
    assert_eq!(s.get_record_order(0), None);
}

#[test]
fn terminate_after_last_checkpoint_still_finishes() {
    let mut s = Sorter::new(0, "A1".to_string());
    assert!(s.checkpoint());
    s.terminate();
    s.publish(Ok(vec![2, 1]));
    assert_eq!(s.status(), SorterStatus::Finished);
    assert_eq!(s.get_sorted_indices(0, 2).unwrap(), vec![1, 0]);
}

#[test]
fn failure_message_is_kept() {
    let mut s = Sorter::new(0, "A1".to_string());
    s.publish(Err("parse error at line 4".to_string()));
    assert_eq!(s.status(), SorterStatus::Error("parse error at line 4".to_string()));
    assert!(s.is_done());
}

#[test]
fn ranks_past_the_row_count_are_refused() {
    assert!(SortResult::from_ranks(&vec![1, 3]).is_none());
    let mut s = Sorter::new(0, "A1".to_string());
    s.publish(Ok(vec![1, 3]));
    assert_eq!(s.status(), SorterStatus::Error("Invalid ranks".to_string()));
    assert_eq!(s.get_sorted_indices(0, 2), None);
}

#[test]
fn from_ranks_builds_both_directions() {
    let r = SortResult::from_ranks(&vec![3, 3, 1]).unwrap();
    assert_eq!(r.len(), 3);
    assert_eq!((r.index_at(0), r.index_at(1), r.index_at(2)), (2, 0, 1));
    assert_eq!((r.order_at(0), r.order_at(1), r.order_at(2)), (1, 2, 0));
    let zero = SortResult::from_ranks(&vec![0, 0]).unwrap();
    assert_eq!((zero.index_at(0), zero.index_at(1)), (0, 1));
}

fn arrow_ranks(column: ArrayRef) -> Vec<u32> {
    let options = SortOptions { descending: false, nulls_first: false };
    rank(column.as_ref(), Some(options)).unwrap()
}

#[test]
fn arrow_float_ranks_sort_nulls_last() {
    let column: ArrayRef = Arc::new(Float64Array::from(vec![
        Some(2.5),
        None,
        Some(-1.0),
        Some(2.5),
        Some(0.0),
    ]));
    let mut s = Sorter::new(0, "x".to_string());
    s.publish(Ok(arrow_ranks(column)));
    assert_eq!(s.get_sorted_indices(0, 5).unwrap(), vec![2, 4, 0, 3, 1]);
}

#[test]
fn arrow_string_ranks() {
    let column: ArrayRef = Arc::new(StringArray::from(vec!["pear", "apple", "fig", "apple"]));
    let mut s = Sorter::new(0, "fruit".to_string());
    s.publish(Ok(arrow_ranks(column)));
    assert_eq!(s.get_sorted_indices(0, 4).unwrap(), vec![1, 3, 2, 0]);
    assert_eq!(s.get_record_order(0), Some(3));
}

#[test]
fn integer_fields_widen_to_float() {
    let types = vec![FieldType::Integer, FieldType::Other, FieldType::Float64, FieldType::Integer];
    assert_eq!(
        permissive_types(&types),
        vec![FieldType::Float64, FieldType::Other, FieldType::Float64, FieldType::Float64]
    );
    assert_eq!(permissive_types(&vec![]), Vec::<FieldType>::new());
}

#[test]
fn status_clones() {
    let s = SorterStatus::Error("x".to_string());
    assert_eq!(s.clone(), s);
}
