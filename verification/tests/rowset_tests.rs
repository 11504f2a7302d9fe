use vdb::query::{minus, sorted_unique};
use vdb::RowId;

#[test]
fn minus2() {
    let rows1 = vec![RowId(1), RowId(2), RowId(4), RowId(8), RowId(6)];
    let rows2 = vec![RowId(2), RowId(4)];
    let result = vec![RowId(1), RowId(8), RowId(6)];
    assert_eq!(minus(&rows1, &rows2), result);
}

#[test]
fn minus_of_nothing_and_of_everything() {
    let rows = vec![RowId(3), RowId(1), RowId(3)];
    assert_eq!(minus(&rows, &[]), rows);
    assert_eq!(minus(&rows, &rows), Vec::<RowId>::new());
    assert_eq!(minus(&[], &rows), Vec::<RowId>::new());
}

#[test]
fn sorted_unique_orders_and_drops_repeats() {
    let rows = vec![RowId(5), RowId(1), RowId(5), RowId(3), RowId(1)];
    assert_eq!(sorted_unique(rows), vec![RowId(1), RowId(3), RowId(5)]);
    assert_eq!(sorted_unique(vec![]), Vec::<RowId>::new());
    assert_eq!(sorted_unique(vec![RowId(0), RowId(usize::MAX)]), vec![RowId(0), RowId(usize::MAX)]);
}
