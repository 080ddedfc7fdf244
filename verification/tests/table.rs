use concept_explorer::table::{cell_key, Table};

fn grid(table: &Table) -> Vec<Vec<bool>> {
    (0..table.row_data.len())
        .map(|row| (0..table.column_data.len()).map(|column| table.checked(row, column)).collect())
        .collect()
}

fn two_by_three() -> Table {
    let mut table = Table::new();
    table.push_row(10);
    table.push_row(11);
    table.push_column(20);
    table.push_column(21);
    table.push_column(22);
    table.set(0, 0, true);
    table.set(0, 2, true);
    table.set(1, 1, true);
    table
}

#[test]
fn cell_key_puts_the_row_above_the_column() {
    assert_eq!(cell_key(0, 0), 0);
    assert_eq!(cell_key(0, 5), 5);
    assert_eq!(cell_key(1, 0), 1u128 << 64);
    assert_eq!(cell_key(3, 4), (3u128 << 64) + 4);
    assert_eq!(cell_key(usize::MAX, usize::MAX), ((usize::MAX as u128) << 64) + usize::MAX as u128);
}

#[test]
fn a_new_table_is_empty() {
    let table = Table::new();
    assert!(table.row_data.is_empty());
    assert!(table.column_data.is_empty());
    assert!(table.boxes.is_empty());
}

#[test]
fn pushed_rows_and_columns_come_with_clear_boxes() {
    let mut table = Table::new();
    table.push_row(7);
    assert!(table.boxes.is_empty());
    table.push_column(3);
    table.push_column(9);
    table.push_row(8);
    assert_eq!(table.row_data, vec![(7, 0), (8, 1)]);
    assert_eq!(table.column_data, vec![(3, 0), (9, 1)]);
    assert_eq!(table.boxes.len(), 4);
    assert_eq!(grid(&table), vec![vec![false, false], vec![false, false]]);
}

#[test]
fn set_changes_one_box() {
    let table = two_by_three();
    assert_eq!(grid(&table), vec![vec![true, false, true], vec![false, true, false]]);
    let mut table = table;
    table.set(0, 0, false);
    table.set(1, 1, true);
    assert_eq!(grid(&table), vec![vec![false, false, true], vec![false, true, false]]);
}

#[test]
fn remove_row_drops_its_boxes_and_moves_the_rest_up() {
    let mut table = two_by_three();
    table.push_row(12);
    table.set(2, 0, true);
    table.remove_row(0);
    assert_eq!(table.row_data, vec![(11, 0), (12, 1)]);
    assert_eq!(table.column_data, vec![(20, 0), (21, 1), (22, 2)]);
    assert_eq!(table.boxes.len(), 6);
    assert_eq!(grid(&table), vec![vec![false, true, false], vec![true, false, false]]);
}

#[test]
fn remove_column_drops_its_boxes_and_moves_the_rest_left() {
    let mut table = two_by_three();
    table.remove_column(1);
    assert_eq!(table.column_data, vec![(20, 0), (22, 1)]);
    assert_eq!(table.row_data, vec![(10, 0), (11, 1)]);
    assert_eq!(table.boxes.len(), 4);
    assert_eq!(grid(&table), vec![vec![true, true], vec![false, false]]);
}

#[test]
fn a_table_can_lose_all_its_rows() {
    let mut table = two_by_three();
    table.remove_row(1);
    table.remove_row(0);
    assert!(table.row_data.is_empty());
    assert!(table.boxes.is_empty());
    assert_eq!(table.column_data.len(), 3);
}
