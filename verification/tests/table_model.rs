use concept_explorer::context::Context;
use concept_explorer::model::TableModel;

fn names(list: &[&str]) -> Vec<String> {
    list.iter().map(|name| name.to_string()).collect()
}

/// Three objects, three attributes, crosses on and above the diagonal.
fn triangle() -> TableModel {
    let objects = names(&["g0", "g1", "g2"]);
    let attributes = names(&["m0", "m1", "m2"]);
    let crosses = vec![(0, 0), (0, 1), (0, 2), (1, 1), (1, 2), (2, 2)];
    let context = Context::from_parts(&objects, &attributes, &crosses).unwrap();
    TableModel::from_context(context).unwrap()
}

fn assert_synchronized(model: &TableModel) {
    let rows = model.row_count();
    let columns = model.column_count();
    assert_eq!(rows, model.context_ref().object_count());
    assert_eq!(columns, model.context_ref().attribute_count());
    assert_eq!(model.table_ref().boxes.len(), rows * columns);
    for row in 0..rows {
        for column in 0..columns {
            assert_eq!(
                model.is_checked(row, column),
                model.context_ref().has_cross(row, column),
                "cell ({}, {})",
                row,
                column
            );
        }
    }
}

fn assert_contiguous(entries: &[(usize, usize)]) {
    for (index, entry) in entries.iter().enumerate() {
        assert_eq!(entry.1, index);
    }
}

fn keys(entries: &[(usize, usize)]) -> Vec<usize> {
    entries.iter().map(|entry| entry.0).collect()
}

fn grid(model: &TableModel) -> Vec<Vec<bool>> {
    (0..model.row_count())
        .map(|row| (0..model.column_count()).map(|column| model.is_checked(row, column)).collect())
        .collect()
}

#[test]
fn fresh_table_has_five_by_five_blank_cells() {
    let model = TableModel::new();
    assert_eq!(model.row_count(), 5);
    assert_eq!(model.column_count(), 5);
    assert_eq!(model.table_ref().row_data, vec![(0, 0), (1, 1), (2, 2), (3, 3), (4, 4)]);
    assert_eq!(model.table_ref().column_data, vec![(0, 0), (1, 1), (2, 2), (3, 3), (4, 4)]);
    assert_eq!(model.context_ref().object_name(0), "Object 0");
    assert_eq!(model.context_ref().object_name(4), "Object 4");
    assert_eq!(model.context_ref().attribute_name(2), "Attribute 2");
    assert_eq!(model.focused(), (0, 0));
    assert_eq!(grid(&model), vec![vec![false; 5]; 5]);
    assert_synchronized(&model);
}

#[test]
fn model_of_a_context_shows_its_crosses() {
    let model = triangle();
    assert_eq!(
        grid(&model),
        vec![
            vec![true, true, true],
            vec![false, true, true],
            vec![false, false, true],
        ]
    );
    assert_eq!(model.table_ref().row_data, vec![(0, 0), (1, 1), (2, 2)]);
    assert_synchronized(&model);
}

#[test]
fn no_model_without_objects_or_attributes() {
    let none: Vec<(usize, usize)> = Vec::new();
    let no_objects = Context::from_parts(&names(&[]), &names(&["m"]), &none).unwrap();
    assert!(TableModel::from_context(no_objects).is_none());
    let no_attributes = Context::from_parts(&names(&["g"]), &names(&[]), &none).unwrap();
    assert!(TableModel::from_context(no_attributes).is_none());
    assert!(TableModel::from_context(Context::new()).is_none());
}

#[test]
fn add_object_appends_a_blank_row_with_a_fresh_key() {
    let mut model = triangle();
    assert!(model.can_add_object());
    model.add_object("g3".to_string());
    assert_eq!(model.table_ref().row_data, vec![(0, 0), (1, 1), (2, 2), (3, 3)]);
    assert_eq!(model.table_ref().column_data, vec![(0, 0), (1, 1), (2, 2)]);
    assert_eq!(model.context_ref().object_name(3), "g3");
    assert_eq!(
        grid(&model),
        vec![
            vec![true, true, true],
            vec![false, true, true],
            vec![false, false, true],
            vec![false, false, false],
        ]
    );
    assert_synchronized(&model);
}

#[test]
fn add_attribute_appends_a_blank_column_with_a_fresh_key() {
    let mut model = triangle();
    assert!(model.can_add_attribute());
    model.add_attribute("m3".to_string());
    assert_eq!(model.table_ref().column_data, vec![(0, 0), (1, 1), (2, 2), (3, 3)]);
    assert_eq!(model.table_ref().row_data, vec![(0, 0), (1, 1), (2, 2)]);
    assert_eq!(model.context_ref().attribute_name(3), "m3");
    assert_eq!(
        grid(&model),
        vec![
            vec![true, true, true, false],
            vec![false, true, true, false],
            vec![false, false, true, false],
        ]
    );
    assert_synchronized(&model);
}

#[test]
fn equal_names_are_allowed() {
    let mut model = triangle();
    model.add_object("g0".to_string());
    model.add_attribute("m0".to_string());
    assert_eq!(model.context_ref().object_name(0), "g0");
    assert_eq!(model.context_ref().object_name(3), "g0");
    assert_eq!(model.context_ref().attribute_name(3), "m0");
    assert_synchronized(&model);
}

#[test]
fn toggle_cell_flips_box_and_cross_together() {
    let mut model = triangle();
    assert!(!model.is_checked(1, 0));
    assert!(model.toggle_cell(1, 0));
    assert!(model.is_checked(1, 0));
    assert!(model.context_ref().has_cross(1, 0));
    assert!(!model.toggle_cell(1, 0));
    assert!(!model.is_checked(1, 0));
    assert!(!model.context_ref().has_cross(1, 0));
    assert!(!model.toggle_cell(0, 0));
    assert!(!model.context_ref().has_cross(0, 0));
    assert_synchronized(&model);
}

#[test]
fn remove_object_moves_later_rows_up_and_keeps_their_keys() {
    let mut model = triangle();
    model.remove_object(1);
    assert_eq!(model.table_ref().row_data, vec![(0, 0), (2, 1)]);
    assert_eq!(model.table_ref().column_data, vec![(0, 0), (1, 1), (2, 2)]);
    assert_eq!(model.context_ref().object_list(), names(&["g0", "g2"]));
    assert_eq!(grid(&model), vec![vec![true, true, true], vec![false, false, true]]);
    assert_contiguous(&model.table_ref().row_data);
    assert_synchronized(&model);
}

#[test]
fn remove_first_object_shifts_every_row() {
    let mut model = triangle();
    model.remove_object(0);
    assert_eq!(model.table_ref().row_data, vec![(1, 0), (2, 1)]);
    assert_eq!(model.context_ref().object_list(), names(&["g1", "g2"]));
    assert_eq!(grid(&model), vec![vec![false, true, true], vec![false, false, true]]);
    assert_synchronized(&model);
}

#[test]
fn remove_last_object_touches_no_other_row() {
    let mut model = triangle();
    model.remove_object(2);
    assert_eq!(model.table_ref().row_data, vec![(0, 0), (1, 1)]);
    assert_eq!(grid(&model), vec![vec![true, true, true], vec![false, true, true]]);
    assert_synchronized(&model);
}

#[test]
fn remove_attribute_moves_later_columns_left_and_keeps_their_keys() {
    let mut model = triangle();
    model.remove_attribute(1);
    assert_eq!(model.table_ref().column_data, vec![(0, 0), (2, 1)]);
    assert_eq!(model.table_ref().row_data, vec![(0, 0), (1, 1), (2, 2)]);
    assert_eq!(model.context_ref().attribute_list(), names(&["m0", "m2"]));
    assert_eq!(
        grid(&model),
        vec![vec![true, true], vec![false, true], vec![false, true]]
    );
    assert_contiguous(&model.table_ref().column_data);
    assert_synchronized(&model);
}

#[test]
fn the_only_object_cannot_be_removed() {
    let context = Context::from_parts(&names(&["g"]), &names(&["m", "n"]), &vec![(0, 1)]).unwrap();
    let mut model = TableModel::from_context(context).unwrap();
    model.remove_object(0);
    assert_eq!(model.row_count(), 1);
    assert_eq!(model.table_ref().row_data, vec![(0, 0)]);
    assert_eq!(model.context_ref().object_list(), names(&["g"]));
    assert_eq!(grid(&model), vec![vec![false, true]]);
    assert_synchronized(&model);
}

#[test]
fn the_only_attribute_cannot_be_removed() {
    let context = Context::from_parts(&names(&["g", "h"]), &names(&["m"]), &vec![(1, 0)]).unwrap();
    let mut model = TableModel::from_context(context).unwrap();
    model.remove_attribute(0);
    assert_eq!(model.column_count(), 1);
    assert_eq!(model.table_ref().column_data, vec![(0, 0)]);
    assert_eq!(model.context_ref().attribute_list(), names(&["m"]));
    assert_eq!(grid(&model), vec![vec![false], vec![true]]);
    assert_synchronized(&model);
}

#[test]
fn removing_down_to_one_row_stops_there() {
    let mut model = triangle();
    model.remove_object(0);
    model.remove_object(0);
    assert_eq!(model.table_ref().row_data, vec![(2, 0)]);
    model.remove_object(0);
    assert_eq!(model.table_ref().row_data, vec![(2, 0)]);
    assert_eq!(grid(&model), vec![vec![false, false, true]]);
    assert_synchronized(&model);
}

#[test]
fn a_key_is_never_handed_out_twice() {
    let mut model = triangle();
    model.remove_object(2);
    model.add_object("again".to_string());
    assert_eq!(model.table_ref().row_data, vec![(0, 0), (1, 1), (3, 2)]);
    model.remove_attribute(0);
    model.add_attribute("again".to_string());
    assert_eq!(model.table_ref().column_data, vec![(1, 0), (2, 1), (3, 2)]);
    let mut seen = keys(&model.table_ref().row_data);
    seen.sort();
    seen.dedup();
    assert_eq!(seen.len(), model.row_count());
    assert_synchronized(&model);
}

#[test]
fn focus_on_or_after_a_removed_row_goes_to_the_last_row() {
    let mut model = triangle();
    model.set_focus(1, 2);
    assert_eq!(model.focused(), (1, 2));
    model.remove_object(2);
    assert_eq!(model.focused(), (1, 2));

    let mut model = triangle();
    model.set_focus(2, 1);
    model.remove_object(2);
    assert_eq!(model.focused(), (1, 1));

    let mut model = triangle();
    model.set_focus(0, 0);
    model.remove_object(0);
    assert_eq!(model.focused(), (1, 0));
}

#[test]
fn focus_on_or_after_a_removed_column_goes_to_the_last_column() {
    let mut model = triangle();
    model.set_focus(2, 0);
    model.remove_attribute(1);
    assert_eq!(model.focused(), (2, 0));

    let mut model = triangle();
    model.set_focus(2, 2);
    model.remove_attribute(0);
    assert_eq!(model.focused(), (2, 1));
}

#[test]
fn a_refused_removal_leaves_the_focus_alone() {
    let context = Context::from_parts(&names(&["g"]), &names(&["m", "n"]), &vec![]).unwrap();
    let mut model = TableModel::from_context(context).unwrap();
    model.set_focus(0, 1);
    model.remove_object(0);
    assert_eq!(model.focused(), (0, 1));
}

#[test]
fn rename_changes_the_name_only() {
    let mut model = triangle();
    let before = grid(&model);
    model.rename_object(1, "renamed".to_string());
    model.rename_attribute(2, "".to_string());
    assert_eq!(model.context_ref().object_list(), names(&["g0", "renamed", "g2"]));
    assert_eq!(model.context_ref().attribute_list(), names(&["m0", "m1", ""]));
    assert_eq!(model.table_ref().row_data, vec![(0, 0), (1, 1), (2, 2)]);
    assert_eq!(model.table_ref().column_data, vec![(0, 0), (1, 1), (2, 2)]);
    assert_eq!(grid(&model), before);
    assert_synchronized(&model);
}

#[test]
fn table_and_context_agree_after_every_edit() {
    let mut model = TableModel::new();
    let mut state: u64 = 0x2545_f491_4f6c_dd1d;
    for _ in 0..400 {
        state ^= state << 13;
        state ^= state >> 7;
        state ^= state << 17;
        let pick = (state >> 8) as usize;
        let rows = model.row_count();
        let columns = model.column_count();
        match pick % 6 {
            0 => {
                if rows < 8 {
                    model.add_object(format!("g{}", pick % 97));
                }
            }
            1 => {
                if columns < 8 {
                    model.add_attribute(format!("m{}", pick % 89));
                }
            }
            2 => model.remove_object((pick / 6) % rows),
            3 => model.remove_attribute((pick / 6) % columns),
            _ => {
                model.toggle_cell((pick / 6) % rows, (pick / 48) % columns);
            }
        }
        assert!(model.row_count() >= 1);
        assert!(model.column_count() >= 1);
        assert_contiguous(&model.table_ref().row_data);
        assert_contiguous(&model.table_ref().column_data);
        assert!(model.focused().0 < model.row_count());
        assert!(model.focused().1 < model.column_count());
        assert_synchronized(&model);
    }
}

/// The attributes shared by all rows that have every attribute of `chosen`,
/// read off the check boxes.
fn closure_by_hand(model: &TableModel, chosen: &[usize]) -> Vec<usize> {
    let rows: Vec<usize> = (0..model.row_count())
        .filter(|row| chosen.iter().all(|column| model.is_checked(*row, *column)))
        .collect();
    (0..model.column_count())
        .filter(|column| rows.iter().all(|row| model.is_checked(*row, *column)))
        .collect()
}

#[test]
fn the_closure_follows_every_edit() {
    let mut model = TableModel::new();
    let mut state: u64 = 0x9e37_79b9_7f4a_7c15;
    for round in 0..300 {
        state ^= state << 13;
        state ^= state >> 7;
        state ^= state << 17;
        let pick = (state >> 8) as usize;
        let rows = model.row_count();
        let columns = model.column_count();
        match pick % 9 {
            0 => {
                if rows < 7 {
                    model.add_object(format!("g{}", round));
                }
            }
            1 => {
                if columns < 7 {
                    model.add_attribute(format!("m{}", round));
                }
            }
            2 => model.remove_object((pick / 9) % rows),
            3 => model.remove_attribute((pick / 9) % columns),
            _ => {
                model.toggle_cell((pick / 9) % rows, (pick / 81) % columns);
            }
        }
        let columns = model.column_count();
        let chosen: Vec<usize> =
            (0..columns).filter(|column| (pick >> (20 + column)) & 1 == 1).collect();
        let asked: bit_set::BitSet = chosen.iter().copied().collect();
        let hull: Vec<usize> = model.context_ref().closure(&asked).iter().collect();
        assert_eq!(hull, closure_by_hand(&model, &chosen), "round {}", round);
    }
}
