use concept_explorer::context::Context;
use concept_explorer::export::export_text;
use concept_explorer::import::{import_context, is_loadable};
use concept_explorer::model::TableModel;

fn names(list: &[&str]) -> Vec<String> {
    list.iter().map(|name| name.to_string()).collect()
}

fn crosses(context: &Context) -> Vec<(usize, usize)> {
    let mut found = Vec::new();
    for object in 0..context.object_count() {
        for attribute in 0..context.attribute_count() {
            if context.has_cross(object, attribute) {
                found.push((object, attribute));
            }
        }
    }
    found
}

#[test]
fn import_reads_names_and_crosses() {
    let read = import_context(b"B\n\n2\n2\n\ncat\ndog\nlegs\nfur\nXX\nX.\n").unwrap();
    assert_eq!(read.object_list(), names(&["cat", "dog"]));
    assert_eq!(read.attribute_list(), names(&["legs", "fur"]));
    assert_eq!(crosses(&read), vec![(0, 0), (0, 1), (1, 0)]);
}

#[test]
fn import_passes_over_the_title() {
    let read = import_context(b"B\nAnimals\n1\n1\n\ncat\nlegs\nX\n").unwrap();
    assert_eq!(read.object_list(), names(&["cat"]));
    assert_eq!(crosses(&read), vec![(0, 0)]);
}

#[test]
fn import_takes_carriage_returns_before_line_feeds() {
    let read = import_context(b"B\r\n\r\n1\r\n2\r\n\r\ng\r\nm\r\nn\r\n.X\r\n").unwrap();
    assert_eq!(read.object_list(), names(&["g"]));
    assert_eq!(read.attribute_list(), names(&["m", "n"]));
    assert_eq!(crosses(&read), vec![(0, 1)]);
}

#[test]
fn import_takes_a_plus_sign_and_leading_zeros_in_a_count() {
    let read = import_context(b"B\n\n+1\n002\n\ng\nm\nn\nXX\n").unwrap();
    assert_eq!(read.object_count(), 1);
    assert_eq!(read.attribute_count(), 2);
    assert_eq!(crosses(&read), vec![(0, 0), (0, 1)]);
}

#[test]
fn import_takes_a_small_x_for_a_cross() {
    let read = import_context(b"B\n\n1\n2\n\ng\nm\nn\n.x\n").unwrap();
    assert_eq!(crosses(&read), vec![(0, 1)]);
}

#[test]
fn import_takes_a_row_that_is_too_short() {
    let read = import_context(b"B\n\n2\n3\n\ng\nh\na\nb\nc\nX\n\n").unwrap();
    assert_eq!(crosses(&read), vec![(0, 0)]);
}

#[test]
fn import_takes_a_last_row_without_a_line_feed() {
    let read = import_context(b"B\n\n1\n1\n\ng\nm\nX").unwrap();
    assert_eq!(crosses(&read), vec![(0, 0)]);
}

#[test]
fn import_counts_characters_not_bytes_in_a_row() {
    let text = "B\n\n1\n2\n\ng\nm\nn\n\u{e9}X\n";
    assert!(is_loadable(text.as_bytes()));
    let read = import_context(text.as_bytes()).unwrap();
    assert_eq!(crosses(&read), vec![(0, 1)]);

    let narrow = "B\n\n1\n1\n\ng\nm\n\u{e9}X\n";
    assert!(!is_loadable(narrow.as_bytes()));
    assert!(import_context(narrow.as_bytes()).is_none());
}

#[test]
fn import_refuses_a_cross_beyond_the_last_attribute() {
    assert!(!is_loadable(b"B\n\n1\n1\n\ng\nm\nXX\n"));
    assert!(import_context(b"B\n\n1\n1\n\ng\nm\nXX\n").is_none());
    assert!(import_context(b"B\n\n2\n2\n\ng\nh\nm\nn\nXX\n..x\n").is_none());
    assert!(import_context(b"B\n\n1\n0\n\ng\nX\n").is_none());
    assert!(import_context(b"B\n\n1\n1\n\ng\nm\nX.\n").is_some());
}

#[test]
fn import_refuses_a_file_that_announces_more_than_it_holds() {
    assert!(!is_loadable(b"B\n\n5\n1\n\ng\nm\nX\n"));
    assert!(import_context(b"B\n\n5\n1\n\ng\nm\nX\n").is_none());
    assert!(import_context(b"B\n\n1\n5\n\ng\nm\nX\n").is_none());
    assert!(import_context(b"B\n\n2\n1\n\ng\nh\nm\nX\n").is_none());
    assert!(import_context(b"B\n\n99999999999999999999999999\n1\n\ng\nm\nX\n").is_none());
    assert!(import_context(b"B\n\n18446744073709551615\n1\n\ng\nm\nX\n").is_none());
}

#[test]
fn import_refuses_a_head_that_is_cut_short() {
    assert!(import_context(b"").is_none());
    assert!(import_context(b"B").is_none());
    assert!(import_context(b"B\n\n1\n1").is_none());
    assert!(import_context(b"B\n\n0\n0\n").is_none());
    assert!(import_context(b"B\n\n0\n0\n\n").is_some());
}

#[test]
fn import_refuses_counts_that_are_no_numbers() {
    assert!(import_context(b"B\n\none\n1\n\ng\nm\nX\n").is_none());
    assert!(import_context(b"B\n\n\n1\n\ng\nm\nX\n").is_none());
    assert!(import_context(b"B\n\n+\n1\n\ng\nm\nX\n").is_none());
    assert!(import_context(b"B\n\n-1\n1\n\ng\nm\nX\n").is_none());
    assert!(import_context(b"B\n\n1 \n1\n\ng\nm\nX\n").is_none());
    assert!(import_context(b"B\n\n1\n1.0\n\ng\nm\nX\n").is_none());
}

#[test]
fn import_leaves_the_marker_to_the_engine() {
    assert!(is_loadable(b"C\n\n1\n1\n\ng\nm\nX\n"));
    assert!(import_context(b"C\n\n1\n1\n\ng\nm\nX\n").is_none());
    assert!(import_context(b"b\n\n1\n1\n\ng\nm\nX\n").is_none());
}

#[test]
fn import_leaves_broken_text_to_the_engine() {
    let broken = b"B\n\n1\n1\n\n\xffg\nm\nX\n";
    assert!(is_loadable(broken));
    assert!(import_context(broken).is_none());
}

#[test]
fn an_exported_context_is_imported_unchanged() {
    let objects = names(&["cat", "dog", "grey heron", "\"no name\""]);
    let attributes = names(&["legs", "fur", "wings", "lays eggs", "x", "X."]);
    let marks = vec![(0, 0), (0, 1), (1, 0), (1, 1), (2, 0), (2, 2), (2, 3), (3, 5)];
    let context = Context::from_parts(&objects, &attributes, &marks).unwrap();

    let text = export_text(&context);
    let read = import_context(text.as_bytes()).unwrap();

    assert_eq!(read.object_list(), objects);
    assert_eq!(read.attribute_list(), attributes);
    assert_eq!(crosses(&read), marks);
    assert_eq!(export_text(&read), text);
}

#[test]
fn an_exported_table_is_imported_unchanged() {
    let mut model = TableModel::new();
    model.toggle_cell(0, 0);
    model.toggle_cell(3, 4);
    model.toggle_cell(4, 1);
    model.remove_object(1);
    model.add_attribute("late".to_string());
    model.toggle_cell(2, 5);
    model.rename_object(0, "first".to_string());
    model.remove_attribute(2);

    let text = export_text(model.context_ref());
    let read = import_context(text.as_bytes()).unwrap();
    assert_eq!(read.object_list(), model.context_ref().object_list());
    assert_eq!(read.attribute_list(), model.context_ref().attribute_list());
    assert_eq!(crosses(&read), crosses(model.context_ref()));

    let again = TableModel::from_context(read).unwrap();
    assert_eq!(again.row_count(), model.row_count());
    assert_eq!(again.column_count(), model.column_count());
    for row in 0..model.row_count() {
        for column in 0..model.column_count() {
            assert_eq!(again.is_checked(row, column), model.is_checked(row, column));
        }
    }
}

#[test]
fn an_empty_name_does_not_come_back_empty() {
    let context = Context::from_parts(&names(&[""]), &names(&["m"]), &vec![(0, 0)]).unwrap();
    let read = import_context(export_text(&context).as_bytes()).unwrap();
    assert_eq!(read.object_list(), names(&["\"no name\""]));
    assert_eq!(read.attribute_list(), names(&["m"]));
    assert_eq!(crosses(&read), vec![(0, 0)]);
}

#[test]
fn an_imported_context_can_be_edited() {
    let read = import_context(b"B\n\n2\n2\n\ncat\ndog\nlegs\nfur\nXX\nX.\n").unwrap();
    let mut model = TableModel::from_context(read).unwrap();
    assert!(model.is_checked(1, 0));
    assert!(!model.is_checked(1, 1));
    model.toggle_cell(1, 1);
    model.remove_object(0);
    assert_eq!(model.context_ref().object_list(), names(&["dog"]));
    assert!(model.is_checked(0, 0) && model.is_checked(0, 1));
    let mut all = bit_set::BitSet::new();
    all.insert(0);
    assert_eq!(model.context_ref().closure(&all).len(), 2);
}

#[test]
fn survey_finds_the_parts_of_a_file() {
    let layout =
        concept_explorer::import::survey(b"B\n\n2\n2\n\ncat\ndog\nlegs\nfur\nXX\nX.\n").unwrap();
    assert_eq!(layout.rows, 2);
    assert_eq!(layout.columns, 2);
    assert_eq!(layout.names, 8);
    assert_eq!(layout.attributes, 16);
    assert_eq!(layout.table, 25);
    assert!(concept_explorer::import::survey(b"B\n\n2\n2\n\ncat\n").is_none());
}

#[test]
fn import_keeps_a_carriage_return_that_no_line_feed_follows() {
    let read = import_context(b"B\n\n0\n2\n\nin\rside\nlast\r").unwrap();
    assert_eq!(read.attribute_list(), names(&["in\rside", "last\r"]));
    let read = import_context(b"B\n\n1\n1\n\ng\nm\nX\r").unwrap();
    assert_eq!(crosses(&read), vec![(0, 0)]);
}

#[test]
fn import_reads_names_in_any_script() {
    let text = "B\n\n2\n2\n\nK\u{e4}fer\n\u{9ce5}\nfl\u{fc}gge\n\u{1f426} X\n.X\nXX\n";
    let read = import_context(text.as_bytes()).unwrap();
    assert_eq!(read.object_list(), names(&["K\u{e4}fer", "\u{9ce5}"]));
    assert_eq!(read.attribute_list(), names(&["fl\u{fc}gge", "\u{1f426} X"]));
    assert_eq!(crosses(&read), vec![(0, 1), (1, 0), (1, 1)]);
    assert_eq!(export_text(&read), text);
}

#[test]
fn a_name_with_a_line_feed_does_not_come_back() {
    let context =
        Context::from_parts(&names(&["two\nlines"]), &names(&["m"]), &vec![(0, 0)]).unwrap();
    let text = export_text(&context);
    match import_context(text.as_bytes()) {
        Some(read) => assert_ne!(read.object_list(), context.object_list()),
        None => {}
    }
}
