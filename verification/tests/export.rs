use concept_explorer::context::Context;
use concept_explorer::export::{decimal_text, export_text, file_name};
use odis::FormalContext;

fn names(list: &[&str]) -> Vec<String> {
    list.iter().map(|name| name.to_string()).collect()
}

#[test]
fn decimal_text_writes_numbers_without_leading_zeros() {
    assert_eq!(decimal_text(0), "0");
    assert_eq!(decimal_text(7), "7");
    assert_eq!(decimal_text(10), "10");
    assert_eq!(decimal_text(109), "109");
    assert_eq!(decimal_text(1234567890), "1234567890");
    assert_eq!(decimal_text(usize::MAX), usize::MAX.to_string());
}

#[test]
fn export_text_of_a_small_context() {
    let context = Context::from_parts(
        &names(&["cat", "dog"]),
        &names(&["legs", "fur", "wings"]),
        &vec![(0, 0), (0, 1), (1, 0)],
    )
    .unwrap();
    assert_eq!(export_text(&context), "B\n\n2\n3\n\ncat\ndog\nlegs\nfur\nwings\nXX.\nX..\n");
}

#[test]
fn export_text_writes_no_name_for_an_empty_name() {
    let context =
        Context::from_parts(&names(&["", "dog"]), &names(&["legs", ""]), &vec![(1, 1)]).unwrap();
    assert_eq!(
        export_text(&context),
        "B\n\n2\n2\n\n\"no name\"\ndog\nlegs\n\"no name\"\n..\n.X\n"
    );
}

#[test]
fn export_text_of_an_empty_context() {
    assert_eq!(export_text(&Context::new()), "B\n\n0\n0\n\n");
}

#[test]
fn export_text_of_a_wide_context_counts_in_decimal() {
    let attributes: Vec<String> = (0..12).map(|i| format!("m{}", i)).collect();
    let context = Context::from_parts(&names(&["g"]), &attributes, &vec![(0, 11)]).unwrap();
    let text = export_text(&context);
    assert!(text.starts_with("B\n\n1\n12\n\ng\nm0\nm1\n"));
    assert!(text.ends_with("m11\n...........X\n"));
}

#[test]
fn an_exported_context_is_saved_under_the_default_name() {
    let context = Context::from_parts(&names(&["cat"]), &names(&["legs"]), &vec![(0, 0)]).unwrap();
    assert_eq!(file_name(&export_text(&context)), "Formal_context.cxt");
}

#[test]
fn file_name_is_the_first_line_unless_it_is_the_marker() {
    assert_eq!(file_name("B\n\n1\n1\n"), "Formal_context.cxt");
    assert_eq!(file_name("B"), "Formal_context.cxt");
    assert_eq!(file_name("B\r\nrest"), "Formal_context.cxt");
    assert_eq!(file_name("Animals\nrest"), "Animals");
    assert_eq!(file_name("Animals\r\nrest"), "Animals");
    assert_eq!(file_name("no line feed"), "no line feed");
    assert_eq!(file_name("Bx\n"), "Bx");
    assert_eq!(file_name("b\n"), "b");
    assert_eq!(file_name("\nsecond"), "");
    assert_eq!(file_name("tail\r"), "tail\r");
}

#[test]
fn an_exported_context_reads_back_the_same() {
    let objects = names(&["cat", "dog", "grey heron"]);
    let attributes = names(&["legs", "fur", "wings", "lays eggs"]);
    let crosses = vec![(0, 0), (0, 1), (1, 0), (1, 1), (2, 0), (2, 2), (2, 3)];
    let context = Context::from_parts(&objects, &attributes, &crosses).unwrap();

    let text = export_text(&context);
    let read = FormalContext::<String>::from(text.as_bytes()).unwrap();

    assert_eq!(read.objects, objects);
    assert_eq!(read.attributes, attributes);
    let mut found: Vec<(usize, usize)> = read.incidence.iter().copied().collect();
    found.sort();
    assert_eq!(found, crosses);

    let found_names = read.objects.clone();
    let found_attributes = read.attributes.clone();
    let again = Context::from_parts(&found_names, &found_attributes, &found).unwrap();
    assert_eq!(export_text(&again), text);
}

#[test]
fn an_edited_table_reads_back_the_same() {
    let mut model = concept_explorer::model::TableModel::new();
    model.toggle_cell(0, 0);
    model.toggle_cell(3, 4);
    model.toggle_cell(4, 1);
    model.remove_object(1);
    model.add_attribute("late".to_string());
    model.toggle_cell(2, 5);
    model.rename_object(0, "first".to_string());

    let text = export_text(model.context_ref());
    let read = FormalContext::<String>::from(text.as_bytes()).unwrap();
    assert_eq!(read.objects, model.context_ref().object_list());
    assert_eq!(read.attributes, model.context_ref().attribute_list());
    for row in 0..model.row_count() {
        for column in 0..model.column_count() {
            assert_eq!(read.incidence.contains(&(row, column)), model.is_checked(row, column));
        }
    }
    assert_eq!(read.incidence.len(), 4);
}
