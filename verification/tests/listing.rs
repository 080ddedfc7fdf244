use bit_set::BitSet;
use concept_explorer::context::Context;
use concept_explorer::listing::{
    backdrop_text, braced_text, concept_lines, head_line, implication_lines, joined_text, listing,
    picked_names, tail_line,
};

fn names(list: &[&str]) -> Vec<String> {
    list.iter().map(|name| name.to_string()).collect()
}

fn set(members: &[usize]) -> BitSet {
    members.iter().copied().collect()
}

fn lines(list: &[(&str, &str)]) -> Vec<(String, String)> {
    list.iter().map(|pair| (pair.0.to_string(), pair.1.to_string())).collect()
}

#[test]
fn braced_text_names_the_members() {
    let all = names(&["a", "b", "c"]);
    assert_eq!(braced_text(&all, &set(&[0, 2])), "{ a , c }");
    assert_eq!(braced_text(&all, &set(&[1])), "{ b }");
    assert_eq!(braced_text(&all, &set(&[0, 1, 2])), "{ a , b , c }");
    assert_eq!(braced_text(&all, &set(&[])), "{ }");
    assert_eq!(braced_text(&names(&[]), &set(&[])), "{ }");
}

#[test]
fn braced_text_passes_over_members_without_a_name() {
    let all = names(&["a", "b"]);
    assert_eq!(braced_text(&all, &set(&[1, 5])), "{ b }");
    assert_eq!(braced_text(&all, &set(&[9])), "{ }");
}

#[test]
fn braced_text_keeps_an_empty_name() {
    let all = names(&["a", ""]);
    assert_eq!(braced_text(&all, &set(&[0, 1])), "{ a ,  }");
    assert_eq!(braced_text(&all, &set(&[1])), "{  }");
}

#[test]
fn head_line_numbers_from_one_and_narrows_the_gap_at_ten() {
    assert_eq!(head_line(0, "{ a }"), "1:   { a },");
    assert_eq!(head_line(8, "{ a }"), "9:   { a },");
    assert_eq!(head_line(9, "{ a }"), "10: { a },");
    assert_eq!(head_line(99, ""), "100: ,");
}

#[test]
fn tail_line_indents_by_six_blanks() {
    assert_eq!(tail_line("{ x }"), "      { x }");
    assert_eq!(tail_line(""), "      ");
}

#[test]
fn listing_gives_two_lines_per_pair() {
    let objects = names(&["g0", "g1"]);
    let attributes = names(&["m0", "m1", "m2"]);
    let pairs = vec![(set(&[0, 1]), set(&[])), (set(&[1]), set(&[0, 2]))];
    assert_eq!(
        listing(&objects, &attributes, &pairs),
        lines(&[
            ("1:   { g0 , g1 },", "      { }"),
            ("2:   { g1 },", "      { m0 , m2 }"),
        ])
    );
    assert!(listing(&objects, &attributes, &Vec::new()).is_empty());
}

#[test]
fn concept_lines_of_a_small_context() {
    let context = Context::from_parts(
        &names(&["g0", "g1"]),
        &names(&["m0", "m1"]),
        &vec![(0, 0), (1, 1)],
    )
    .unwrap();
    assert_eq!(
        concept_lines(&context),
        lines(&[
            ("1:   { g0 , g1 },", "      { }"),
            ("2:   { g1 },", "      { m1 }"),
            ("3:   { g0 },", "      { m0 }"),
            ("4:   { },", "      { m0 , m1 }"),
        ])
    );
}

#[test]
fn implication_lines_of_a_small_context() {
    let context = Context::from_parts(
        &names(&["g0", "g1", "g2"]),
        &names(&["m0", "m1", "m2"]),
        &vec![(0, 0), (0, 2), (1, 1), (2, 0), (2, 1), (2, 2)],
    )
    .unwrap();
    assert_eq!(
        implication_lines(&context),
        lines(&[
            ("1:   { m2 },", "      { m0 , m2 }"),
            ("2:   { m0 },", "      { m0 , m2 }"),
        ])
    );
}

#[test]
fn joined_text_puts_one_blank_between_labels() {
    assert_eq!(joined_text(&names(&["a", "b c", "d"])), "a b c d");
    assert_eq!(joined_text(&names(&["alone"])), "alone");
    assert_eq!(joined_text(&names(&[])), "");
    assert_eq!(joined_text(&names(&["", ""])), " ");
}

#[test]
fn backdrop_text_is_as_wide_as_the_joined_labels_in_bytes() {
    assert_eq!(backdrop_text(&names(&["ab", "c"])), "NNNN");
    assert_eq!(backdrop_text(&names(&["alone"])), "NNNNN");
    assert_eq!(backdrop_text(&names(&[])), "");
    assert_eq!(backdrop_text(&names(&["\u{e9}", "x"])), "NNNN");
    assert_eq!(backdrop_text(&names(&["", ""])), "N");
}

#[test]
fn picked_names_follow_the_marks() {
    let all = names(&["a", "b", "c"]);
    assert_eq!(picked_names(&all, &vec![true, false, true]), names(&["a", "c"]));
    assert_eq!(picked_names(&all, &vec![false, false, false]), names(&[]));
    assert_eq!(picked_names(&all, &vec![false, true]), names(&["b"]));
    assert_eq!(picked_names(&all, &vec![true, true, true, true]), names(&["a", "b", "c"]));
}
