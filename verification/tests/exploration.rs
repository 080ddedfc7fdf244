use concept_explorer::context::Context;
use concept_explorer::exploration::{Exploration, ExplorationError, Phase};
use concept_explorer::model::TableModel;

fn names(list: &[&str]) -> Vec<String> {
    list.iter().map(|name| name.to_string()).collect()
}

/// Attributes by position: c = 0, b = 1, a = 2. The closed sets of this
/// context are {}, {b}, {c}, {a, c}, {b, c} and {a, b, c}.
fn abc_model() -> TableModel {
    let objects = names(&["only b", "only c", "a and c", "b and c"]);
    let attributes = names(&["c", "b", "a"]);
    let crosses = vec![(0, 1), (1, 0), (2, 2), (2, 0), (3, 1), (3, 0)];
    let context = Context::from_parts(&objects, &attributes, &crosses).unwrap();
    TableModel::from_context(context).unwrap()
}

#[test]
fn exploration_finishes_after_confirming_a_implies_c() {
    let model = abc_model();
    let mut session = Exploration::new();
    assert_eq!(session.current_phase(), Phase::Idle);

    let first = session.start(model.context_ref());
    assert_eq!(first, Ok(Phase::AwaitingConfirmation));
    assert_eq!(session.premise_marks(3), vec![false, false, true]);
    assert_eq!(session.proposed_marks(3), vec![true, false, false]);

    let second = session.confirm(model.context_ref());
    assert_eq!(second, Ok(Phase::Finished));
    assert_eq!(session.current_phase(), Phase::Finished);
    assert_eq!(session.confirmed_count(), 1);
    assert_eq!(session.premise_marks(3), vec![true, true, true]);

    assert_eq!(session.exit(), Ok(Phase::Idle));
    assert_eq!(session.confirmed_count(), 0);
    assert_eq!(session.premise_marks(3), vec![false, false, false]);
}

#[test]
fn events_outside_their_phase_change_nothing() {
    let model = abc_model();
    let mut session = Exploration::new();
    assert_eq!(session.confirm(model.context_ref()), Err(ExplorationError::WrongPhase));
    assert_eq!(session.reject(model.context_ref()), Err(ExplorationError::WrongPhase));
    assert_eq!(session.stop(), Err(ExplorationError::WrongPhase));
    assert_eq!(session.exit(), Err(ExplorationError::WrongPhase));
    assert!(!session.set_mark(0, true));
    assert_eq!(session.current_phase(), Phase::Idle);
}

/// Attributes 0, 1, 2. Object g0 has all three, g1 has 1 only, g2 has none.
/// The first premise with a larger closure is {2}, whose closure is {0, 1, 2}.
fn steep_model() -> TableModel {
    let objects = names(&["g0", "g1", "g2"]);
    let attributes = names(&["m0", "m1", "m2"]);
    let crosses = vec![(0, 0), (0, 1), (0, 2), (1, 1)];
    let context = Context::from_parts(&objects, &attributes, &crosses).unwrap();
    TableModel::from_context(context).unwrap()
}

fn asked_at_two(model: &TableModel) -> Exploration {
    let mut session = Exploration::new();
    assert_eq!(session.start(model.context_ref()), Ok(Phase::AwaitingConfirmation));
    assert_eq!(session.premise_marks(3), vec![false, false, true]);
    assert_eq!(session.proposed_marks(3), vec![true, true, false]);
    session
}

#[test]
fn the_question_names_premise_and_conclusion() {
    let model = steep_model();
    let session = asked_at_two(&model);
    assert_eq!(session.premise_names(model.context_ref()), names(&["m2"]));
    assert_eq!(session.proposed_names(model.context_ref()), names(&["m0", "m1"]));
    assert!(session.suits(3));
    assert!(!session.suits(2));
}

#[test]
fn start_on_a_waiting_session_is_refused() {
    let model = steep_model();
    let mut session = asked_at_two(&model);
    assert_eq!(session.start(model.context_ref()), Err(ExplorationError::WrongPhase));
    assert_eq!(session.current_phase(), Phase::AwaitingConfirmation);
    assert_eq!(session.premise_marks(3), vec![false, false, true]);
}

#[test]
fn reject_opens_the_form_with_the_premise_checked() {
    let model = steep_model();
    let mut session = asked_at_two(&model);
    assert_eq!(session.reject(model.context_ref()), Ok(Phase::AwaitingCounterexample));
    assert_eq!(session.current_phase(), Phase::AwaitingCounterexample);
    assert_eq!(session.form_marks(), &vec![false, false, true]);
    assert_eq!(session.premise_marks(3), vec![false, false, true]);
    assert_eq!(session.confirmed_count(), 0);
    assert!(session.suits(3));
}

#[test]
fn set_mark_changes_one_mark_of_the_open_form() {
    let model = steep_model();
    let mut session = asked_at_two(&model);
    assert!(!session.set_mark(0, true));
    session.reject(model.context_ref()).unwrap();
    assert!(session.set_mark(0, true));
    assert!(session.set_mark(2, false));
    assert!(!session.set_mark(3, true));
    assert_eq!(session.form_marks(), &vec![true, false, false]);
}

#[test]
fn stop_clears_the_session() {
    let model = abc_model();
    let mut session = Exploration::new();
    session.start(model.context_ref()).unwrap();
    assert_eq!(session.confirm(model.context_ref()), Ok(Phase::Finished));
    assert_eq!(session.stop(), Err(ExplorationError::WrongPhase));

    let model = steep_model();
    let mut session = asked_at_two(&model);
    assert_eq!(session.stop(), Ok(Phase::Idle));
    assert_eq!(session.current_phase(), Phase::Idle);
    assert_eq!(session.confirmed_count(), 0);
    assert_eq!(session.premise_marks(3), vec![false, false, false]);
    assert_eq!(session.proposed_marks(3), vec![false, false, false]);
    assert!(session.form_marks().is_empty());
    assert_eq!(session.start(model.context_ref()), Ok(Phase::AwaitingConfirmation));
}

#[test]
fn confirmed_implications_are_kept_in_order() {
    let model = steep_model();
    let mut session = asked_at_two(&model);
    assert_eq!(session.confirm(model.context_ref()), Ok(Phase::AwaitingConfirmation));
    assert_eq!(session.confirmed_count(), 1);
    assert_eq!(
        session.confirmed_marks(0, 3),
        (vec![false, false, true], vec![true, true, true])
    );
    assert_eq!(session.premise_marks(3), vec![true, false, false]);
    assert_eq!(session.proposed_marks(3), vec![false, true, true]);
    assert_eq!(session.confirm(model.context_ref()), Ok(Phase::Finished));
    assert_eq!(session.confirmed_count(), 2);
    assert_eq!(
        session.confirmed_marks(1, 3),
        (vec![true, false, false], vec![true, true, true])
    );
}

#[test]
fn a_counterexample_with_the_premise_alone_closes_the_premise() {
    let mut model = steep_model();
    let mut session = asked_at_two(&model);
    session.reject(model.context_ref()).unwrap();
    let result = session.submit(&mut model, "counter".to_string());

    assert_eq!(model.row_count(), 4);
    assert_eq!(model.table_ref().row_data, vec![(0, 0), (1, 1), (2, 2), (3, 3)]);
    assert_eq!(model.context_ref().object_name(3), "counter");
    assert!(!model.is_checked(3, 0));
    assert!(!model.is_checked(3, 1));
    assert!(model.is_checked(3, 2));
    assert!(model.context_ref().has_cross(3, 2));
    assert!(!model.context_ref().has_cross(3, 0));

    let mut two = bit_set::BitSet::new();
    two.insert(2);
    assert_eq!(model.context_ref().closure(&two), two);

    assert_eq!(result, Ok(Phase::AwaitingConfirmation));
    assert_eq!(session.premise_marks(3), vec![false, true, true]);
    assert_eq!(session.proposed_marks(3), vec![true, false, false]);
    assert_eq!(session.confirmed_count(), 0);
}

#[test]
fn a_counterexample_that_lacks_an_attribute_takes_it_out_of_the_closure() {
    let mut model = steep_model();
    let mut session = asked_at_two(&model);
    session.reject(model.context_ref()).unwrap();
    assert!(session.set_mark(1, true));
    let result = session.submit(&mut model, "counter".to_string());

    assert!(!model.is_checked(3, 0));
    assert!(model.is_checked(3, 1));
    assert!(model.is_checked(3, 2));

    assert_eq!(result, Ok(Phase::AwaitingConfirmation));
    assert_eq!(session.premise_marks(3), vec![false, false, true]);
    assert_eq!(session.proposed_marks(3), vec![false, true, false]);
}

#[test]
fn an_object_with_the_whole_closure_refutes_nothing() {
    let mut model = steep_model();
    let mut session = asked_at_two(&model);
    session.reject(model.context_ref()).unwrap();
    assert!(session.set_mark(0, true));
    assert!(session.set_mark(1, true));
    let result = session.submit(&mut model, "no counterexample".to_string());

    assert_eq!(model.row_count(), 4);
    assert!(model.is_checked(3, 0) && model.is_checked(3, 1) && model.is_checked(3, 2));
    assert_eq!(result, Ok(Phase::AwaitingConfirmation));
    assert_eq!(session.premise_marks(3), vec![false, false, true]);
    assert_eq!(session.proposed_marks(3), vec![true, true, false]);
}

#[test]
fn submit_outside_its_phase_adds_nothing() {
    let mut model = steep_model();
    let mut session = asked_at_two(&model);
    let result = session.submit(&mut model, "early".to_string());
    assert_eq!(result, Err(ExplorationError::WrongPhase));
    assert_eq!(model.row_count(), 3);
    assert_eq!(session.current_phase(), Phase::AwaitingConfirmation);
}

#[test]
fn a_context_without_open_implications_finishes_at_once() {
    let objects = names(&["g0", "g1", "g2"]);
    let attributes = names(&["m0", "m1"]);
    let crosses = vec![(0, 0), (1, 1)];
    let context = Context::from_parts(&objects, &attributes, &crosses).unwrap();
    let mut session = Exploration::new();
    assert_eq!(session.start(&context), Ok(Phase::Finished));
    assert_eq!(session.confirmed_count(), 0);
    assert_eq!(session.premise_marks(2), vec![true, true]);
    assert_eq!(session.proposed_marks(2), vec![false, false]);
}

#[test]
fn take_next_refuses_what_is_not_a_step_up() {
    let model = steep_model();
    let mut session = asked_at_two(&model);

    let mut same = bit_set::BitSet::new();
    same.insert(2);
    assert!(!session.take_next(3, same));

    let below = bit_set::BitSet::new();
    assert!(!session.take_next(3, below));

    let mut outside = bit_set::BitSet::new();
    outside.insert(1);
    outside.insert(3);
    assert!(!session.take_next(3, outside));
    assert_eq!(session.premise_marks(4), vec![false, false, true, false]);

    let mut above = bit_set::BitSet::new();
    above.insert(1);
    assert!(session.take_next(3, above));
    assert_eq!(session.premise_marks(3), vec![false, true, false]);
    assert_eq!(session.current_phase(), Phase::AwaitingConfirmation);
}
