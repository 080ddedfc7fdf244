use bit_set::BitSet;
use concept_explorer::context::Context;
use concept_explorer::exploration::{Exploration, Phase};
use concept_explorer::import::import_context;
use concept_explorer::listing::{concept_lines, implication_lines};

const LIVING_BEINGS: &str = "B\n\n8\n9\n\nfish leech\nbream\nfrog\ndog\nwater weeds\nreed\nbean\ncorn\nneeds water to live\nlives in water\nlives on land\nneeds chlorophyll\ndicotyledon\nmonocotyledon\ncan move\nhas limbs\nbreast feeds\nXX....X..\nXX....XX.\nXXX...XX.\nX.X...XXX\nXX.X.X...\nXXXX.X...\nX.XXX....\nX.XX.X...\n";

fn living_beings() -> Context {
    import_context(LIVING_BEINGS.as_bytes()).unwrap()
}

fn set(members: &[usize]) -> BitSet {
    members.iter().copied().collect()
}

#[test]
fn living_beings_has_nineteen_concepts() {
    let context = living_beings();
    let concepts = context.concepts();
    assert_eq!(concepts.len(), 19);
    assert_eq!(concepts[0], (set(&[0, 1, 2, 3, 4, 5, 6, 7]), set(&[0])));
    assert_eq!(concepts[18], (set(&[]), set(&[0, 1, 2, 3, 4, 5, 6, 7, 8])));
    assert_eq!(concept_lines(&context).len(), 19);
}

#[test]
fn concepts_are_put_in_lectic_order() {
    let context = living_beings();
    let found: Vec<(BitSet, BitSet)> = context.engine().index_fcbo_concepts().collect();
    let in_order: Vec<(BitSet, BitSet)> = context.engine().index_next_closure_concepts().collect();
    let concepts = context.concepts();
    assert_ne!(found, in_order);
    assert_eq!(concepts, in_order);
}

#[test]
fn every_concept_is_closed() {
    let context = living_beings();
    for (extent, intent) in context.concepts() {
        assert_eq!(context.closure(&intent), intent);
        for object in 0..context.object_count() {
            let has_all = intent.iter().all(|attribute| context.has_cross(object, attribute));
            assert_eq!(extent.contains(object), has_all);
        }
    }
}

#[test]
fn the_closure_never_loses_an_attribute() {
    let context = living_beings();
    for bits in 0u32..512 {
        let chosen: BitSet = (0..9).filter(|index| bits & (1 << index) != 0).collect();
        let hull = context.closure(&chosen);
        assert!(chosen.is_subset(&hull));
        assert_eq!(context.closure(&hull), hull);
        assert!(hull.iter().all(|attribute| attribute < 9));
    }
}

#[test]
fn living_beings_has_ten_implications() {
    let context = living_beings();
    let basis = context.canonical_basis();
    assert_eq!(basis.len(), 10);
    assert_eq!(basis[0], (set(&[]), set(&[0])));
    let lines = implication_lines(&context);
    assert_eq!(lines.len(), 10);
    assert_eq!(lines[0].0, "1:   { },");
    assert_eq!(lines[0].1, "      { needs water to live }");
    assert!(lines[9].0.starts_with("10: { "));
}

#[test]
fn confirming_every_question_yields_the_canonical_basis() {
    let context = living_beings();
    let mut session = Exploration::new();
    let mut result = session.start(&context);
    let mut rounds = 0;
    while result == Ok(Phase::AwaitingConfirmation) {
        result = session.confirm(&context);
        rounds += 1;
        assert!(rounds <= 512);
    }
    assert_eq!(result, Ok(Phase::Finished));
    let basis = context.canonical_basis();
    assert_eq!(session.confirmed_count(), basis.len());
    for (index, entry) in basis.iter().enumerate() {
        let marks = session.confirmed_marks(index, 9);
        let premise: BitSet = (0..9).filter(|i| marks.0[*i]).collect();
        let closure: BitSet = (0..9).filter(|i| marks.1[*i]).collect();
        assert_eq!(premise, entry.0);
        assert_eq!(closure, entry.1);
    }
}
