//! Attribute exploration as a state machine.
//!
//! The session walks through candidate premises in lectic order. For each
//! one it asks the context for the closure. Where the closure adds nothing,
//! it moves on by itself; where it adds attributes, it stops and waits for
//! the user to confirm the implication or to refute it by a new object.
//! Each event is one call; the call returns when the session waits again,
//! has finished, or cannot go on.

use crate::attribute_set::{
    below, copy_of, empty_set, fits, is_full, marked, members, pattern_of, same_members,
};
use crate::closure::{
    closure_extensive, closure_kept, closure_loses, closure_of_exact_match, closure_of_full,
    row_of,
};
use crate::context::{texts, Context};
use crate::engine::implications;
use crate::lectic::{lectic_less, precedes, rank_grows, room_above};
use crate::listing::{picked, picked_names};
use crate::model::TableModel;
use bit_set::BitSet;
use vstd::prelude::*;

verus! {

/// Where a session stands.
#[derive(Clone, Copy, Debug, PartialEq, Eq, Structural)]
pub enum Phase {
    /// No question is open. A session that has not begun, or that was
    /// stopped or left, is idle and cleared.
    Idle,
    /// The session proposes the implication from the premise to the rest of
    /// its closure and waits for the verdict.
    AwaitingConfirmation,
    /// The implication was rejected; the session waits for the object that
    /// refutes it.
    AwaitingCounterexample,
    /// Every candidate has been dealt with.
    Finished,
}

/// Why an event changed nothing, or why the session cannot go on.
#[derive(Clone, Copy, Debug, PartialEq, Eq, Structural)]
pub enum ExplorationError {
    /// The event does not belong to the phase that the session is in.
    WrongPhase,
    /// The engine proposed a next premise that is not above the current one
    /// in lectic order, or that names an attribute that does not exist.
    NoProgress,
}

/// How the walk from one premise ends.
pub enum Halt {
    /// At a premise whose closure is larger: a question for the user.
    Ask,
    /// At the full attribute set.
    Done,
    /// At a premise from which the engine does not lead upwards.
    Stuck,
}

/// `next` may follow `premise`: it names existing attributes only and lies
/// above `premise` in lectic order.
pub open spec fn advances(n: nat, premise: Set<usize>, next: Set<usize>) -> bool {
    next.subset_of(below(n)) && lectic_less(n, premise, next)
}

/// The walk that starts at `premise`: the premise at which it ends, and how.
///
/// At the full set it is done. At a premise with a larger closure it asks,
/// unless `skip` says that this premise has just been confirmed. Otherwise
/// it takes the engine's next premise and goes on from there, or is stuck if
/// that would not be a step up.
pub open spec fn settle(
    context: Context,
    basis: Seq<(Set<usize>, Set<usize>)>,
    premise: Set<usize>,
    skip: bool,
) -> (Set<usize>, Halt)
    decreases room_above(context.attributes().len(), premise),
    via settle_ends
{
    let n = context.attributes().len();
    if premise == below(n) {
        (premise, Halt::Done)
    } else if context.closure_of(premise) != premise && !skip {
        (premise, Halt::Ask)
    } else {
        let next = context.next_premise_of(basis, premise);
        if advances(n, premise, next) {
            settle(context, basis, next, false)
        } else {
            (premise, Halt::Stuck)
        }
    }
}

#[via_fn]
proof fn settle_ends(
    context: Context,
    basis: Seq<(Set<usize>, Set<usize>)>,
    premise: Set<usize>,
    skip: bool,
) {
    let n = context.attributes().len();
    let next = context.next_premise_of(basis, premise);
    if advances(n, premise, next) {
        rank_grows(n, premise, next);
    }
}

/// Where a walk ends: inside the attribute range, if it began there; done
/// exactly at the full attribute set; and with a question only at a premise
/// to which the closure adds something.
pub proof fn walk_ends_well(
    context: Context,
    basis: Seq<(Set<usize>, Set<usize>)>,
    premise: Set<usize>,
    skip: bool,
)
    requires
        premise.subset_of(below(context.attributes().len())),
    ensures
        settle(context, basis, premise, skip).0.subset_of(below(context.attributes().len())),
        settle(context, basis, premise, skip).1 is Done <==> settle(
            context,
            basis,
            premise,
            skip,
        ).0 == below(context.attributes().len()),
        settle(context, basis, premise, skip).1 is Ask ==> {
            let last = settle(context, basis, premise, skip).0;
            last.subset_of(context.closure_of(last)) && last != context.closure_of(last)
        },
    decreases room_above(context.attributes().len(), premise),
{
    let n = context.attributes().len();
    if premise == below(n) {
    } else if context.closure_of(premise) != premise && !skip {
        closure_extensive(context.incidence(), context.objects().len(), n, premise);
    } else {
        let next = context.next_premise_of(basis, premise);
        if advances(n, premise, next) {
            rank_grows(n, premise, next);
            walk_ends_well(context, basis, next, false);
        }
    }
}

/// An object that has every attribute of the closure of `premise` does not
/// change that closure when it joins the context: the implication is
/// proposed again as it was.
pub proof fn unrefuted_implication_stays(
    before: Context,
    after: Context,
    shape: Set<usize>,
    premise: Set<usize>,
)
    requires
        before.wf(),
        before.objects().len() < usize::MAX,
        after.objects().len() == before.objects().len() + 1,
        after.attributes().len() == before.attributes().len(),
        after.incidence() == before.incidence().union(
            row_of(before.objects().len() as usize, shape),
        ),
        before.closure_of(premise).subset_of(shape),
    ensures
        after.closure_of(premise) == before.closure_of(premise),
{
    closure_kept(
        before.incidence(),
        before.objects().len(),
        before.attributes().len(),
        shape,
        premise,
    );
}

/// An object that has every attribute of `premise` and lacks `attribute`
/// takes `attribute` out of the closure of `premise` when it joins the
/// context.
pub proof fn counterexample_takes_out(
    before: Context,
    after: Context,
    shape: Set<usize>,
    premise: Set<usize>,
    attribute: usize,
)
    requires
        before.wf(),
        before.objects().len() < usize::MAX,
        after.objects().len() == before.objects().len() + 1,
        after.attributes().len() == before.attributes().len(),
        after.incidence() == before.incidence().union(
            row_of(before.objects().len() as usize, shape),
        ),
        premise.subset_of(shape),
        !shape.contains(attribute),
    ensures
        !after.closure_of(premise).contains(attribute),
{
    closure_loses(
        before.incidence(),
        before.objects().len(),
        before.attributes().len(),
        shape,
        premise,
        attribute,
    );
}

/// An object that has exactly the attributes of `premise` makes `premise`
/// closed when it joins the context: the walk then goes past it without a
/// question.
pub proof fn exact_counterexample_closes(
    before: Context,
    after: Context,
    premise: Set<usize>,
)
    requires
        before.wf(),
        before.objects().len() < usize::MAX,
        after.objects().len() == before.objects().len() + 1,
        after.attributes().len() == before.attributes().len(),
        after.incidence() == before.incidence().union(
            row_of(before.objects().len() as usize, premise),
        ),
        premise.subset_of(below(before.attributes().len())),
    ensures
        after.closure_of(premise) == premise,
{
    closure_of_exact_match(
        before.incidence(),
        before.objects().len(),
        before.attributes().len(),
        premise,
    );
}

/// The state of an exploration session.
pub struct Exploration {
    premise: BitSet,
    conclusion: BitSet,
    basis: Vec<(BitSet, BitSet)>,
    form: Vec<bool>,
    phase: Phase,
}

impl Exploration {
    /// The candidate premise.
    pub closed spec fn premise(&self) -> Set<usize> {
        members(self.premise)
    }

    /// The closure of the candidate premise, as last computed.
    pub closed spec fn conclusion(&self) -> Set<usize> {
        members(self.conclusion)
    }

    /// The confirmed implications (premise, closure), oldest first.
    pub closed spec fn basis(&self) -> Seq<(Set<usize>, Set<usize>)> {
        implications(self.basis@)
    }

    /// The check marks of the counterexample form, one per attribute.
    pub closed spec fn form(&self) -> Seq<bool> {
        self.form@
    }

    /// The phase.
    pub closed spec fn phase(&self) -> Phase {
        self.phase
    }

    /// Nothing is left of any session.
    pub open spec fn cleared(&self) -> bool {
        &&& self.phase() == Phase::Idle
        &&& self.premise() == Set::<usize>::empty()
        &&& self.conclusion() == Set::<usize>::empty()
        &&& self.basis() == Seq::<(Set<usize>, Set<usize>)>::empty()
        &&& self.form() == Seq::<bool>::empty()
    }

    /// The session suits a context with `n` attributes: the premise names
    /// existing attributes only, and an open counterexample form has one
    /// check mark per attribute.
    pub open spec fn wf(&self, n: nat) -> bool {
        &&& self.premise().subset_of(below(n))
        &&& self.phase() == Phase::AwaitingCounterexample ==> self.form().len() == n
    }

    /// The state after a walk from (`premise`, `skip`) under `basis`: the
    /// session is where the walk ends, with the closure of that premise as
    /// its conclusion, and `result` says how it ended. The session has
    /// finished exactly if its premise is the full attribute set, and it asks
    /// only where the closure is larger than the premise.
    pub open spec fn settled(
        &self,
        context: Context,
        basis: Seq<(Set<usize>, Set<usize>)>,
        premise: Set<usize>,
        skip: bool,
        result: Result<Phase, ExplorationError>,
    ) -> bool {
        let (last, halt) = settle(context, basis, premise, skip);
        &&& self.premise() == last
        &&& self.conclusion() == context.closure_of(last)
        &&& self.basis() == basis
        &&& self.premise().subset_of(self.conclusion())
        &&& self.phase() == Phase::Finished <==> self.premise() == below(
            context.attributes().len(),
        )
        &&& self.phase() == Phase::AwaitingConfirmation ==> self.premise() != self.conclusion()
        &&& match halt {
            Halt::Ask => self.phase() == Phase::AwaitingConfirmation && result == Ok::<
                Phase,
                ExplorationError,
            >(Phase::AwaitingConfirmation),
            Halt::Done => self.phase() == Phase::Finished && result == Ok::<
                Phase,
                ExplorationError,
            >(Phase::Finished),
            Halt::Stuck => self.phase() == Phase::Idle && result == Err::<
                Phase,
                ExplorationError,
            >(ExplorationError::NoProgress),
        }
    }

    /// A cleared, idle session.
    pub fn new() -> (session: Exploration)
        ensures
            session.cleared(),
            session.wf(0),
    {
        let session = Exploration {
            premise: empty_set(),
            conclusion: empty_set(),
            basis: Vec::new(),
            form: Vec::new(),
            phase: Phase::Idle,
        };
        proof {
            assert(session.basis() =~= Seq::<(Set<usize>, Set<usize>)>::empty());
        }
        session
    }

    /// The phase.
    pub fn current_phase(&self) -> (phase: Phase)
        ensures
            phase == self.phase(),
    {
        self.phase
    }

    /// Whether the session suits a context with `n` attributes.
    pub fn suits(&self, n: usize) -> (fit: bool)
        ensures
            fit == self.wf(n as nat),
    {
        let inside = fits(&self.premise, n);
        match self.phase {
            Phase::AwaitingCounterexample => inside && self.form.len() == n,
            _ => inside,
        }
    }

    /// One check mark per attribute: set where the attribute belongs to the
    /// candidate premise.
    pub fn premise_marks(&self, n: usize) -> (marks: Vec<bool>)
        ensures
            marks@.len() == n,
            forall|i: int| 0 <= i < n ==> marks@[i] == self.premise().contains(i as usize),
    {
        pattern_of(&self.premise, n)
    }

    /// One check mark per attribute: set where the closure adds the
    /// attribute to the candidate premise. These are the attributes that
    /// the proposed implication concludes.
    pub fn proposed_marks(&self, n: usize) -> (marks: Vec<bool>)
        ensures
            marks@.len() == n,
            forall|i: int|
                0 <= i < n ==> marks@[i] == (self.conclusion().contains(i as usize)
                    && !self.premise().contains(i as usize)),
    {
        let held = pattern_of(&self.premise, n);
        let closed = pattern_of(&self.conclusion, n);
        let mut marks: Vec<bool> = Vec::new();
        let mut i: usize = 0;
        while i < n
            invariant
                i <= n,
                held@.len() == n,
                closed@.len() == n,
                marks@.len() == i,
                forall|j: int| 0 <= j < i ==> marks@[j] == (closed@[j] && !held@[j]),
            decreases n - i,
        {
            marks.push(closed[i] && !held[i]);
            i += 1;
        }
        marks
    }

    /// The names of the attributes of the candidate premise, in the order
    /// of their positions.
    pub fn premise_names(&self, context: &Context) -> (names: Vec<String>)
        ensures
            texts(names@) == picked(
                context.attributes(),
                Seq::new(
                    context.attributes().len(),
                    |i: int| self.premise().contains(i as usize),
                ),
                context.attributes().len(),
            ),
    {
        let all = context.attribute_list();
        let marks = self.premise_marks(context.attribute_count());
        proof {
            assert(texts(all@).len() == all@.len());
            assert(marks@ =~= Seq::new(
                context.attributes().len(),
                |i: int| self.premise().contains(i as usize),
            ));
        }
        picked_names(&all, &marks)
    }

    /// The names of the attributes that the proposed implication concludes:
    /// those that the closure adds to the premise, in the order of their
    /// positions.
    pub fn proposed_names(&self, context: &Context) -> (names: Vec<String>)
        ensures
            texts(names@) == picked(
                context.attributes(),
                Seq::new(
                    context.attributes().len(),
                    |i: int|
                        self.conclusion().contains(i as usize) && !self.premise().contains(
                            i as usize,
                        ),
                ),
                context.attributes().len(),
            ),
    {
        let all = context.attribute_list();
        let marks = self.proposed_marks(context.attribute_count());
        proof {
            assert(texts(all@).len() == all@.len());
            assert(marks@ =~= Seq::new(
                context.attributes().len(),
                |i: int|
                    self.conclusion().contains(i as usize) && !self.premise().contains(i as usize),
            ));
        }
        picked_names(&all, &marks)
    }

    /// The number of confirmed implications.
    pub fn confirmed_count(&self) -> (count: usize)
        ensures
            count == self.basis().len(),
    {
        self.basis.len()
    }

    /// The check marks of premise and closure of the confirmed implication
    /// at `index`, one per attribute.
    pub fn confirmed_marks(&self, index: usize, n: usize) -> (marks: (Vec<bool>, Vec<bool>))
        requires
            index < self.basis().len(),
        ensures
            marks.0@.len() == n,
            marks.1@.len() == n,
            forall|i: int|
                0 <= i < n ==> marks.0@[i] == self.basis()[index as int].0.contains(i as usize),
            forall|i: int|
                0 <= i < n ==> marks.1@[i] == self.basis()[index as int].1.contains(i as usize),
    {
        let entry = &self.basis[index];
        (pattern_of(&entry.0, n), pattern_of(&entry.1, n))
    }

    /// The check marks of the counterexample form.
    pub fn form_marks(&self) -> (marks: &Vec<bool>)
        ensures
            marks@ == self.form(),
    {
        &self.form
    }

    /// Forgets the session.
    fn reset(&mut self)
        ensures
            final(self).cleared(),
    {
        self.premise = empty_set();
        self.conclusion = empty_set();
        self.basis = Vec::new();
        self.form = Vec::new();
        self.phase = Phase::Idle;
        proof {
            assert(self.basis() =~= Seq::<(Set<usize>, Set<usize>)>::empty());
        }
    }

    /// Takes the engine's proposal for the next premise, if it is a step
    /// up: a set of existing attributes above the current premise in lectic
    /// order. Otherwise the session keeps its premise. Returns whether the
    /// proposal was taken.
    pub fn take_next(&mut self, n: usize, next: BitSet) -> (taken: bool)
        ensures
            taken == advances(n as nat, old(self).premise(), members(next)),
            final(self).premise() == if taken {
                members(next)
            } else {
                old(self).premise()
            },
            final(self).conclusion() == old(self).conclusion(),
            final(self).basis() == old(self).basis(),
            final(self).form() == old(self).form(),
            final(self).phase() == old(self).phase(),
    {
        if fits(&next, n) && precedes(&self.premise, &next, n) {
            self.premise = next;
            true
        } else {
            false
        }
    }

    /// The walk: from the current premise to the next question, to the end,
    /// or to where the engine fails to lead on. With `skip`, the walk does
    /// not ask at the premise it starts from.
    fn run(&mut self, context: &Context, skip: bool) -> (result: Result<Phase, ExplorationError>)
        requires
            context.wf(),
            old(self).premise().subset_of(below(context.attributes().len())),
        ensures
            final(self).settled(*context, old(self).basis(), old(self).premise(), skip, result),
            final(self).form() == old(self).form(),
            final(self).premise().subset_of(below(context.attributes().len())),
    {
        let n = context.attribute_count();
        let mut pass = skip;
        let ghost goal = settle(*context, self.basis(), self.premise(), skip);
        proof {
            walk_ends_well(*context, self.basis(), self.premise(), skip);
        }
        loop
            invariant
                n == context.attributes().len(),
                context.wf(),
                self.premise().subset_of(below(n as nat)),
                self.basis() == old(self).basis(),
                self.form() == old(self).form(),
                settle(*context, self.basis(), self.premise(), pass) == goal,
                goal == settle(*context, old(self).basis(), old(self).premise(), skip),
                goal.1 is Done <==> goal.0 == below(n as nat),
                goal.1 is Ask ==> goal.0 != context.closure_of(goal.0),
            decreases room_above(n as nat, self.premise()),
        {
            if is_full(&self.premise, n) {
                self.conclusion = copy_of(&self.premise);
                self.phase = Phase::Finished;
                proof {
                    closure_of_full(
                        context.incidence(),
                        context.objects().len(),
                        context.attributes().len(),
                    );
                }
                return Ok(Phase::Finished);
            }
            let hull = context.closure(&self.premise);
            let larger = !same_members(&self.premise, &hull);
            self.conclusion = hull;
            if larger && !pass {
                self.phase = Phase::AwaitingConfirmation;
                return Ok(Phase::AwaitingConfirmation);
            }
            let next = context.next_premise(&self.basis, &self.premise);
            let ghost before = self.premise();
            pass = false;
            if !self.take_next(n, next) {
                self.phase = Phase::Idle;
                return Err(ExplorationError::NoProgress);
            }
            proof {
                rank_grows(n as nat, before, self.premise());
            }
        }
    }

    /// Begins the exploration, or does nothing if the session is not idle.
    pub fn start(&mut self, context: &Context) -> (result: Result<Phase, ExplorationError>)
        requires
            context.wf(),
            old(self).wf(context.attributes().len()),
        ensures
            final(self).wf(context.attributes().len()),
            old(self).phase() != Phase::Idle ==> *final(self) == *old(self) && result == Err::<
                Phase,
                ExplorationError,
            >(ExplorationError::WrongPhase),
            old(self).phase() == Phase::Idle ==> final(self).settled(
                *context,
                old(self).basis(),
                old(self).premise(),
                false,
                result,
            ) && final(self).form() == old(self).form(),
    {
        match self.phase {
            Phase::Idle => self.run(context, false),
            _ => Err(ExplorationError::WrongPhase),
        }
    }

    /// The user confirms the proposed implication: it joins the basis, and
    /// the walk goes on past its premise. Does nothing if no implication is
    /// proposed.
    pub fn confirm(&mut self, context: &Context) -> (result: Result<Phase, ExplorationError>)
        requires
            context.wf(),
            old(self).wf(context.attributes().len()),
        ensures
            final(self).wf(context.attributes().len()),
            old(self).phase() != Phase::AwaitingConfirmation ==> *final(self) == *old(self)
                && result == Err::<Phase, ExplorationError>(ExplorationError::WrongPhase),
            old(self).phase() == Phase::AwaitingConfirmation ==> final(self).settled(
                *context,
                old(self).basis().push((old(self).premise(), old(self).conclusion())),
                old(self).premise(),
                true,
                result,
            ) && final(self).form() == old(self).form(),
    {
        match self.phase {
            Phase::AwaitingConfirmation => {
                let entry = (copy_of(&self.premise), copy_of(&self.conclusion));
                self.basis.push(entry);
                self.phase = Phase::Idle;
                proof {
                    assert(self.basis() =~= old(self).basis().push(
                        (old(self).premise(), old(self).conclusion()),
                    ));
                }
                self.run(context, true)
            },
            _ => Err(ExplorationError::WrongPhase),
        }
    }

    /// The user rejects the proposed implication: the session opens the
    /// counterexample form, one check mark per attribute, with the
    /// attributes of the premise checked. Does nothing if no implication is
    /// proposed.
    pub fn reject(&mut self, context: &Context) -> (result: Result<Phase, ExplorationError>)
        requires
            old(self).wf(context.attributes().len()),
        ensures
            final(self).wf(context.attributes().len()),
            old(self).phase() != Phase::AwaitingConfirmation ==> *final(self) == *old(self)
                && result == Err::<Phase, ExplorationError>(ExplorationError::WrongPhase),
            old(self).phase() == Phase::AwaitingConfirmation ==> {
                &&& result == Ok::<Phase, ExplorationError>(Phase::AwaitingCounterexample)
                &&& final(self).phase() == Phase::AwaitingCounterexample
                &&& final(self).form() == Seq::new(
                    context.attributes().len(),
                    |i: int| old(self).premise().contains(i as usize),
                )
                &&& final(self).premise() == old(self).premise()
                &&& final(self).conclusion() == old(self).conclusion()
                &&& final(self).basis() == old(self).basis()
            },
    {
        match self.phase {
            Phase::AwaitingConfirmation => {
                self.form = pattern_of(&self.premise, context.attribute_count());
                self.phase = Phase::AwaitingCounterexample;
                proof {
                    assert(self.form() =~= Seq::new(
                        context.attributes().len(),
                        |i: int| old(self).premise().contains(i as usize),
                    ));
                }
                Ok(Phase::AwaitingCounterexample)
            },
            _ => Err(ExplorationError::WrongPhase),
        }
    }

    /// The user gives up at a proposed implication: the session is cleared.
    /// Does nothing if no implication is proposed.
    pub fn stop(&mut self) -> (result: Result<Phase, ExplorationError>)
        ensures
            old(self).phase() != Phase::AwaitingConfirmation ==> *final(self) == *old(self)
                && result == Err::<Phase, ExplorationError>(ExplorationError::WrongPhase),
            old(self).phase() == Phase::AwaitingConfirmation ==> final(self).cleared() && result
                == Ok::<Phase, ExplorationError>(Phase::Idle),
    {
        match self.phase {
            Phase::AwaitingConfirmation => {
                self.reset();
                Ok(Phase::Idle)
            },
            _ => Err(ExplorationError::WrongPhase),
        }
    }

    /// The user leaves a finished session: the session is cleared. Does
    /// nothing if the session has not finished.
    pub fn exit(&mut self) -> (result: Result<Phase, ExplorationError>)
        ensures
            old(self).phase() != Phase::Finished ==> *final(self) == *old(self) && result == Err::<
                Phase,
                ExplorationError,
            >(ExplorationError::WrongPhase),
            old(self).phase() == Phase::Finished ==> final(self).cleared() && result == Ok::<
                Phase,
                ExplorationError,
            >(Phase::Idle),
    {
        match self.phase {
            Phase::Finished => {
                self.reset();
                Ok(Phase::Idle)
            },
            _ => Err(ExplorationError::WrongPhase),
        }
    }

    /// The user submits the counterexample: an object with the given name
    /// is appended to the table and the context, crossed with the attributes
    /// that are checked in the form, and the walk is taken up again at the
    /// unchanged premise, whose closure is computed afresh. The session does
    /// not check that the object refutes the implication. Does nothing if no
    /// counterexample is awaited.
    pub fn submit(&mut self, model: &mut TableModel, name: String) -> (result: Result<
        Phase,
        ExplorationError,
    >)
        requires
            old(model).inv(),
            old(model).table().rows() < usize::MAX,
            old(model).next_row_key() < usize::MAX,
            old(self).wf(old(model).table().columns()),
        ensures
            final(model).inv(),
            final(self).wf(final(model).table().columns()),
            old(self).phase() != Phase::AwaitingCounterexample ==> {
                &&& *final(self) == *old(self)
                &&& *final(model) == *old(model)
                &&& result == Err::<Phase, ExplorationError>(ExplorationError::WrongPhase)
            },
            old(self).phase() == Phase::AwaitingCounterexample ==> {
                &&& final(model).table().row_data@ == old(model).table().row_data@.push(
                    (old(model).next_row_key(), old(model).table().rows() as usize),
                )
                &&& final(model).table().column_data == old(model).table().column_data
                &&& forall|r: usize, c: usize|
                    r < old(model).table().rows() && c < old(model).table().columns() ==>
                        final(model).table().cell(r, c) == old(model).table().cell(r, c)
                &&& forall|r: usize, c: usize|
                    r == old(model).table().rows() && c < old(model).table().columns() ==>
                        final(model).table().cell(r, c) == old(self).form()[c as int]
                &&& final(model).context().objects() == old(model).context().objects().push(name@)
                &&& final(model).context().attributes() == old(model).context().attributes()
                &&& final(model).context().incidence() == old(model).context().incidence().union(
                    row_of(old(model).table().rows() as usize, marked(old(self).form())),
                )
                &&& final(model).next_row_key() == old(model).next_row_key() + 1
                &&& final(model).next_column_key() == old(model).next_column_key()
                &&& final(model).focus() == old(model).focus()
                &&& final(self).settled(
                    final(model).context(),
                    old(self).basis(),
                    old(self).premise(),
                    false,
                    result,
                )
                &&& final(self).form() == old(self).form()
            },
    {
        match self.phase {
            Phase::AwaitingCounterexample => {},
            _ => {
                return Err(ExplorationError::WrongPhase);
            },
        }
        let row = model.row_count();
        let columns = model.column_count();
        model.add_object(name);
        let ghost added = *model;
        let mut column: usize = 0;
        while column < columns
            invariant
                column <= columns,
                columns == old(model).table().columns(),
                row == old(model).table().rows(),
                self.form@.len() == columns,
                *self == *old(self),
                model.inv(),
                model.table().row_data == added.table().row_data,
                model.table().column_data == added.table().column_data,
                model.context().objects() == added.context().objects(),
                model.context().attributes() == added.context().attributes(),
                model.next_row_key() == added.next_row_key(),
                model.next_column_key() == added.next_column_key(),
                model.focus() == added.focus(),
                added.table().rows() == row + 1,
                added.table().columns() == columns,
                forall|r: usize, c: usize|
                    r < row && c < columns ==> model.table().cell(r, c) == added.table().cell(r, c),
                forall|r: usize, c: usize|
                    r == row && c < columns ==> model.table().cell(r, c) == (c < column
                        && self.form@[c as int]),
                model.context().incidence() =~= added.context().incidence().union(
                    row_of(row, marked(self.form@.take(column as int))),
                ),
            decreases columns - column,
        {
            if self.form[column] {
                let ghost before = *model;
                model.toggle_cell(row, column);
                proof {
                    assert forall|r: usize, c: usize| r <= row && c < columns implies
                        (#[trigger] model.table().cell(r, c)) == if r == row && c == column {
                            true
                        } else {
                            before.table().cell(r, c)
                        }
                    by {
                        assert(model.table().cells()[(r, c)] == model.table().cell(r, c));
                        assert(before.table().cells()[(r, c)] == before.table().cell(r, c));
                    }
                }
            }
            proof {
                let head = marked(self.form@.take(column as int));
                let next = marked(self.form@.take(column + 1));
                assert forall|k: usize| next.contains(k) == (head.contains(k) || (k == column
                    && self.form@[column as int])) by {}
                assert(model.context().incidence() =~= added.context().incidence().union(
                    row_of(row, next),
                ));
            }
            column += 1;
        }
        proof {
            assert(self.form@.take(columns as int) =~= self.form@);
        }
        self.phase = Phase::Idle;
        self.run(model.context_ref(), false)
    }

    /// Sets or clears one check mark of the open counterexample form.
    /// Returns whether there is such a mark; if not, nothing changes.
    pub fn set_mark(&mut self, index: usize, value: bool) -> (changed: bool)
        ensures
            changed == (old(self).phase() == Phase::AwaitingCounterexample
                && index < old(self).form().len()),
            !changed ==> *final(self) == *old(self),
            changed ==> {
                &&& final(self).form() == old(self).form().update(index as int, value)
                &&& final(self).phase() == old(self).phase()
                &&& final(self).premise() == old(self).premise()
                &&& final(self).conclusion() == old(self).conclusion()
                &&& final(self).basis() == old(self).basis()
            },
    {
        match self.phase {
            Phase::AwaitingCounterexample => {
                if index < self.form.len() {
                    self.form.set(index, value);
                    true
                } else {
                    false
                }
            },
            _ => false,
        }
    }
}

} // verus!
