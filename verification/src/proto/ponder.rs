//! Pondering: thinking on positions we are not allowed to act on.
//!
//! A session is steered by steps, in arrival order. It has no way to send an
//! action: the only thing it can produce is the answer to a
//! [`PonderStep::Answer`], which only the turn driver sends, and that answer is
//! revalidated like any other action.

use crate::game::{State, StateView};
use crate::proto::engine::SearchBudget;
use vstd::prelude::*;

verus! {

/// One instruction for a pondering session.
#[derive(Debug)]
pub enum PonderStep {
    /// Think about `state` under `budget` and produce nothing. `state` is a
    /// position we may not act on.
    Think { state: State, budget: SearchBudget },
    /// Think about `state` under `budget`, and answer to `reply`.
    Answer { state: State, budget: SearchBudget, reply: u64 },
}

impl PonderStep {
    /// The position the step is about, as mathematical values.
    pub open spec fn position(self) -> StateView {
        match self {
            PonderStep::Think { state, .. } => state@,
            PonderStep::Answer { state, .. } => state@,
        }
    }

    /// Where an answer goes, if one is wanted.
    pub open spec fn wanted(self) -> Option<u64> {
        match self {
            PonderStep::Think { .. } => None,
            PonderStep::Answer { reply, .. } => Some(reply),
        }
    }

    /// The position this step is about.
    pub fn state(&self) -> (r: &State)
        ensures
            r@ == self.position(),
    {
        match self {
            PonderStep::Think { state, .. } => state,
            PonderStep::Answer { state, .. } => state,
        }
    }

    /// The budget this step must respect.
    pub fn budget(&self) -> (r: &SearchBudget)
        ensures
            *r == match *self {
                PonderStep::Think { budget, .. } => budget,
                PonderStep::Answer { budget, .. } => budget,
            },
    {
        match self {
            PonderStep::Think { budget, .. } => budget,
            PonderStep::Answer { budget, .. } => budget,
        }
    }

    /// Where an answer goes, if one is wanted.
    pub fn reply(&self) -> (r: Option<u64>)
        ensures
            r == self.wanted(),
    {
        match self {
            PonderStep::Think { .. } => None,
            PonderStep::Answer { reply, .. } => Some(*reply),
        }
    }
}

/// The answers a session owes for `steps`, in order.
pub open spec fn owed(steps: Seq<PonderStep>) -> Seq<u64>
    decreases steps.len(),
{
    if steps.len() == 0 {
        Seq::empty()
    } else {
        match steps.last().wanted() {
            Some(reply) => owed(steps.drop_last()).push(reply),
            None => owed(steps.drop_last()),
        }
    }
}

/// Declines every step without thinking: lists the answers that are wanted, in
/// order, each of which is to be given as "nothing", so that nobody waits for
/// one that never comes.
pub fn decline(steps: &Vec<PonderStep>) -> (r: Vec<u64>)
    ensures
        r@ == owed(steps@),
{
    let mut replies: Vec<u64> = Vec::new();
    let mut i: usize = 0;
    assert(steps@.take(0) =~= Seq::empty());
    while i < steps.len()
        invariant
            i <= steps@.len(),
            replies@ == owed(steps@.take(i as int)),
        decreases steps@.len() - i,
    {
        proof {
            assert(steps@.take(i + 1).drop_last() =~= steps@.take(i as int));
            assert(steps@.take(i + 1).last() == steps@[i as int]);
        }
        if let Some(reply) = steps[i].reply() {
            replies.push(reply);
        }
        i += 1;
    }
    assert(steps@.take(i as int) =~= steps@);
    replies
}

/// A declined session leaves no answer outstanding, and gives none that was
/// not asked for.
pub proof fn every_answer_is_given_once(steps: Seq<PonderStep>, reply: u64)
    ensures
        owed(steps).contains(reply) <==> exists|i: int|
            0 <= i < steps.len() && (#[trigger] steps[i]).wanted() == Some(reply),
        owed(steps).len() <= steps.len(),
    decreases steps.len(),
{
    if steps.len() > 0 {
        let rest = steps.drop_last();
        every_answer_is_given_once(rest, reply);
        let last = steps[steps.len() - 1];
        assert(steps.last() == last);
        if owed(rest).contains(reply) {
            let i = choose|i: int|
                0 <= i < rest.len() && (#[trigger] rest[i]).wanted() == Some(reply);
            assert(steps[i].wanted() == Some(reply));
            let k = choose|k: int| 0 <= k < owed(rest).len() && owed(rest)[k] == reply;
            assert(owed(steps)[k] == reply);
        }
        if last.wanted() == Some(reply) {
            assert(owed(steps)[owed(rest).len() as int] == reply);
        }
        if exists|i: int| 0 <= i < steps.len() && (#[trigger] steps[i]).wanted() == Some(reply) {
            let i = choose|i: int|
                0 <= i < steps.len() && (#[trigger] steps[i]).wanted() == Some(reply);
            if i < rest.len() {
                assert(rest[i].wanted() == Some(reply));
            }
        }
        if owed(steps).contains(reply) {
            let k = choose|k: int| 0 <= k < owed(steps).len() && owed(steps)[k] == reply;
            if k < owed(rest).len() {
                assert(owed(rest)[k] == reply);
            } else {
                assert(steps[steps.len() - 1].wanted() == Some(reply));
            }
        }
    }
}

/// Answers are owed in the order they were asked for: what is owed for some
/// steps and then others is what is owed for the ones and then the others.
pub proof fn answers_are_owed_in_order(first: Seq<PonderStep>, second: Seq<PonderStep>)
    ensures
        owed(first + second) == owed(first) + owed(second),
        first.len() == 1 && first[0] is Think ==> owed(first).len() == 0,
        first.len() == 1 && first[0] is Answer ==> owed(first) == seq![first[0]->reply],
    decreases second.len(),
{
    if first.len() == 1 {
        assert(first.last() == first[0]);
        assert(first.drop_last() =~= Seq::empty());
        assert(owed(first.drop_last()) =~= Seq::empty());
        if first[0] is Answer {
            assert(owed(first) =~= seq![first[0]->reply]);
        }
    }
    if second.len() == 0 {
        assert(first + second =~= first);
        assert(owed(first) + owed(second) =~= owed(first));
    } else {
        let all = first + second;
        answers_are_owed_in_order(first, second.drop_last());
        assert(all.drop_last() =~= first + second.drop_last());
        assert(all.last() == second.last());
        assert(owed(all) =~= owed(first) + owed(second));
    }
}

} // verus!
