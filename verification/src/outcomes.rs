use crate::derivation::{
    candidates, complete, concludes, extensions, first_concluding, search_from, Candidate,
};
use crate::expression::Formula;
use crate::lines::Step;
use crate::prover::{SearchSettings, SearchState};
use vstd::prelude::*;

verus! {

/// The first candidate that establishes the conclusion establishes it.
pub proof fn lemma_first_concluding_concludes(found: Seq<Candidate>, conclusion: Formula)
    ensures
        first_concluding(found, conclusion) matches Some(c) ==> concludes(c, conclusion),
    decreases found.len(),
{
    if found.len() > 0 && !concludes(found[0], conclusion) {
        lemma_first_concluding_concludes(found.skip(1), conclusion);
    }
}

/// A search never hands out a proof that does not establish the conclusion.
pub proof fn theorem_found_proof_concludes(
    queue: Seq<Seq<Step>>,
    conclusion: Formula,
    settings: SearchSettings,
    spent: nat,
    too_long: bool,
    depth: nat,
)
    ensures
        search_from(queue, conclusion, settings, spent, too_long, depth) matches Ok(found)
            ==> complete(found, conclusion),
    decreases settings.iterations - spent, queue.len(),
{
    if queue.len() > 0 {
        let current = queue[0];
        let rest = queue.skip(1);
        if complete(current, conclusion) {
        } else if current.len() > settings.max_line_length {
            theorem_found_proof_concludes(rest, conclusion, settings, spent, true, depth);
        } else if spent >= settings.iterations {
        } else {
            let found = candidates(current, conclusion, depth);
            lemma_first_concluding_concludes(found, conclusion);
            match first_concluding(found, conclusion) {
                Some(c) => {
                    let all = current + c;
                    assert(all[all.len() - 1] == c.last());
                },
                None => {
                    theorem_found_proof_concludes(
                        rest + extensions(current, found),
                        conclusion,
                        settings,
                        spent + 1,
                        false,
                        depth,
                    );
                },
            }
        }
    }
}

/// A search that fails fails in one of three ways: at a dead end, on too
/// many lines, or on its budget.  It fails on its budget only if it has one
/// to exceed, on too many lines only if a partial proof was too long, and
/// with nothing to examine it has failed at once.
pub proof fn theorem_failures(
    queue: Seq<Seq<Step>>,
    conclusion: Formula,
    settings: SearchSettings,
    spent: nat,
    too_long: bool,
    depth: nat,
)
    ensures
        search_from(queue, conclusion, settings, spent, too_long, depth) matches Err(state) ==> {
            ||| state == SearchState::DeadEnd
            ||| state == SearchState::MaximumLines
            ||| state == SearchState::MaximumIteration
        },
        queue.len() == 0 ==> search_from(queue, conclusion, settings, spent, too_long, depth)
            == Err::<Seq<Step>, SearchState>(
            if too_long {
                SearchState::MaximumLines
            } else {
                SearchState::DeadEnd
            },
        ),
    decreases settings.iterations - spent, queue.len(),
{
    if queue.len() > 0 {
        let current = queue[0];
        let rest = queue.skip(1);
        if complete(current, conclusion) {
        } else if current.len() > settings.max_line_length {
            theorem_failures(rest, conclusion, settings, spent, true, depth);
        } else if spent >= settings.iterations {
        } else {
            let found = candidates(current, conclusion, depth);
            if first_concluding(found, conclusion) is None {
                theorem_failures(
                    rest + extensions(current, found),
                    conclusion,
                    settings,
                    spent + 1,
                    false,
                    depth,
                );
            }
        }
    }
}

} // verus!
