use crate::derivation::{
    adds, candidates, complete, conditional_assumption, conditional_proof, conditional_splice,
    deductions, derivable, extensions, first_concluding, inner_settings, one_step,
    only_assumptions, or_assumption, or_elimination, or_elimination_at, or_elimination_upto,
    or_splice, search_from, Candidate,
};
use crate::expression::Formula;
use crate::lines::{Rule, Step};
use crate::prover::SearchSettings;
use crate::sequences::{lemma_select_concat, lemma_select_contains, lemma_select_none, select};
use vstd::prelude::*;

verus! {

/// The first candidate that establishes the conclusion is one of the
/// candidates.
pub proof fn lemma_first_concluding_listed(found: Seq<Candidate>, conclusion: Formula)
    ensures
        first_concluding(found, conclusion) matches Some(c) ==> found.contains(c),
    decreases found.len(),
{
    if found.len() > 0 {
        lemma_first_concluding_listed(found.skip(1), conclusion);
        if first_concluding(found.skip(1), conclusion) is Some {
            let c = first_concluding(found.skip(1), conclusion)->0;
            let k = choose|k: int| 0 <= k < found.skip(1).len() && found.skip(1)[k] == c;
            assert(found[k + 1] == c);
        }
    }
}

/// A proof that a search finds begins with what all the partial proofs of
/// its queue begin with.
pub proof fn lemma_search_keeps_prefix(
    root: Seq<Step>,
    queue: Seq<Seq<Step>>,
    conclusion: Formula,
    settings: SearchSettings,
    spent: nat,
    too_long: bool,
    depth: nat,
)
    requires
        forall|k: int| 0 <= k < queue.len() ==> root.is_prefix_of(#[trigger] queue[k]),
    ensures
        search_from(queue, conclusion, settings, spent, too_long, depth) matches Ok(found)
            ==> root.is_prefix_of(found),
    decreases settings.iterations - spent, queue.len(),
{
    if queue.len() > 0 {
        let current = queue[0];
        let rest = queue.skip(1);
        assert(root.is_prefix_of(current));
        assert forall|k: int| 0 <= k < rest.len() implies root.is_prefix_of(
            #[trigger] rest[k],
        ) by {
            assert(rest[k] == queue[k + 1]);
        }
        if complete(current, conclusion) {
        } else if current.len() > settings.max_line_length {
            lemma_search_keeps_prefix(root, rest, conclusion, settings, spent, true, depth);
        } else if spent >= settings.iterations {
        } else {
            let found = candidates(current, conclusion, depth);
            match first_concluding(found, conclusion) {
                Some(c) => {},
                None => {
                    let next = rest + extensions(current, found);
                    assert forall|k: int| 0 <= k < next.len() implies root.is_prefix_of(
                        #[trigger] next[k],
                    ) by {
                        if k < rest.len() {
                            assert(next[k] == rest[k]);
                        } else {
                            assert(next[k] == current + found[k - rest.len()]);
                        }
                    }
                    lemma_search_keeps_prefix(
                        root,
                        next,
                        conclusion,
                        settings,
                        spent + 1,
                        false,
                        depth,
                    );
                },
            }
        }
    }
}

/// A sub-proof hands back every line of its beginning that is no plain
/// assumption.
pub proof fn lemma_sub_proof_repeats(
    lines: Seq<Step>,
    assumed: Step,
    conclusion: Formula,
    depth: nat,
    i: int,
)
    requires
        0 <= i < lines.len(),
        lines[i].rule != Rule::Assumption,
    ensures
        search_from(seq![lines.push(assumed)], conclusion, inner_settings(), 0, false, depth)
            matches Ok(found) ==> deductions(found).contains(lines[i]),
{
    let root = lines.push(assumed);
    let queue = seq![root];
    assert forall|k: int| 0 <= k < queue.len() implies root.is_prefix_of(#[trigger] queue[k]) by {}
    lemma_search_keeps_prefix(root, queue, conclusion, inner_settings(), 0, false, depth);
    match search_from(queue, conclusion, inner_settings(), 0, false, depth) {
        Ok(found) => {
            assert(found[i] == root[i]);
            assert(found.contains(lines[i]));
            lemma_select_contains(found, |s: Step| s.rule != Rule::Assumption, lines[i]);
        },
        Err(_) => {},
    }
}

/// A candidate that holds a line of the proof adds nothing.
pub proof fn lemma_repeating_adds_nothing(lines: Seq<Step>, candidate: Candidate, i: int, k: int)
    requires
        0 <= i < lines.len(),
        0 <= k < candidate.len(),
        candidate[k].expression == lines[i].expression,
    ensures
        !adds(lines, candidate),
{
}

/// Where a line of the proof is no plain assumption, what or-elimination
/// derives from the lines before `n` adds nothing: each candidate repeats
/// that line.
pub proof fn lemma_or_elimination_repeats(
    lines: Seq<Step>,
    conclusion: Formula,
    depth: nat,
    n: int,
    i: int,
)
    requires
        0 <= i < lines.len(),
        lines[i].rule != Rule::Assumption,
        n <= lines.len(),
    ensures
        forall|k: int|
            0 <= k < or_elimination_upto(lines, conclusion, depth, n).len() ==> !adds(
                lines,
                #[trigger] or_elimination_upto(lines, conclusion, depth, n)[k],
            ),
    decreases n,
{
    if n > 0 {
        lemma_or_elimination_repeats(lines, conclusion, depth, n - 1, i);
        let init = or_elimination_upto(lines, conclusion, depth, n - 1);
        let at = or_elimination_at(lines, conclusion, depth, n - 1);
        let all = or_elimination_upto(lines, conclusion, depth, n);
        assert forall|k: int| 0 <= k < all.len() implies !adds(lines, #[trigger] all[k]) by {
            if k < init.len() {
                assert(all[k] == init[k]);
            } else {
                assert(all[k] == at[k - init.len()]);
                assert(depth > 0);
                match lines[n - 1].expression {
                    Formula::Or(left, right) => {
                        let assumed = or_assumption(lines, n - 1, *left);
                        let other = or_assumption(lines, n - 1, *right);
                        lemma_sub_proof_repeats(
                            lines,
                            assumed,
                            conclusion,
                            (depth - 1) as nat,
                            i,
                        );
                        let first = search_from(
                            seq![lines.push(assumed)],
                            conclusion,
                            inner_settings(),
                            0,
                            false,
                            (depth - 1) as nat,
                        )->Ok_0;
                        let second = search_from(
                            seq![lines.push(other)],
                            conclusion,
                            inner_settings(),
                            0,
                            false,
                            (depth - 1) as nat,
                        )->Ok_0;
                        let a = deductions(first);
                        let c = or_splice(lines, a, deductions(second), conclusion);
                        assert(all[k] == c);
                        let w = choose|w: int| 0 <= w < a.len() && a[w] == lines[i];
                        assert(c[w] == a[w]);
                        lemma_repeating_adds_nothing(lines, c, i, w);
                    },
                    _ => {},
                }
            }
        }
    }
}

/// Where a line of the proof is no plain assumption, the rules that ask for
/// sub-proofs add nothing to what the one-step rules derive.
pub proof fn lemma_sub_proofs_add_nothing(lines: Seq<Step>, conclusion: Formula, depth: nat)
    requires
        !only_assumptions(lines),
    ensures
        select(derivable(lines, conclusion, depth), |c: Candidate| adds(lines, c)) == select(
            one_step(lines, conclusion),
            |c: Candidate| adds(lines, c),
        ),
{
    let keep = |c: Candidate| adds(lines, c);
    let i = choose|i: int| 0 <= i < lines.len() && (#[trigger] lines[i]).rule != Rule::Assumption;
    let simple = one_step(lines, conclusion);
    let ors = or_elimination(lines, conclusion, depth);
    let cps = conditional_proof(lines, conclusion, depth);
    assert forall|k: int| 0 <= k < ors.len() implies !keep(#[trigger] ors[k]) by {
        lemma_or_elimination_repeats(lines, conclusion, depth, lines.len() as int, i);
        let upto = or_elimination_upto(lines, conclusion, depth, lines.len() as int);
        assert(ors == upto);
        assert(!adds(lines, upto[k]));
    }
    assert forall|k: int| 0 <= k < cps.len() implies !keep(#[trigger] cps[k]) by {
        match conclusion {
            Formula::Implies(left, right) => {
                let assumed = conditional_assumption(lines, *left);
                lemma_sub_proof_repeats(lines, assumed, *right, (depth - 1) as nat, i);
                let found = search_from(
                    seq![lines.push(assumed)],
                    *right,
                    inner_settings(),
                    0,
                    false,
                    (depth - 1) as nat,
                )->Ok_0;
                let sub = deductions(found);
                let c = conditional_splice(lines, sub, conclusion);
                assert(cps[k] == c);
                let w = choose|w: int| 0 <= w < sub.len() && sub[w] == lines[i];
                assert(c[w] == sub[w]);
                lemma_repeating_adds_nothing(lines, c, i, w);
            },
            _ => {},
        }
    }
    lemma_select_none(ors, keep);
    lemma_select_none(cps, keep);
    lemma_select_concat(simple, ors, keep);
    lemma_select_concat(simple + ors, cps, keep);
    assert(select(simple, keep) + Seq::<Candidate>::empty() + Seq::<Candidate>::empty()
        =~= select(simple, keep));
}

/// Where a line of the proof is no plain assumption, the candidates do not
/// depend on how deep sub-proofs may nest.
pub proof fn lemma_candidates_behind_deductions(
    lines: Seq<Step>,
    conclusion: Formula,
    depth: nat,
    other: nat,
)
    requires
        !only_assumptions(lines),
    ensures
        candidates(lines, conclusion, depth) == candidates(lines, conclusion, other),
{
    lemma_sub_proofs_add_nothing(lines, conclusion, depth);
    lemma_sub_proofs_add_nothing(lines, conclusion, other);
}

/// A search whose partial proofs all hold a line that is no plain
/// assumption, as every search for a sub-proof does, ends the same however
/// deep sub-proofs may nest.
pub proof fn lemma_search_behind_deductions(
    queue: Seq<Seq<Step>>,
    conclusion: Formula,
    settings: SearchSettings,
    spent: nat,
    too_long: bool,
    depth: nat,
    other: nat,
)
    requires
        forall|k: int| 0 <= k < queue.len() ==> !only_assumptions(#[trigger] queue[k]),
    ensures
        search_from(queue, conclusion, settings, spent, too_long, depth) == search_from(
            queue,
            conclusion,
            settings,
            spent,
            too_long,
            other,
        ),
    decreases settings.iterations - spent, queue.len(),
{
    if queue.len() > 0 {
        let current = queue[0];
        let rest = queue.skip(1);
        assert(!only_assumptions(current));
        assert forall|k: int| 0 <= k < rest.len() implies !only_assumptions(
            #[trigger] rest[k],
        ) by {
            assert(rest[k] == queue[k + 1]);
        }
        if complete(current, conclusion) {
        } else if current.len() > settings.max_line_length {
            lemma_search_behind_deductions(
                rest,
                conclusion,
                settings,
                spent,
                true,
                depth,
                other,
            );
        } else if spent >= settings.iterations {
        } else {
            lemma_candidates_behind_deductions(current, conclusion, depth, other);
            let found = candidates(current, conclusion, depth);
            if first_concluding(found, conclusion) is None {
                let next = rest + extensions(current, found);
                assert forall|k: int| 0 <= k < next.len() implies !only_assumptions(
                    #[trigger] next[k],
                ) by {
                    if k < rest.len() {
                        assert(next[k] == rest[k]);
                    } else {
                        let grown = current + found[k - rest.len()];
                        assert(next[k] == grown);
                        let i = choose|i: int|
                            0 <= i < current.len() && (#[trigger] current[i]).rule
                                != Rule::Assumption;
                        assert(grown[i] == current[i]);
                    }
                }
                lemma_search_behind_deductions(
                    next,
                    conclusion,
                    settings,
                    spent + 1,
                    false,
                    depth,
                    other,
                );
            }
        }
    }
}

/// The search for a sub-proof behind an assumed line ends the same however
/// deep sub-proofs may nest.
pub proof fn lemma_sub_proof_any_depth(
    lines: Seq<Step>,
    assumed: Step,
    conclusion: Formula,
    depth: nat,
    other: nat,
)
    requires
        assumed.rule != Rule::Assumption,
    ensures
        search_from(seq![lines.push(assumed)], conclusion, inner_settings(), 0, false, depth)
            == search_from(
            seq![lines.push(assumed)],
            conclusion,
            inner_settings(),
            0,
            false,
            other,
        ),
{
    let root = lines.push(assumed);
    let queue = seq![root];
    assert forall|k: int| 0 <= k < queue.len() implies !only_assumptions(#[trigger] queue[k]) by {
        assert(root[lines.len() as int].rule != Rule::Assumption);
    }
    lemma_search_behind_deductions(queue, conclusion, inner_settings(), 0, false, depth, other);
}

/// What or-elimination derives from the lines before `n` is the same for
/// every depth to which sub-proofs may nest, if they may nest at all.
pub proof fn lemma_or_elimination_any_depth(
    lines: Seq<Step>,
    conclusion: Formula,
    depth: nat,
    other: nat,
    n: int,
)
    requires
        depth >= 1,
        other >= 1,
        n <= lines.len(),
    ensures
        or_elimination_upto(lines, conclusion, depth, n) == or_elimination_upto(
            lines,
            conclusion,
            other,
            n,
        ),
    decreases n,
{
    if n > 0 {
        lemma_or_elimination_any_depth(lines, conclusion, depth, other, n - 1);
        match lines[n - 1].expression {
            Formula::Or(left, right) => {
                lemma_sub_proof_any_depth(
                    lines,
                    or_assumption(lines, n - 1, *left),
                    conclusion,
                    (depth - 1) as nat,
                    (other - 1) as nat,
                );
                lemma_sub_proof_any_depth(
                    lines,
                    or_assumption(lines, n - 1, *right),
                    conclusion,
                    (depth - 1) as nat,
                    (other - 1) as nat,
                );
            },
            _ => {},
        }
        assert(or_elimination_at(lines, conclusion, depth, n - 1) == or_elimination_at(
            lines,
            conclusion,
            other,
            n - 1,
        ));
    }
}

/// The candidates are the same for every depth to which sub-proofs may
/// nest, if they may nest at all.
pub proof fn lemma_candidates_any_depth(
    lines: Seq<Step>,
    conclusion: Formula,
    depth: nat,
    other: nat,
)
    requires
        depth >= 1,
        other >= 1,
    ensures
        candidates(lines, conclusion, depth) == candidates(lines, conclusion, other),
{
    lemma_or_elimination_any_depth(lines, conclusion, depth, other, lines.len() as int);
    assert(or_elimination(lines, conclusion, depth) == or_elimination(lines, conclusion, other));
    match conclusion {
        Formula::Implies(left, right) => {
            lemma_sub_proof_any_depth(
                lines,
                conditional_assumption(lines, *left),
                *right,
                (depth - 1) as nat,
                (other - 1) as nat,
            );
        },
        _ => {},
    }
    assert(conditional_proof(lines, conclusion, depth) == conditional_proof(
        lines,
        conclusion,
        other,
    ));
}

/// A search ends the same for every depth to which sub-proofs may nest, if
/// they may nest at all: what a sub-proof of a sub-proof could add is
/// never kept.
pub proof fn theorem_nesting_is_immaterial(
    queue: Seq<Seq<Step>>,
    conclusion: Formula,
    settings: SearchSettings,
    spent: nat,
    too_long: bool,
    depth: nat,
    other: nat,
)
    requires
        depth >= 1,
        other >= 1,
    ensures
        search_from(queue, conclusion, settings, spent, too_long, depth) == search_from(
            queue,
            conclusion,
            settings,
            spent,
            too_long,
            other,
        ),
    decreases settings.iterations - spent, queue.len(),
{
    if queue.len() > 0 {
        let current = queue[0];
        let rest = queue.skip(1);
        if complete(current, conclusion) {
        } else if current.len() > settings.max_line_length {
            theorem_nesting_is_immaterial(rest, conclusion, settings, spent, true, depth, other);
        } else if spent >= settings.iterations {
        } else {
            lemma_candidates_any_depth(current, conclusion, depth, other);
            let found = candidates(current, conclusion, depth);
            if first_concluding(found, conclusion) is None {
                theorem_nesting_is_immaterial(
                    rest + extensions(current, found),
                    conclusion,
                    settings,
                    spent + 1,
                    false,
                    depth,
                    other,
                );
            }
        }
    }
}

} // verus!
