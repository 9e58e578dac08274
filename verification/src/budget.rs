use crate::derivation::{
    adds, and_elimination_at, and_introduction_at, candidates, complete, conditional_proof,
    derivable, double_negation_add_at, double_negation_remove_at, extensions,
    first_concluding, lemma_over_lines_all, lemma_over_pairs_all, modus_ponens_at,
    modus_tollens_at, name_before, names_in, names_of_lines, one_step, or_elimination,
    or_elimination_at, or_elimination_upto, or_introduction_at, or_introduction_names_at,
    or_introduction_with, over_lines, over_pairs, search_from, vocabulary, with_names_of,
    Candidate,
};
use crate::expression::Formula;
use crate::lines::Step;
use crate::outcomes::{lemma_first_concluding_concludes, theorem_failures};
use crate::prover::{SearchSettings, SearchState};
use crate::semantics::{
    all_hold, holds, in_order, lemma_candidates_in_order, lemma_none_concludes, refutable,
    Valuation,
};
use crate::sequences::{
    distinct, insert_all, insert_ordered, lemma_select_contains, merge_new, select,
    theorem_distinct,
};
use crate::subproofs::lemma_first_concluding_listed;
use vstd::prelude::*;

verus! {

/// An insertion makes a run longer by one item at most.
pub proof fn lemma_insert_ordered_len<A>(s: Seq<A>, x: A, before: spec_fn(A, A) -> bool)
    ensures
        insert_ordered(s, x, before).len() <= s.len() + 1,
    decreases s.len(),
{
    if s.len() > 0 && !before(s.last(), x) && s.last() != x {
        lemma_insert_ordered_len(s.drop_last(), x, before);
    }
}

/// A run of insertions makes a run longer by the items inserted at most.
pub proof fn lemma_insert_all_len<A>(s: Seq<A>, xs: Seq<A>, before: spec_fn(A, A) -> bool)
    ensures
        insert_all(s, xs, before).len() <= s.len() + xs.len(),
    decreases xs.len(),
{
    if xs.len() > 0 {
        lemma_insert_all_len(s, xs.drop_last(), before);
        lemma_insert_ordered_len(insert_all(s, xs.drop_last(), before), xs.last(), before);
    }
}

/// A merge is no longer than its base and what is merged.
pub proof fn lemma_merge_new_len<A>(base: Seq<A>, s: Seq<A>)
    ensures
        merge_new(base, s).len() <= base.len() + s.len(),
    decreases s.len(),
{
    if s.len() > 0 {
        lemma_merge_new_len(base, s.drop_last());
    }
}

/// A selection is no longer than what it selects from.
pub proof fn lemma_select_len<A>(s: Seq<A>, keep: spec_fn(A) -> bool)
    ensures
        select(s, keep).len() <= s.len(),
    decreases s.len(),
{
    if s.len() > 0 {
        lemma_select_len(s.drop_last(), keep);
    }
}

/// There are no more names of variables than sub-formulas.
pub proof fn lemma_names_in_len(subformulas: Seq<Formula>)
    ensures
        names_in(subformulas).len() <= subformulas.len(),
    decreases subformulas.len(),
{
    if subformulas.len() > 0 {
        lemma_names_in_len(subformulas.drop_last());
    }
}

/// How many sub-formulas the first `n` lines have, taken together.
pub open spec fn weight(lines: Seq<Step>, n: int) -> nat
    decreases n,
{
    if n <= 0 {
        0
    } else {
        weight(lines, n - 1) + lines[n - 1].expression.subformulas().len()
    }
}

/// A formula adds no more names than it has sub-formulas.
pub proof fn lemma_with_names_of_len(names: Seq<Seq<char>>, f: Formula)
    ensures
        with_names_of(names, f).len() <= names.len() + f.subformulas().len(),
{
    let sorted = insert_all(Seq::empty(), names, name_before());
    let found = names_in(distinct(f.subformulas()));
    lemma_insert_all_len(Seq::empty(), names, name_before());
    lemma_merge_new_len(Seq::empty(), f.subformulas());
    lemma_names_in_len(distinct(f.subformulas()));
    lemma_insert_all_len(sorted, found, name_before());
}

/// The first `n` lines have no more variables than sub-formulas.
pub proof fn lemma_names_of_lines_len(lines: Seq<Step>, n: int)
    ensures
        names_of_lines(lines, n).len() <= weight(lines, n),
    decreases n,
{
    if n > 0 {
        lemma_names_of_lines_len(lines, n - 1);
        lemma_with_names_of_len(names_of_lines(lines, n - 1), lines[n - 1].expression);
    }
}

/// Where a rule derives at most `most` candidates from each line, it
/// derives at most that many times `n` from the lines before `n`.
pub proof fn lemma_over_lines_len(n: int, rule: spec_fn(int) -> Seq<Candidate>, most: nat)
    requires
        forall|i: int| 0 <= i < n ==> (#[trigger] rule(i)).len() <= most,
    ensures
        over_lines(n, rule).len() <= if n > 0 {
            n * most
        } else {
            0
        },
    decreases n,
{
    if n > 0 {
        lemma_over_lines_len(n - 1, rule, most);
        assert(rule(n - 1).len() <= most);
        assert((n - 1) * most + most == n * most) by (nonlinear_arith);
    }
}

/// Where a rule derives at most `most` candidates from each pair of lines,
/// it derives at most that many times `n` times `n` from the lines before
/// `n`.
pub proof fn lemma_over_pairs_len(n: int, rule: spec_fn(int, int) -> Seq<Candidate>, most: nat)
    requires
        0 <= n,
        forall|i: int, j: int| 0 <= i < n && 0 <= j < n ==> (#[trigger] rule(i, j)).len() <= most,
    ensures
        over_pairs(n, rule).len() <= n * (n * most),
{
    let rows = |j: int| over_lines(n, |i: int| rule(i, j));
    assert(n * most >= 0) by (nonlinear_arith)
        requires
            n >= 0,
            most >= 0,
    ;
    assert forall|j: int| 0 <= j < n implies (#[trigger] rows(j)).len() <= (n * most) as nat by {
        let row = |i: int| rule(i, j);
        assert forall|i: int| 0 <= i < n implies (#[trigger] row(i)).len() <= most by {
            assert(row(i) == rule(i, j));
        }
        lemma_over_lines_len(n, row, most);
    }
    lemma_over_lines_len(n, rows, (n * most) as nat);
    if n == 0 {
        assert(n * (n * most) == 0) by (nonlinear_arith)
            requires
                n == 0,
        ;
    }
}

/// How many candidates the one-step rules derive at most from `n` lines
/// with `names` variables in play.
pub open spec fn one_step_bound(n: int, names: int) -> int {
    4 * (n * n) + 4 * n + 2 * (n * names)
}

/// The one-step rules derive no more candidates than that.
pub proof fn lemma_one_step_len(lines: Seq<Step>, conclusion: Formula)
    ensures
        one_step(lines, conclusion).len() <= one_step_bound(
            lines.len() as int,
            vocabulary(lines, conclusion).len() as int,
        ),
{
    let n = lines.len() as int;
    let names = vocabulary(lines, conclusion);
    let v = names.len() as int;
    let mp = |i: int, j: int| modus_ponens_at(lines, i, j);
    let mt = |i: int, j: int| modus_tollens_at(lines, i, j);
    let ae = |i: int| and_elimination_at(lines, i);
    let ai = |i: int, j: int| and_introduction_at(lines, i, j);
    let oi = |i: int, j: int| or_introduction_at(lines, i, j);
    let ov = |i: int| or_introduction_names_at(lines, names, i);
    let dr = |i: int| double_negation_remove_at(lines, i);
    let da = |i: int| double_negation_add_at(lines, i);
    lemma_over_pairs_len(n, mp, 1);
    lemma_over_pairs_len(n, mt, 1);
    lemma_over_lines_len(n, ae, 2);
    lemma_over_pairs_len(n, ai, 1);
    lemma_over_pairs_len(n, oi, 1);
    assert forall|i: int| 0 <= i < n implies (#[trigger] ov(i)).len() <= (2 * v) as nat by {
        let with = |w: int| or_introduction_with(lines, i, names[w]);
        lemma_over_lines_len(v, with, 2);
    }
    lemma_over_lines_len(n, ov, (2 * v) as nat);
    lemma_over_lines_len(n, dr, 1);
    lemma_over_lines_len(n, da, 1);
    assert(n * (n * 1) == n * n) by (nonlinear_arith);
    assert(n * (2 * v) == 2 * (n * v)) by (nonlinear_arith);
    assert(one_step(lines, conclusion) == over_pairs(n, mp) + over_pairs(n, mt) + over_lines(
        n,
        ae,
    ) + over_pairs(n, ai) + over_pairs(n, oi) + over_lines(n, ov) + over_lines(n, dr)
        + over_lines(n, da));
}

/// Or-elimination derives one candidate at most from each line.
pub proof fn lemma_or_elimination_len(lines: Seq<Step>, conclusion: Formula, depth: nat, n: int)
    ensures
        or_elimination_upto(lines, conclusion, depth, n).len() <= if n > 0 {
            n
        } else {
            0
        },
    decreases n,
{
    if n > 0 {
        lemma_or_elimination_len(lines, conclusion, depth, n - 1);
        assert(or_elimination_at(lines, conclusion, depth, n - 1).len() <= 1);
    }
}

/// How many ways there are at most to extend the lines by one rule.
pub open spec fn branching(lines: Seq<Step>, conclusion: Formula) -> int {
    let n = lines.len() as int;
    let names = weight(lines, n) + conclusion.subformulas().len();
    one_step_bound(n, names as int) + n + 1
}

/// There are no more candidates than that.
pub proof fn lemma_candidates_len(lines: Seq<Step>, conclusion: Formula, depth: nat)
    ensures
        candidates(lines, conclusion, depth).len() <= branching(lines, conclusion),
{
    let n = lines.len() as int;
    let all = derivable(lines, conclusion, depth);
    let keep = |c: Candidate| adds(lines, c);
    lemma_merge_new_len(Seq::empty(), select(all, keep));
    lemma_select_len(all, keep);
    lemma_one_step_len(lines, conclusion);
    lemma_or_elimination_len(lines, conclusion, depth, n);
    assert(or_elimination(lines, conclusion, depth).len() <= n);
    assert(conditional_proof(lines, conclusion, depth).len() <= 1);
    lemma_names_of_lines_len(lines, n);
    lemma_with_names_of_len(names_of_lines(lines, n), conclusion);
    let v = vocabulary(lines, conclusion).len() as int;
    let w = (weight(lines, n) + conclusion.subformulas().len()) as int;
    assert(v <= w);
    assert(n * v <= n * w) by (nonlinear_arith)
        requires
            0 <= n,
            0 <= v <= w,
    ;
}

/// Every candidate of the one-step rules is one line.
pub proof fn lemma_one_step_single(lines: Seq<Step>, conclusion: Formula)
    ensures
        forall|k: int|
            0 <= k < one_step(lines, conclusion).len() ==> (#[trigger] one_step(
                lines,
                conclusion,
            )[k]).len() == 1,
{
    let n = lines.len() as int;
    let names = vocabulary(lines, conclusion);
    let single = |c: Candidate| c.len() == 1;
    let mp = |i: int, j: int| modus_ponens_at(lines, i, j);
    let mt = |i: int, j: int| modus_tollens_at(lines, i, j);
    let ae = |i: int| and_elimination_at(lines, i);
    let ai = |i: int, j: int| and_introduction_at(lines, i, j);
    let oi = |i: int, j: int| or_introduction_at(lines, i, j);
    let ov = |i: int| or_introduction_names_at(lines, names, i);
    let dr = |i: int| double_negation_remove_at(lines, i);
    let da = |i: int| double_negation_add_at(lines, i);
    lemma_over_pairs_all(n, mp, single);
    lemma_over_pairs_all(n, mt, single);
    lemma_over_lines_all(n, ae, single);
    lemma_over_pairs_all(n, ai, single);
    lemma_over_pairs_all(n, oi, single);
    assert forall|i: int, k: int| 0 <= i < n && 0 <= k < ov(i).len() implies single(
        #[trigger] ov(i)[k],
    ) by {
        let with = |w: int| or_introduction_with(lines, i, names[w]);
        lemma_over_lines_all(names.len() as int, with, single);
    }
    lemma_over_lines_all(n, ov, single);
    lemma_over_lines_all(n, dr, single);
    lemma_over_lines_all(n, da, single);
    let all = one_step(lines, conclusion);
    assert forall|k: int| 0 <= k < all.len() implies (#[trigger] all[k]).len() == 1 by {
        let a = over_pairs(n, mp);
        let b = over_pairs(n, mt);
        let c = over_lines(n, ae);
        let d = over_pairs(n, ai);
        let e = over_pairs(n, oi);
        let f = over_lines(n, ov);
        let g = over_lines(n, dr);
        let h = over_lines(n, da);
        assert(all == a + b + c + d + e + f + g + h);
        if k < a.len() {
            assert(single(a[k]));
        } else if k < a.len() + b.len() {
            assert(single(b[k - a.len()]));
        } else if k < a.len() + b.len() + c.len() {
            assert(single(c[k - a.len() - b.len()]));
        } else if k < a.len() + b.len() + c.len() + d.len() {
            assert(single(d[k - a.len() - b.len() - c.len()]));
        } else if k < a.len() + b.len() + c.len() + d.len() + e.len() {
            assert(single(e[k - a.len() - b.len() - c.len() - d.len()]));
        } else if k < a.len() + b.len() + c.len() + d.len() + e.len() + f.len() {
            assert(single(f[k - a.len() - b.len() - c.len() - d.len() - e.len()]));
        } else if k < a.len() + b.len() + c.len() + d.len() + e.len() + f.len() + g.len() {
            assert(single(g[k - a.len() - b.len() - c.len() - d.len() - e.len() - f.len()]));
        } else {
            assert(single(
                h[k - a.len() - b.len() - c.len() - d.len() - e.len() - f.len() - g.len()],
            ));
        }
    }
}

/// Every candidate of or-elimination has a line.
pub proof fn lemma_or_elimination_nonempty(
    lines: Seq<Step>,
    conclusion: Formula,
    depth: nat,
    n: int,
)
    ensures
        forall|k: int|
            0 <= k < or_elimination_upto(lines, conclusion, depth, n).len() ==> (
            #[trigger] or_elimination_upto(lines, conclusion, depth, n)[k]).len() >= 1,
    decreases n,
{
    if n > 0 {
        lemma_or_elimination_nonempty(lines, conclusion, depth, n - 1);
        let init = or_elimination_upto(lines, conclusion, depth, n - 1);
        let at = or_elimination_at(lines, conclusion, depth, n - 1);
        let all = or_elimination_upto(lines, conclusion, depth, n);
        assert forall|k: int| 0 <= k < all.len() implies (#[trigger] all[k]).len() >= 1 by {
            if k < init.len() {
                assert(all[k] == init[k]);
            } else {
                assert(all[k] == at[k - init.len()]);
            }
        }
    }
}

/// Every candidate has a line, so that it makes a partial proof longer.
pub proof fn lemma_candidates_nonempty(lines: Seq<Step>, conclusion: Formula, depth: nat)
    ensures
        forall|k: int|
            0 <= k < candidates(lines, conclusion, depth).len() ==> (#[trigger] candidates(
                lines,
                conclusion,
                depth,
            )[k]).len() >= 1,
{
    let simple = one_step(lines, conclusion);
    let ors = or_elimination(lines, conclusion, depth);
    let cps = conditional_proof(lines, conclusion, depth);
    let all = derivable(lines, conclusion, depth);
    let keep = |c: Candidate| adds(lines, c);
    let found = candidates(lines, conclusion, depth);
    lemma_one_step_single(lines, conclusion);
    lemma_or_elimination_nonempty(lines, conclusion, depth, lines.len() as int);
    assert forall|k: int| 0 <= k < ors.len() implies (#[trigger] ors[k]).len() >= 1 by {
        let upto = or_elimination_upto(lines, conclusion, depth, lines.len() as int);
        assert(ors == upto);
        assert(upto[k].len() >= 1);
    }
    assert forall|k: int| 0 <= k < cps.len() implies (#[trigger] cps[k]).len() >= 1 by {}
    assert forall|k: int| 0 <= k < found.len() implies (#[trigger] found[k]).len() >= 1 by {
        let c = found[k];
        assert(found.contains(c));
        theorem_distinct(select(all, keep));
        lemma_select_contains(all, keep, c);
        let j = choose|j: int| 0 <= j < all.len() && all[j] == c;
        assert(all == simple + ors + cps);
        if j < simple.len() {
            assert(all[j] == simple[j]);
        } else if j < simple.len() + ors.len() {
            assert(all[j] == ors[j - simple.len()]);
        } else {
            assert(all[j] == cps[j - simple.len() - ors.len()]);
        }
    }
}

/// How many partial proofs of the queue have `bound` lines at most, and so
/// are extended when their turn comes.
pub open spec fn within_bound(queue: Seq<Seq<Step>>, bound: int) -> nat
    decreases queue.len(),
{
    if queue.len() == 0 {
        0
    } else {
        within_bound(queue.skip(1), bound) + if queue[0].len() <= bound {
            1nat
        } else {
            0nat
        }
    }
}

/// Partial proofs that are all too long behind a queue add none that are
/// extended.
pub proof fn lemma_within_bound_behind(
    queue: Seq<Seq<Step>>,
    behind: Seq<Seq<Step>>,
    bound: int,
)
    requires
        forall|k: int| 0 <= k < behind.len() ==> (#[trigger] behind[k]).len() > bound,
    ensures
        within_bound(queue + behind, bound) == within_bound(queue, bound),
    decreases queue.len() + behind.len(),
{
    let all = queue + behind;
    if queue.len() > 0 {
        assert(all.skip(1) =~= queue.skip(1) + behind);
        assert(all[0] == queue[0]);
        lemma_within_bound_behind(queue.skip(1), behind, bound);
    } else if behind.len() > 0 {
        assert(all =~= behind);
        assert(behind[0].len() > bound);
        assert forall|k: int| 0 <= k < behind.skip(1).len() implies (#[trigger] behind.skip(
            1,
        )[k]).len() > bound by {
            assert(behind.skip(1)[k] == behind[k + 1]);
        }
        assert(behind.skip(1) =~= Seq::<Seq<Step>>::empty() + behind.skip(1));
        lemma_within_bound_behind(Seq::empty(), behind.skip(1), bound);
    } else {
        assert(all =~= queue);
    }
}

/// No more partial proofs of a queue are extended than it has.
pub proof fn lemma_within_bound_len(queue: Seq<Seq<Step>>, bound: int)
    ensures
        within_bound(queue, bound) <= queue.len(),
    decreases queue.len(),
{
    if queue.len() > 0 {
        lemma_within_bound_len(queue.skip(1), bound);
    }
}

/// Whether a search has failed on too many lines or at a dead end.
pub open spec fn failed_for_want_of_a_proof(outcome: Result<Seq<Step>, SearchState>) -> bool {
    outcome == Err::<Seq<Step>, SearchState>(SearchState::MaximumLines) || outcome == Err::<
        Seq<Step>,
        SearchState,
    >(SearchState::DeadEnd)
}

/// A search for what does not follow, whose partial proofs have `least`
/// lines at least and may have no more to be extended, and whose budget
/// covers those that are extended, fails for want of a proof: what it
/// extends gives partial proofs that are too long.
pub proof fn lemma_last_level_fails(
    queue: Seq<Seq<Step>>,
    conclusion: Formula,
    settings: SearchSettings,
    spent: nat,
    too_long: bool,
    depth: nat,
    v: Valuation,
    least: int,
)
    requires
        !holds(conclusion, v),
        settings.max_line_length <= least,
        forall|k: int|
            0 <= k < queue.len() ==> all_hold(#[trigger] queue[k], v) && queue[k].len() >= least,
        spent + within_bound(queue, settings.max_line_length as int) <= settings.iterations,
    ensures
        failed_for_want_of_a_proof(
            search_from(queue, conclusion, settings, spent, too_long, depth),
        ),
    decreases settings.iterations - spent, queue.len(),
{
    let bound = settings.max_line_length as int;
    if queue.len() > 0 {
        let current = queue[0];
        let rest = queue.skip(1);
        assert(all_hold(current, v) && current.len() >= least);
        assert forall|k: int| 0 <= k < rest.len() implies all_hold(#[trigger] rest[k], v)
            && rest[k].len() >= least by {
            assert(rest[k] == queue[k + 1]);
        }
        if complete(current, conclusion) {
            let i = choose|i: int|
                0 <= i < current.len() && (#[trigger] current[i]).expression == conclusion;
            assert(holds(current[i].expression, v));
        } else if current.len() > settings.max_line_length {
            lemma_last_level_fails(rest, conclusion, settings, spent, true, depth, v, least);
        } else {
            assert(within_bound(queue, bound) >= 1);
            let found = candidates(current, conclusion, depth);
            lemma_candidates_in_order(current, conclusion, depth, v);
            lemma_candidates_nonempty(current, conclusion, depth);
            lemma_first_concluding_concludes(found, conclusion);
            lemma_first_concluding_listed(found, conclusion);
            if first_concluding(found, conclusion) is Some {
                let c = first_concluding(found, conclusion)->0;
                let k = choose|k: int| 0 <= k < found.len() && found[k] == c;
                assert(in_order(found[k], conclusion, v));
                if all_hold(c, v) {
                    assert(holds(c[c.len() - 1].expression, v));
                }
            }
            lemma_none_concludes(found, conclusion);
            let children = extensions(current, found);
            assert forall|k: int| 0 <= k < children.len() implies all_hold(
                #[trigger] children[k],
                v,
            ) && children[k].len() > bound by {
                let c = found[k];
                let grown = current + c;
                assert(children[k] == grown);
                assert(in_order(c, conclusion, v));
                assert(c.len() >= 1);
                assert forall|i: int| 0 <= i < grown.len() implies holds(
                    (#[trigger] grown[i]).expression,
                    v,
                ) by {
                    if i < current.len() {
                        assert(grown[i] == current[i]);
                    } else {
                        assert(grown[i] == c[i - current.len()]);
                    }
                }
            }
            let next = rest + children;
            lemma_within_bound_behind(rest, children, bound);
            assert forall|k: int| 0 <= k < next.len() implies all_hold(#[trigger] next[k], v)
                && next[k].len() >= least by {
                if k < rest.len() {
                    assert(next[k] == rest[k]);
                } else {
                    assert(next[k] == children[k - rest.len()]);
                }
            }
            lemma_last_level_fails(next, conclusion, settings, spent + 1, false, depth, v, least);
        }
    }
}

/// A search for what does not follow, which may extend the lines it begins
/// with and what these give but nothing longer, and whose budget covers
/// that, fails on too many lines or at a dead end, and not on its budget.
pub proof fn theorem_short_search_fails(
    lines: Seq<Step>,
    conclusion: Formula,
    settings: SearchSettings,
    depth: nat,
)
    requires
        refutable(lines, conclusion),
        settings.max_line_length <= lines.len() + 1,
        branching(lines, conclusion) < settings.iterations,
    ensures
        failed_for_want_of_a_proof(
            search_from(seq![lines], conclusion, settings, 0, false, depth),
        ),
{
    let v = choose|v: Valuation| #[trigger] all_hold(lines, v) && !holds(conclusion, v);
    let bound = settings.max_line_length as int;
    let queue = seq![lines];
    assert(queue.skip(1) =~= Seq::<Seq<Step>>::empty());
    if complete(lines, conclusion) {
        let i = choose|i: int|
            0 <= i < lines.len() && (#[trigger] lines[i]).expression == conclusion;
        assert(holds(lines[i].expression, v));
    } else if lines.len() > settings.max_line_length {
        theorem_failures(queue.skip(1), conclusion, settings, 0, true, depth);
    } else {
        let found = candidates(lines, conclusion, depth);
        lemma_candidates_len(lines, conclusion, depth);
        lemma_candidates_in_order(lines, conclusion, depth, v);
        lemma_candidates_nonempty(lines, conclusion, depth);
        lemma_first_concluding_concludes(found, conclusion);
        lemma_first_concluding_listed(found, conclusion);
        if first_concluding(found, conclusion) is Some {
            let c = first_concluding(found, conclusion)->0;
            let k = choose|k: int| 0 <= k < found.len() && found[k] == c;
            assert(in_order(found[k], conclusion, v));
            if all_hold(c, v) {
                assert(holds(c[c.len() - 1].expression, v));
            }
        }
        lemma_none_concludes(found, conclusion);
        let children = extensions(lines, found);
        let least = lines.len() as int + 1;
        assert forall|k: int| 0 <= k < children.len() implies all_hold(
            #[trigger] children[k],
            v,
        ) && children[k].len() >= least by {
            let c = found[k];
            let grown = lines + c;
            assert(children[k] == grown);
            assert(in_order(c, conclusion, v));
            assert(c.len() >= 1);
            assert forall|i: int| 0 <= i < grown.len() implies holds(
                (#[trigger] grown[i]).expression,
                v,
            ) by {
                if i < lines.len() {
                    assert(grown[i] == lines[i]);
                } else {
                    assert(grown[i] == c[i - lines.len()]);
                }
            }
        }
        let next = queue.skip(1) + children;
        assert(next =~= children);
        lemma_within_bound_len(children, bound);
        lemma_last_level_fails(children, conclusion, settings, 1, false, depth, v, least);
    }
}

} // verus!
