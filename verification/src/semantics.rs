use crate::derivation::{
    adds, and_elimination_at, and_introduction_at, candidates, complete, concludes,
    conditional_assumption, conditional_proof, conditional_splice, deductions, derivable,
    double_negation_add_at, double_negation_remove_at, extensions, first_concluding,
    inner_settings, lemma_over_lines_all, lemma_over_pairs_all, modus_ponens_at,
    modus_tollens_at, nesting, one_step, or_assumption, or_elimination, or_elimination_at,
    or_elimination_upto, or_introduction_at, or_introduction_names_at, or_introduction_with,
    or_splice, over_lines, over_pairs, search_from, search_result, vocabulary, Candidate,
};
use crate::expression::Formula;
use crate::lines::Step;
use crate::outcomes::lemma_first_concluding_concludes;
use crate::prover::SearchSettings;
use crate::sequences::{lemma_select_contains, select, theorem_distinct};
use crate::subproofs::lemma_first_concluding_listed;
use vstd::prelude::*;

verus! {

/// A valuation: the variables that are true.
pub type Valuation = Set<Seq<char>>;

/// Whether the formula is true under the valuation.
pub open spec fn holds(f: Formula, v: Valuation) -> bool
    decreases f,
{
    match f {
        Formula::And(l, r) => holds(*l, v) && holds(*r, v),
        Formula::Or(l, r) => holds(*l, v) || holds(*r, v),
        Formula::Implies(l, r) => holds(*l, v) ==> holds(*r, v),
        Formula::Not(e) => !holds(*e, v),
        Formula::Var(name) => v.contains(name),
    }
}

/// Whether what each of the lines establishes is true under the valuation.
pub open spec fn all_hold(lines: Seq<Step>, v: Valuation) -> bool {
    forall|i: int| 0 <= i < lines.len() ==> holds((#[trigger] lines[i]).expression, v)
}

/// Whether the conclusion does not follow from what the lines establish:
/// some valuation makes the lines true and the conclusion false.
pub open spec fn refutable(lines: Seq<Step>, conclusion: Formula) -> bool {
    exists|v: Valuation| #[trigger] all_hold(lines, v) && !holds(conclusion, v)
}

/// Whether a candidate is in order under a valuation: its lines are true,
/// or it closes a sub-proof with a conclusion that is true.
pub open spec fn in_order(candidate: Candidate, conclusion: Formula, v: Valuation) -> bool {
    all_hold(candidate, v) || (concludes(candidate, conclusion) && holds(conclusion, v))
}

/// Where no candidate is the first to establish the conclusion, none
/// establishes it.
pub proof fn lemma_none_concludes(found: Seq<Candidate>, conclusion: Formula)
    requires
        first_concluding(found, conclusion) is None,
    ensures
        forall|k: int| 0 <= k < found.len() ==> !concludes(#[trigger] found[k], conclusion),
    decreases found.len(),
{
    if found.len() > 0 {
        lemma_none_concludes(found.skip(1), conclusion);
        assert forall|k: int| 0 <= k < found.len() implies !concludes(
            #[trigger] found[k],
            conclusion,
        ) by {
            if k > 0 {
                assert(found[k] == found.skip(1)[k - 1]);
            }
        }
    }
}

/// What the one-step rules derive from true lines is true.
pub proof fn lemma_one_step_holds(lines: Seq<Step>, conclusion: Formula, v: Valuation)
    requires
        all_hold(lines, v),
    ensures
        forall|k: int|
            0 <= k < one_step(lines, conclusion).len() ==> all_hold(
                #[trigger] one_step(lines, conclusion)[k],
                v,
            ),
{
    let n = lines.len() as int;
    let names = vocabulary(lines, conclusion);
    let truly = |c: Candidate| all_hold(c, v);
    let mp = |i: int, j: int| modus_ponens_at(lines, i, j);
    let mt = |i: int, j: int| modus_tollens_at(lines, i, j);
    let ae = |i: int| and_elimination_at(lines, i);
    let ai = |i: int, j: int| and_introduction_at(lines, i, j);
    let oi = |i: int, j: int| or_introduction_at(lines, i, j);
    let ov = |i: int| or_introduction_names_at(lines, names, i);
    let dr = |i: int| double_negation_remove_at(lines, i);
    let da = |i: int| double_negation_add_at(lines, i);
    assert forall|i: int, j: int, k: int|
        0 <= i < n && 0 <= j < n && 0 <= k < mp(i, j).len() implies truly(
        #[trigger] mp(i, j)[k],
    ) by {
        assert(holds(lines[i].expression, v) && holds(lines[j].expression, v));
        assert(mp(i, j)[k].len() == 1);
    }
    lemma_over_pairs_all(n, mp, truly);
    assert forall|i: int, j: int, k: int|
        0 <= i < n && 0 <= j < n && 0 <= k < mt(i, j).len() implies truly(
        #[trigger] mt(i, j)[k],
    ) by {
        assert(holds(lines[i].expression, v) && holds(lines[j].expression, v));
        assert(mt(i, j)[k].len() == 1);
    }
    lemma_over_pairs_all(n, mt, truly);
    assert forall|i: int, k: int| 0 <= i < n && 0 <= k < ae(i).len() implies truly(
        #[trigger] ae(i)[k],
    ) by {
        assert(holds(lines[i].expression, v));
        assert(ae(i)[k].len() == 1);
    }
    lemma_over_lines_all(n, ae, truly);
    assert forall|i: int, j: int, k: int|
        0 <= i < n && 0 <= j < n && 0 <= k < ai(i, j).len() implies truly(
        #[trigger] ai(i, j)[k],
    ) by {
        assert(holds(lines[i].expression, v) && holds(lines[j].expression, v));
        assert(ai(i, j)[k].len() == 1);
    }
    lemma_over_pairs_all(n, ai, truly);
    assert forall|i: int, j: int, k: int|
        0 <= i < n && 0 <= j < n && 0 <= k < oi(i, j).len() implies truly(
        #[trigger] oi(i, j)[k],
    ) by {
        assert(holds(lines[i].expression, v) && holds(lines[j].expression, v));
        assert(oi(i, j)[k].len() == 1);
    }
    lemma_over_pairs_all(n, oi, truly);
    assert forall|i: int, k: int| 0 <= i < n && 0 <= k < ov(i).len() implies truly(
        #[trigger] ov(i)[k],
    ) by {
        let with = |w: int| or_introduction_with(lines, i, names[w]);
        assert forall|w: int, c: int|
            0 <= w < names.len() && 0 <= c < with(w).len() implies truly(
            #[trigger] with(w)[c],
        ) by {
            assert(holds(lines[i].expression, v));
            assert(with(w)[c].len() == 1);
        }
        lemma_over_lines_all(names.len() as int, with, truly);
    }
    lemma_over_lines_all(n, ov, truly);
    assert forall|i: int, k: int| 0 <= i < n && 0 <= k < dr(i).len() implies truly(
        #[trigger] dr(i)[k],
    ) by {
        assert(holds(lines[i].expression, v));
        match lines[i].expression {
            Formula::Not(inner) => {
                assert(!holds(*inner, v));
            },
            _ => {},
        }
        assert(dr(i)[k].len() == 1);
    }
    lemma_over_lines_all(n, dr, truly);
    assert forall|i: int, k: int| 0 <= i < n && 0 <= k < da(i).len() implies truly(
        #[trigger] da(i)[k],
    ) by {
        assert(holds(lines[i].expression, v));
        let once = Formula::Not(Box::new(lines[i].expression));
        assert(!holds(once, v));
        assert(da(i)[k].len() == 1);
    }
    lemma_over_lines_all(n, da, truly);
    let all = one_step(lines, conclusion);
    assert forall|k: int| 0 <= k < all.len() implies all_hold(#[trigger] all[k], v) by {
        let a = over_pairs(n, mp);
        let b = over_pairs(n, mt);
        let c = over_lines(n, ae);
        let d = over_pairs(n, ai);
        let e = over_pairs(n, oi);
        let f = over_lines(n, ov);
        let g = over_lines(n, dr);
        let h = over_lines(n, da);
        assert(all == a + b + c + d + e + f + g + h);
        if k < a.len() {
            assert(truly(a[k]));
        } else if k < a.len() + b.len() {
            assert(truly(b[k - a.len()]));
        } else if k < a.len() + b.len() + c.len() {
            assert(truly(c[k - a.len() - b.len()]));
        } else if k < a.len() + b.len() + c.len() + d.len() {
            assert(truly(d[k - a.len() - b.len() - c.len()]));
        } else if k < a.len() + b.len() + c.len() + d.len() + e.len() {
            assert(truly(e[k - a.len() - b.len() - c.len() - d.len()]));
        } else if k < a.len() + b.len() + c.len() + d.len() + e.len() + f.len() {
            assert(truly(f[k - a.len() - b.len() - c.len() - d.len() - e.len()]));
        } else if k < a.len() + b.len() + c.len() + d.len() + e.len() + f.len() + g.len() {
            assert(truly(g[k - a.len() - b.len() - c.len() - d.len() - e.len() - f.len()]));
        } else {
            assert(truly(
                h[k - a.len() - b.len() - c.len() - d.len() - e.len() - f.len() - g.len()],
            ));
        }
    }
}

/// What or-elimination derives from true lines before `n` closes a
/// sub-proof with a conclusion that is true: one side of the disjunction is
/// true, and the sub-proof from that side is sound.
pub proof fn lemma_or_elimination_holds(
    lines: Seq<Step>,
    conclusion: Formula,
    depth: nat,
    n: int,
    v: Valuation,
)
    requires
        all_hold(lines, v),
        n <= lines.len(),
    ensures
        forall|k: int|
            0 <= k < or_elimination_upto(lines, conclusion, depth, n).len() ==> in_order(
                #[trigger] or_elimination_upto(lines, conclusion, depth, n)[k],
                conclusion,
                v,
            ),
    decreases 2 * depth, 0nat, n,
{
    if n > 0 {
        lemma_or_elimination_holds(lines, conclusion, depth, n - 1, v);
        let init = or_elimination_upto(lines, conclusion, depth, n - 1);
        let at = or_elimination_at(lines, conclusion, depth, n - 1);
        let all = or_elimination_upto(lines, conclusion, depth, n);
        assert forall|k: int| 0 <= k < all.len() implies in_order(
            #[trigger] all[k],
            conclusion,
            v,
        ) by {
            if k < init.len() {
                assert(all[k] == init[k]);
            } else {
                assert(all[k] == at[k - init.len()]);
                assert(depth > 0);
                assert(holds(lines[n - 1].expression, v));
                match lines[n - 1].expression {
                    Formula::Or(left, right) => {
                        let assumed = or_assumption(lines, n - 1, *left);
                        let other = or_assumption(lines, n - 1, *right);
                        let first = search_from(
                            seq![lines.push(assumed)],
                            conclusion,
                            inner_settings(),
                            0,
                            false,
                            (depth - 1) as nat,
                        );
                        let second = search_from(
                            seq![lines.push(other)],
                            conclusion,
                            inner_settings(),
                            0,
                            false,
                            (depth - 1) as nat,
                        );
                        let c = or_splice(
                            lines,
                            deductions(first->Ok_0),
                            deductions(second->Ok_0),
                            conclusion,
                        );
                        assert(all[k] == c);
                        assert(concludes(c, conclusion));
                        if holds(*left, v) {
                            lemma_assumed_holds(lines, assumed, v);
                            theorem_search_is_sound(
                                seq![lines.push(assumed)],
                                conclusion,
                                inner_settings(),
                                0,
                                false,
                                (depth - 1) as nat,
                                v,
                            );
                        } else {
                            lemma_assumed_holds(lines, other, v);
                            theorem_search_is_sound(
                                seq![lines.push(other)],
                                conclusion,
                                inner_settings(),
                                0,
                                false,
                                (depth - 1) as nat,
                                v,
                            );
                        }
                    },
                    _ => {},
                }
            }
        }
    }
}

/// True lines with a true line behind them are true.
pub proof fn lemma_assumed_holds(lines: Seq<Step>, assumed: Step, v: Valuation)
    requires
        all_hold(lines, v),
        holds(assumed.expression, v),
    ensures
        forall|k: int|
            0 <= k < seq![lines.push(assumed)].len() ==> all_hold(
                #[trigger] seq![lines.push(assumed)][k],
                v,
            ),
{
    let grown = lines.push(assumed);
    assert forall|i: int| 0 <= i < grown.len() implies holds(
        (#[trigger] grown[i]).expression,
        v,
    ) by {
        if i < lines.len() {
            assert(grown[i] == lines[i]);
        }
    }
}

/// Every candidate for true lines is in order.
pub proof fn lemma_candidates_in_order(
    lines: Seq<Step>,
    conclusion: Formula,
    depth: nat,
    v: Valuation,
)
    requires
        all_hold(lines, v),
    ensures
        forall|k: int|
            0 <= k < candidates(lines, conclusion, depth).len() ==> in_order(
                #[trigger] candidates(lines, conclusion, depth)[k],
                conclusion,
                v,
            ),
    decreases 2 * depth, 1nat, 0nat,
{
    let simple = one_step(lines, conclusion);
    let ors = or_elimination(lines, conclusion, depth);
    let cps = conditional_proof(lines, conclusion, depth);
    let all = derivable(lines, conclusion, depth);
    let keep = |c: Candidate| adds(lines, c);
    let found = candidates(lines, conclusion, depth);
    lemma_one_step_holds(lines, conclusion, v);
    assert forall|k: int| 0 <= k < ors.len() implies in_order(#[trigger] ors[k], conclusion, v) by {
        lemma_or_elimination_holds(lines, conclusion, depth, lines.len() as int, v);
        let upto = or_elimination_upto(lines, conclusion, depth, lines.len() as int);
        assert(ors == upto);
        assert(in_order(upto[k], conclusion, v));
    }
    assert forall|k: int| 0 <= k < cps.len() implies in_order(#[trigger] cps[k], conclusion, v) by {
        match conclusion {
            Formula::Implies(left, right) => {
                let assumed = conditional_assumption(lines, *left);
                let sub = search_from(
                    seq![lines.push(assumed)],
                    *right,
                    inner_settings(),
                    0,
                    false,
                    (depth - 1) as nat,
                );
                let c = conditional_splice(lines, deductions(sub->Ok_0), conclusion);
                assert(cps[k] == c);
                assert(concludes(c, conclusion));
                if holds(*left, v) {
                    lemma_assumed_holds(lines, assumed, v);
                    theorem_search_is_sound(
                        seq![lines.push(assumed)],
                        *right,
                        inner_settings(),
                        0,
                        false,
                        (depth - 1) as nat,
                        v,
                    );
                }
            },
            _ => {},
        }
    }
    assert forall|k: int| 0 <= k < found.len() implies in_order(
        #[trigger] found[k],
        conclusion,
        v,
    ) by {
        let c = found[k];
        assert(found.contains(c));
        theorem_distinct(select(all, keep));
        lemma_select_contains(all, keep, c);
        let j = choose|j: int| 0 <= j < all.len() && all[j] == c;
        assert(all == simple + ors + cps);
        if j < simple.len() {
            assert(all[j] == simple[j]);
        } else if j < simple.len() + ors.len() {
            assert(all[j] == ors[j - simple.len()]);
        } else {
            assert(all[j] == cps[j - simple.len() - ors.len()]);
        }
    }
}

/// The rules are sound: a proof that a search finds from true lines
/// establishes a conclusion that is true.
pub proof fn theorem_search_is_sound(
    queue: Seq<Seq<Step>>,
    conclusion: Formula,
    settings: SearchSettings,
    spent: nat,
    too_long: bool,
    depth: nat,
    v: Valuation,
)
    requires
        forall|k: int| 0 <= k < queue.len() ==> all_hold(#[trigger] queue[k], v),
    ensures
        search_from(queue, conclusion, settings, spent, too_long, depth) is Ok ==> holds(
            conclusion,
            v,
        ),
    decreases 2 * depth + 1, settings.iterations - spent, queue.len(),
{
    if queue.len() > 0 {
        let current = queue[0];
        let rest = queue.skip(1);
        assert(all_hold(current, v));
        assert forall|k: int| 0 <= k < rest.len() implies all_hold(#[trigger] rest[k], v) by {
            assert(rest[k] == queue[k + 1]);
        }
        if complete(current, conclusion) {
            let i = choose|i: int|
                0 <= i < current.len() && (#[trigger] current[i]).expression == conclusion;
            assert(holds(current[i].expression, v));
        } else if current.len() > settings.max_line_length {
            theorem_search_is_sound(rest, conclusion, settings, spent, true, depth, v);
        } else if spent >= settings.iterations {
        } else {
            let found = candidates(current, conclusion, depth);
            lemma_candidates_in_order(current, conclusion, depth, v);
            match first_concluding(found, conclusion) {
                Some(c) => {
                    lemma_first_concluding_concludes(found, conclusion);
                    lemma_first_concluding_listed(found, conclusion);
                    let k = choose|k: int| 0 <= k < found.len() && found[k] == c;
                    assert(in_order(found[k], conclusion, v));
                    if all_hold(c, v) {
                        assert(holds(c[c.len() - 1].expression, v));
                    }
                },
                None => {
                    lemma_none_concludes(found, conclusion);
                    let next = rest + extensions(current, found);
                    assert forall|k: int| 0 <= k < next.len() implies all_hold(
                        #[trigger] next[k],
                        v,
                    ) by {
                        if k < rest.len() {
                            assert(next[k] == rest[k]);
                        } else {
                            let c = found[k - rest.len()];
                            let grown = current + c;
                            assert(next[k] == grown);
                            assert(in_order(c, conclusion, v));
                            assert(all_hold(c, v));
                            assert forall|i: int| 0 <= i < grown.len() implies holds(
                                (#[trigger] grown[i]).expression,
                                v,
                            ) by {
                                if i < current.len() {
                                    assert(grown[i] == current[i]);
                                } else {
                                    assert(grown[i] == c[i - current.len()]);
                                }
                            }
                        }
                    }
                    theorem_search_is_sound(
                        next,
                        conclusion,
                        settings,
                        spent + 1,
                        false,
                        depth,
                        v,
                    );
                },
            }
        }
    }
}

/// No proof is found of what does not follow: where a valuation makes the
/// lines true and the conclusion false, the search fails, whatever its
/// bounds are.
pub proof fn theorem_unprovable_fails(
    lines: Seq<Step>,
    conclusion: Formula,
    settings: SearchSettings,
    depth: nat,
)
    requires
        refutable(lines, conclusion),
    ensures
        search_from(seq![lines], conclusion, settings, 0, false, depth) is Err,
        search_result(lines, conclusion, settings) is Err,
{
    let v = choose|v: Valuation| #[trigger] all_hold(lines, v) && !holds(conclusion, v);
    let queue = seq![lines];
    assert forall|k: int| 0 <= k < queue.len() implies all_hold(#[trigger] queue[k], v) by {}
    theorem_search_is_sound(queue, conclusion, settings, 0, false, depth, v);
    theorem_search_is_sound(queue, conclusion, settings, 0, false, nesting(), v);
}

} // verus!
