use crate::derivation::{
    and_elimination_at, and_introduction_at, assumption_numbers, conditional_splice, continues,
    derived, double_negation_add_at, double_negation_remove_at, extends,
    lemma_branches_continue, lemma_over_lines_all, lemma_over_pairs_all, modus_ponens_at,
    modus_tollens_at, number_before, numbered, numbers, one_step, or_introduction_at,
    or_introduction_names_at, or_introduction_with, or_splice, over_lines, over_pairs,
    pair_numbers, shifted, vocabulary, with_assumptions_of, Candidate,
};
use crate::expression::Formula;
use crate::lines::{Rule, Step};
use crate::sequences::{
    ascending, lemma_insert_all_ascending, lemma_insert_all_contains, strict_total,
};
use vstd::prelude::*;

verus! {

/// Whether lines of the rule assume something rather than derive it.
pub open spec fn assumes(rule: Rule) -> bool {
    rule == Rule::Assumption || rule == Rule::OrEliminationAssumption || rule
        == Rule::ConditionalProofAssumption
}

/// Whether line `d` is there and rests on the root assumption `a`.
pub open spec fn rests(lines: Seq<Step>, d: int, a: usize) -> bool {
    0 <= d < lines.len() && lines[d].assumption_lines.contains(a)
}

/// Whether one of the lines that line `m` cites rests on the root
/// assumption `a`.
pub open spec fn cited_rest_on(lines: Seq<Step>, m: int, a: usize) -> bool {
    exists|k: int|
        0 <= k < lines[m].deduction_lines.len() && #[trigger] rests(
            lines,
            lines[m].deduction_lines[k] as int,
            a,
        )
}

/// Whether line `m` rests on exactly what the lines that it cites rest on:
/// on nothing more and on nothing less, in ascending order and on each root
/// assumption once.
pub open spec fn rests_on_cited(lines: Seq<Step>, m: int) -> bool {
    &&& ascending(lines[m].assumption_lines, number_before())
    &&& forall|a: usize| #[trigger]
        lines[m].assumption_lines.contains(a) <==> cited_rest_on(lines, m, a)
}

/// Whether every line from `n` on that derives something rests on exactly
/// what the lines that it cites rest on.
pub open spec fn sound_from(lines: Seq<Step>, n: int) -> bool {
    forall|m: int|
        n <= m < lines.len() && !assumes(lines[m].rule) ==> #[trigger] rests_on_cited(lines, m)
}

/// Whether a candidate derives soundly from the lines.
pub open spec fn justified(lines: Seq<Step>, candidate: Candidate) -> bool {
    sound_from(lines + candidate, lines.len() as int)
}

/// Line numbers are ordered strictly and totally.
pub proof fn lemma_numbers_ordered()
    ensures
        strict_total(number_before()),
{
}

/// What a line rests on is a matter of the line and of the lines it cites:
/// a line that rests on exactly what it cites does so wherever the lines it
/// cites rest on the same.
pub proof fn lemma_rests_transfer(x: Seq<Step>, m: int, y: Seq<Step>, w: int)
    requires
        0 <= m < x.len(),
        0 <= w < y.len(),
        rests_on_cited(x, m),
        y[w].assumption_lines == x[m].assumption_lines,
        y[w].deduction_lines.len() == x[m].deduction_lines.len(),
        forall|k: int, a: usize|
            0 <= k < x[m].deduction_lines.len() ==> (#[trigger] rests(
                x,
                x[m].deduction_lines[k] as int,
                a,
            ) <==> rests(y, y[w].deduction_lines[k] as int, a)),
    ensures
        rests_on_cited(y, w),
{
    assert forall|a: usize| #[trigger]
        y[w].assumption_lines.contains(a) <==> cited_rest_on(y, w, a) by {
        assert(x[m].assumption_lines.contains(a) <==> cited_rest_on(x, m, a));
        if cited_rest_on(x, m, a) {
            let k = choose|k: int|
                0 <= k < x[m].deduction_lines.len() && #[trigger] rests(
                    x,
                    x[m].deduction_lines[k] as int,
                    a,
                );
            assert(rests(y, y[w].deduction_lines[k] as int, a));
        }
        if cited_rest_on(y, w, a) {
            let k = choose|k: int|
                0 <= k < y[w].deduction_lines.len() && #[trigger] rests(
                    y,
                    y[w].deduction_lines[k] as int,
                    a,
                );
            assert(rests(x, x[m].deduction_lines[k] as int, a));
        }
    }
}

/// What the lines in `cited` rest on, taken together.
pub proof fn lemma_assumption_numbers(lines: Seq<Step>, cited: Seq<usize>)
    ensures
        ascending(assumption_numbers(lines, cited), number_before()),
        forall|a: usize| #[trigger]
            assumption_numbers(lines, cited).contains(a) <==> exists|k: int|
                0 <= k < cited.len() && #[trigger] rests(lines, cited[k] as int, a),
    decreases cited.len(),
{
    lemma_numbers_ordered();
    if cited.len() > 0 {
        let init = cited.drop_last();
        let d = cited.last();
        lemma_assumption_numbers(lines, init);
        let before = assumption_numbers(lines, init);
        if d < lines.len() {
            lemma_insert_all_ascending(before, lines[d as int].assumption_lines, number_before());
        }
        assert forall|a: usize| #[trigger]
            assumption_numbers(lines, cited).contains(a) <==> exists|k: int|
                0 <= k < cited.len() && #[trigger] rests(lines, cited[k] as int, a) by {
            if d < lines.len() {
                lemma_insert_all_contains(
                    before,
                    lines[d as int].assumption_lines,
                    number_before(),
                    a,
                );
            }
            if assumption_numbers(lines, cited).contains(a) {
                if before.contains(a) {
                    let k = choose|k: int|
                        0 <= k < init.len() && #[trigger] rests(lines, init[k] as int, a);
                    assert(rests(lines, cited[k] as int, a));
                } else {
                    assert(rests(lines, cited[cited.len() - 1] as int, a));
                }
            }
            if exists|k: int| 0 <= k < cited.len() && #[trigger] rests(lines, cited[k] as int, a) {
                let k = choose|k: int|
                    0 <= k < cited.len() && #[trigger] rests(lines, cited[k] as int, a);
                if k < cited.len() - 1 {
                    assert(rests(lines, init[k] as int, a));
                }
            }
        }
    }
}

/// What the lines of a run rest on, taken together with a base.
pub proof fn lemma_with_assumptions_of(base: Seq<usize>, lines: Seq<Step>)
    requires
        ascending(base, number_before()),
    ensures
        ascending(with_assumptions_of(base, lines), number_before()),
        forall|a: usize| #[trigger]
            with_assumptions_of(base, lines).contains(a) <==> base.contains(a) || exists|k: int|
                #[trigger] rests(lines, k, a),
    decreases lines.len(),
{
    lemma_numbers_ordered();
    if lines.len() > 0 {
        let init = lines.drop_last();
        lemma_with_assumptions_of(base, init);
        let before = with_assumptions_of(base, init);
        lemma_insert_all_ascending(before, lines.last().assumption_lines, number_before());
        assert forall|a: usize| #[trigger]
            with_assumptions_of(base, lines).contains(a) <==> base.contains(a) || exists|k: int|
                #[trigger] rests(lines, k, a) by {
            lemma_insert_all_contains(before, lines.last().assumption_lines, number_before(), a);
            if with_assumptions_of(base, lines).contains(a) && !base.contains(a) {
                if before.contains(a) {
                    let k = choose|k: int| #[trigger] rests(init, k, a);
                    assert(rests(lines, k, a));
                } else {
                    assert(rests(lines, lines.len() - 1, a));
                }
            }
            if exists|k: int| #[trigger] rests(lines, k, a) {
                let k = choose|k: int| #[trigger] rests(lines, k, a);
                if k < lines.len() - 1 {
                    assert(rests(init, k, a));
                }
            }
        }
    }
}

/// A line that a one-step rule derives rests on exactly what it cites.
pub proof fn lemma_derived_justified(
    lines: Seq<Step>,
    expression: Formula,
    rule: Rule,
    cited: Seq<usize>,
)
    requires
        forall|d: int| 0 <= d < cited.len() ==> #[trigger] cited[d] < lines.len(),
    ensures
        justified(lines, seq![derived(lines, expression, rule, cited)]),
{
    let line = derived(lines, expression, rule, cited);
    let all = lines + seq![line];
    let m = lines.len() as int;
    lemma_assumption_numbers(lines, cited);
    assert(all[m] == line);
    assert forall|a: usize| #[trigger]
        all[m].assumption_lines.contains(a) <==> cited_rest_on(all, m, a) by {
        if all[m].assumption_lines.contains(a) {
            let k = choose|k: int|
                0 <= k < cited.len() && #[trigger] rests(lines, cited[k] as int, a);
            assert(all[cited[k] as int] == lines[cited[k] as int]);
            assert(rests(all, all[m].deduction_lines[k] as int, a));
        }
        if cited_rest_on(all, m, a) {
            let k = choose|k: int|
                0 <= k < all[m].deduction_lines.len() && #[trigger] rests(
                    all,
                    all[m].deduction_lines[k] as int,
                    a,
                );
            assert(all[cited[k] as int] == lines[cited[k] as int]);
            assert(rests(lines, cited[k] as int, a));
        }
    }
}

/// What the one-step rules derive from numbered lines is justified.
pub proof fn lemma_one_step_justified(lines: Seq<Step>, conclusion: Formula)
    requires
        numbered(lines),
    ensures
        forall|k: int|
            0 <= k < one_step(lines, conclusion).len() ==> justified(
                lines,
                #[trigger] one_step(lines, conclusion)[k],
            ),
{
    let n = lines.len() as int;
    let names = vocabulary(lines, conclusion);
    let holds = |c: Candidate| justified(lines, c);
    let mp = |i: int, j: int| modus_ponens_at(lines, i, j);
    let mt = |i: int, j: int| modus_tollens_at(lines, i, j);
    let ae = |i: int| and_elimination_at(lines, i);
    let ai = |i: int, j: int| and_introduction_at(lines, i, j);
    let oi = |i: int, j: int| or_introduction_at(lines, i, j);
    let ov = |i: int| or_introduction_names_at(lines, names, i);
    let dr = |i: int| double_negation_remove_at(lines, i);
    let da = |i: int| double_negation_add_at(lines, i);
    assert forall|i: int, j: int, e: Formula, r: Rule| 0 <= i < n && 0 <= j < n implies justified(
        lines,
        seq![#[trigger] derived(lines, e, r, pair_numbers(lines, i, j))],
    ) by {
        lemma_derived_justified(lines, e, r, pair_numbers(lines, i, j));
    }
    assert forall|i: int, e: Formula, r: Rule| 0 <= i < n implies justified(
        lines,
        seq![#[trigger] derived(lines, e, r, seq![lines[i].line_number])],
    ) by {
        lemma_derived_justified(lines, e, r, seq![lines[i].line_number]);
    }
    assert forall|i: int, j: int, k: int|
        0 <= i < n && 0 <= j < n && 0 <= k < mp(i, j).len() implies holds(
        #[trigger] mp(i, j)[k],
    ) by {
        assert(mp(i, j)[k] =~= seq![mp(i, j)[k][0]]);
    }
    lemma_over_pairs_all(n, mp, holds);
    assert forall|i: int, j: int, k: int|
        0 <= i < n && 0 <= j < n && 0 <= k < mt(i, j).len() implies holds(
        #[trigger] mt(i, j)[k],
    ) by {
        assert(mt(i, j)[k] =~= seq![mt(i, j)[k][0]]);
    }
    lemma_over_pairs_all(n, mt, holds);
    assert forall|i: int, k: int| 0 <= i < n && 0 <= k < ae(i).len() implies holds(
        #[trigger] ae(i)[k],
    ) by {
        assert(ae(i)[k] =~= seq![ae(i)[k][0]]);
    }
    lemma_over_lines_all(n, ae, holds);
    assert forall|i: int, j: int, k: int|
        0 <= i < n && 0 <= j < n && 0 <= k < ai(i, j).len() implies holds(
        #[trigger] ai(i, j)[k],
    ) by {
        assert(ai(i, j)[k] =~= seq![ai(i, j)[k][0]]);
    }
    lemma_over_pairs_all(n, ai, holds);
    assert forall|i: int, j: int, k: int|
        0 <= i < n && 0 <= j < n && 0 <= k < oi(i, j).len() implies holds(
        #[trigger] oi(i, j)[k],
    ) by {
        assert(oi(i, j)[k] =~= seq![oi(i, j)[k][0]]);
    }
    lemma_over_pairs_all(n, oi, holds);
    assert forall|i: int, k: int| 0 <= i < n && 0 <= k < ov(i).len() implies holds(
        #[trigger] ov(i)[k],
    ) by {
        let with = |v: int| or_introduction_with(lines, i, names[v]);
        assert forall|v: int, c: int|
            0 <= v < names.len() && 0 <= c < with(v).len() implies holds(
            #[trigger] with(v)[c],
        ) by {
            assert(with(v)[c] =~= seq![with(v)[c][0]]);
        }
        lemma_over_lines_all(names.len() as int, with, holds);
    }
    lemma_over_lines_all(n, ov, holds);
    assert forall|i: int, k: int| 0 <= i < n && 0 <= k < dr(i).len() implies holds(
        #[trigger] dr(i)[k],
    ) by {
        assert(dr(i)[k] =~= seq![dr(i)[k][0]]);
    }
    lemma_over_lines_all(n, dr, holds);
    assert forall|i: int, k: int| 0 <= i < n && 0 <= k < da(i).len() implies holds(
        #[trigger] da(i)[k],
    ) by {
        assert(da(i)[k] =~= seq![da(i)[k][0]]);
    }
    lemma_over_lines_all(n, da, holds);
    let all = one_step(lines, conclusion);
    assert forall|k: int| 0 <= k < all.len() implies justified(lines, #[trigger] all[k]) by {
        let a = over_pairs(n, mp);
        let b = over_pairs(n, mt);
        let c = over_lines(n, ae);
        let d = over_pairs(n, ai);
        let e = over_pairs(n, oi);
        let f = over_lines(n, ov);
        let g = over_lines(n, dr);
        let h = over_lines(n, da);
        assert(all == a + b + c + d + e + f + g + h);
        if k < a.len() {
            assert(holds(a[k]));
        } else if k < a.len() + b.len() {
            assert(holds(b[k - a.len()]));
        } else if k < a.len() + b.len() + c.len() {
            assert(holds(c[k - a.len() - b.len()]));
        } else if k < a.len() + b.len() + c.len() + d.len() {
            assert(holds(d[k - a.len() - b.len() - c.len()]));
        } else if k < a.len() + b.len() + c.len() + d.len() + e.len() {
            assert(holds(e[k - a.len() - b.len() - c.len() - d.len()]));
        } else if k < a.len() + b.len() + c.len() + d.len() + e.len() + f.len() {
            assert(holds(f[k - a.len() - b.len() - c.len() - d.len() - e.len()]));
        } else if k < a.len() + b.len() + c.len() + d.len() + e.len() + f.len() + g.len() {
            assert(holds(g[k - a.len() - b.len() - c.len() - d.len() - e.len() - f.len()]));
        } else {
            assert(holds(
                h[k - a.len() - b.len() - c.len() - d.len() - e.len() - f.len() - g.len()],
            ));
        }
    }
}

/// A sound extension of lines, soundly continued, is a sound extension.
pub proof fn lemma_sound_continued(root: Seq<Step>, lines: Seq<Step>, candidate: Candidate)
    requires
        extends(root, lines),
        sound_from(lines, root.len() as int),
        justified(lines, candidate),
    ensures
        sound_from(lines + candidate, root.len() as int),
{
    let all = lines + candidate;
    assert forall|m: int| root.len() <= m < all.len() && !assumes(all[m].rule) implies #[trigger]
    rests_on_cited(all, m) by {
        if m < lines.len() {
            assert(all[m] == lines[m]);
            assert(rests_on_cited(lines, m));
            let tail = lines.skip(root.len() as int);
            assert(lines[m] == tail[m - root.len()]);
            assert forall|k: int, a: usize|
                0 <= k < lines[m].deduction_lines.len() implies (#[trigger] rests(
                lines,
                lines[m].deduction_lines[k] as int,
                a,
            ) <==> rests(all, all[m].deduction_lines[k] as int, a)) by {
                let d = lines[m].deduction_lines[k] as int;
                assert(tail[m - root.len()].deduction_lines[k] < root.len() + (m - root.len()));
                assert(all[d] == lines[d]);
            }
            lemma_rests_transfer(lines, m, all, m);
        }
    }
}

/// The sub-proof that a rule found is justified from the lines that the rule
/// began with, if it is sound behind the line that the rule assumed.
pub proof fn lemma_sub_proof_justified(lines: Seq<Step>, found: Seq<Step>)
    requires
        lines.is_prefix_of(found),
        found.len() > lines.len(),
        assumes(found[lines.len() as int].rule),
        sound_from(found, lines.len() as int + 1),
    ensures
        justified(lines, found.skip(lines.len() as int)),
{
    assert(lines + found.skip(lines.len() as int) =~= found);
}

/// The candidate of an or-elimination is justified if its branches are.
pub proof fn lemma_or_splice_justified(
    lines: Seq<Step>,
    a: Seq<Step>,
    b: Seq<Step>,
    conclusion: Formula,
)
    requires
        a.len() > 0,
        lines.len() + a.len() + b.len() <= usize::MAX,
        continues(lines, a),
        continues(lines, b),
        justified(lines, a),
        justified(lines, b),
    ensures
        justified(lines, or_splice(lines, a, b, conclusion)),
{
    let n = lines.len() as int;
    let shift = a.len() as int;
    let moved = b.map_values(|s: Step| shifted(s, n, shift));
    let branches = a + moved;
    let candidate = or_splice(lines, a, b, conclusion);
    let last = candidate.last();
    let y = lines + candidate;
    let xa = lines + a;
    let xb = lines + b;
    assert(candidate == branches.push(last));
    assert forall|m: int| n <= m < y.len() && !assumes(y[m].rule) implies #[trigger]
    rests_on_cited(y, m) by {
        if m < n + shift {
            assert(y[m] == a[m - n]);
            assert(xa[m] == a[m - n]);
            assert(rests_on_cited(xa, m));
            assert forall|k: int, r: usize|
                0 <= k < xa[m].deduction_lines.len() implies (#[trigger] rests(
                xa,
                xa[m].deduction_lines[k] as int,
                r,
            ) <==> rests(y, y[m].deduction_lines[k] as int, r)) by {
                let d = xa[m].deduction_lines[k] as int;
                assert(a[m - n].deduction_lines[k] < n + (m - n));
                if d < n {
                    assert(xa[d] == lines[d] && y[d] == lines[d]);
                } else {
                    assert(xa[d] == a[d - n] && y[d] == a[d - n]);
                }
            }
            lemma_rests_transfer(xa, m, y, m);
        } else if m < n + branches.len() {
            let c = m - n - shift;
            let w = n + c;
            assert(y[m] == shifted(b[c], n, shift));
            assert(xb[w] == b[c]);
            assert(rests_on_cited(xb, w));
            assert forall|k: int, r: usize|
                0 <= k < xb[w].deduction_lines.len() implies (#[trigger] rests(
                xb,
                xb[w].deduction_lines[k] as int,
                r,
            ) <==> rests(y, y[m].deduction_lines[k] as int, r)) by {
                let d = xb[w].deduction_lines[k] as int;
                assert(b[c].deduction_lines[k] < n + c);
                if d < n {
                    assert(xb[d] == lines[d] && y[d] == lines[d]);
                } else {
                    assert(xb[d] == b[d - n]);
                    assert(y[d + shift] == shifted(b[d - n], n, shift));
                }
            }
            lemma_rests_transfer(xb, w, y, m);
        } else {
            assert(y[m] == last);
            let cited = seq![n as usize] + numbers(branches);
            assert forall|k: int| 0 <= k < cited.len() implies #[trigger] cited[k]
                >= lines.len() by {
                if k > 0 {
                    assert(cited[k] == branches[k - 1].line_number);
                    lemma_branches_continue(lines, a, b);
                }
            }
            lemma_branches_continue(lines, a, b);
            lemma_assumption_numbers_beyond(lines, cited);
            lemma_closing_rests(lines, branches, last, y, assumption_numbers(lines, cited));
        }
    }
}

/// A line that closes a block, and rests on what the lines of the block
/// rest on, rests on exactly what it cites.
pub proof fn lemma_closing_rests(
    lines: Seq<Step>,
    branches: Seq<Step>,
    last: Step,
    y: Seq<Step>,
    base: Seq<usize>,
)
    requires
        branches.len() > 0,
        lines.len() + branches.len() <= usize::MAX,
        continues(lines, branches),
        y == lines + branches.push(last),
        last.deduction_lines == seq![lines.len() as usize] + numbers(branches),
        forall|a: usize| !base.contains(a),
        last.assumption_lines == with_assumptions_of(base, branches),
    ensures
        rests_on_cited(y, lines.len() as int + branches.len()),
{
    let n = lines.len() as int;
    let m = n + branches.len();
    assert(ascending(base, number_before())) by {
        if base.len() > 0 {
            assert(base.contains(base[0]));
        }
    }
    lemma_with_assumptions_of(base, branches);
    assert(y[m] == last);
    let cited = last.deduction_lines;
    assert forall|a: usize| #[trigger]
        y[m].assumption_lines.contains(a) <==> cited_rest_on(y, m, a) by {
        if y[m].assumption_lines.contains(a) {
            let k = choose|k: int| #[trigger] rests(branches, k, a);
            assert(cited[k + 1] == branches[k].line_number);
            assert(y[n + k] == branches[k]);
            assert(rests(y, cited[k + 1] as int, a));
        }
        if cited_rest_on(y, m, a) {
            let k = choose|k: int|
                0 <= k < cited.len() && #[trigger] rests(y, cited[k] as int, a);
            if k == 0 {
                assert(y[n] == branches[0]);
                assert(rests(branches, 0, a));
            } else {
                assert(cited[k] == branches[k - 1].line_number);
                assert(y[n + k - 1] == branches[k - 1]);
                assert(rests(branches, k - 1, a));
            }
        }
    }
}

/// The candidate of a conditional proof is justified if its sub-proof is.
pub proof fn lemma_conditional_splice_justified(
    lines: Seq<Step>,
    sub: Seq<Step>,
    conclusion: Formula,
)
    requires
        sub.len() > 0,
        lines.len() + sub.len() <= usize::MAX,
        continues(lines, sub),
        justified(lines, sub),
    ensures
        justified(lines, conditional_splice(lines, sub, conclusion)),
{
    let n = lines.len() as int;
    let candidate = conditional_splice(lines, sub, conclusion);
    let last = candidate.last();
    let y = lines + candidate;
    let x = lines + sub;
    assert(candidate == sub.push(last));
    assert forall|m: int| n <= m < y.len() && !assumes(y[m].rule) implies #[trigger]
    rests_on_cited(y, m) by {
        if m < n + sub.len() {
            assert(y[m] == sub[m - n]);
            assert(x[m] == sub[m - n]);
            assert(rests_on_cited(x, m));
            assert forall|k: int, r: usize|
                0 <= k < x[m].deduction_lines.len() implies (#[trigger] rests(
                x,
                x[m].deduction_lines[k] as int,
                r,
            ) <==> rests(y, y[m].deduction_lines[k] as int, r)) by {
                let d = x[m].deduction_lines[k] as int;
                assert(sub[m - n].deduction_lines[k] < n + (m - n));
                if d < n {
                    assert(x[d] == lines[d] && y[d] == lines[d]);
                } else {
                    assert(x[d] == sub[d - n] && y[d] == sub[d - n]);
                }
            }
            lemma_rests_transfer(x, m, y, m);
        } else {
            assert(y[m] == last);
            lemma_closing_rests(lines, sub, last, y, Seq::<usize>::empty());
        }
    }
}

/// Cited lines that are not there add nothing to what a line rests on.
pub proof fn lemma_assumption_numbers_beyond(lines: Seq<Step>, cited: Seq<usize>)
    requires
        forall|k: int| 0 <= k < cited.len() ==> #[trigger] cited[k] >= lines.len(),
    ensures
        forall|a: usize| !assumption_numbers(lines, cited).contains(a),
{
    lemma_assumption_numbers(lines, cited);
}

} // verus!
