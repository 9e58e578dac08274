use crate::expression::Formula;
use crate::lines::{Rule, Step};
use crate::prover::{SearchSettings, SearchState};
use crate::sequences::{distinct, insert_all, select};
use vstd::prelude::*;

verus! {

/// One way to extend a partial proof: the lines to append, in order.
pub type Candidate = Seq<Step>;

/// The order of line numbers.
pub open spec fn number_before() -> spec_fn(usize, usize) -> bool {
    |a: usize, b: usize| a < b
}

/// The order of variable names: by the first character in which two names
/// differ, a name before those that it begins.
pub open spec fn name_before() -> spec_fn(Seq<char>, Seq<char>) -> bool {
    |a: Seq<char>, b: Seq<char>| precedes(a, b)
}

/// Whether the name `a` stands before the name `b`.
pub open spec fn precedes(a: Seq<char>, b: Seq<char>) -> bool
    decreases a.len(),
{
    if b.len() == 0 {
        false
    } else if a.len() == 0 {
        true
    } else if a[0] != b[0] {
        a[0] < b[0]
    } else {
        precedes(a.skip(1), b.skip(1))
    }
}

/// The bounds of a search that a rule starts for a sub-proof.
pub open spec fn inner_settings() -> SearchSettings {
    SearchSettings { max_line_length: 15, iterations: 50000 }
}

/// Whether the lines are numbered by their positions.
pub open spec fn numbered(lines: Seq<Step>) -> bool {
    forall|i: int| 0 <= i < lines.len() ==> (#[trigger] lines[i]).line_number == i
}

/// Whether every line is a plain assumption.
pub open spec fn only_assumptions(lines: Seq<Step>) -> bool {
    forall|i: int| 0 <= i < lines.len() ==> (#[trigger] lines[i]).rule == Rule::Assumption
}

/// Whether some line establishes the conclusion.
pub open spec fn complete(lines: Seq<Step>, conclusion: Formula) -> bool {
    exists|i: int| 0 <= i < lines.len() && (#[trigger] lines[i]).expression == conclusion
}

/// The root assumptions on which a line derived from `deductions` rests:
/// those of the lines that `deductions` names, in ascending order, each
/// once.  A number that names no line adds nothing.
pub open spec fn assumption_numbers(lines: Seq<Step>, deductions: Seq<usize>) -> Seq<usize>
    decreases deductions.len(),
{
    if deductions.len() == 0 {
        Seq::empty()
    } else {
        let init = assumption_numbers(lines, deductions.drop_last());
        let d = deductions.last();
        if d < lines.len() {
            insert_all(init, lines[d as int].assumption_lines, number_before())
        } else {
            init
        }
    }
}

/// `base` with the root assumptions of each of `lines` put in.
pub open spec fn with_assumptions_of(base: Seq<usize>, lines: Seq<Step>) -> Seq<usize>
    decreases lines.len(),
{
    if lines.len() == 0 {
        base
    } else {
        insert_all(
            with_assumptions_of(base, lines.drop_last()),
            lines.last().assumption_lines,
            number_before(),
        )
    }
}

/// The line that a one-step rule derives: it goes behind `lines`, and rests
/// on what the lines in `deductions` rest on.
pub open spec fn derived(lines: Seq<Step>, expression: Formula, rule: Rule, deductions: Seq<usize>)
    -> Step {
    Step {
        assumption_lines: assumption_numbers(lines, deductions),
        line_number: lines.len() as usize,
        expression,
        rule,
        deduction_lines: deductions,
    }
}

/// The candidates of a rule that looks at one line, for the lines before
/// `n`, in the order of the lines.
pub open spec fn over_lines(n: int, rule: spec_fn(int) -> Seq<Candidate>) -> Seq<Candidate>
    decreases n,
{
    if n <= 0 {
        Seq::empty()
    } else {
        over_lines(n - 1, rule) + rule(n - 1)
    }
}

/// The candidates of a rule that looks at an ordered pair of lines, a line
/// with itself included: all pairs with the first second line, then all
/// with the next.
pub open spec fn over_pairs(n: int, rule: spec_fn(int, int) -> Seq<Candidate>) -> Seq<Candidate> {
    over_lines(n, |j: int| over_lines(n, |i: int| rule(i, j)))
}

/// The two numbers of a pair of lines.
pub open spec fn pair_numbers(lines: Seq<Step>, i: int, j: int) -> Seq<usize> {
    seq![lines[i].line_number, lines[j].line_number]
}

/// From `P -> Q` in line `i` and `P` in line `j`: `Q`.
pub open spec fn modus_ponens_at(lines: Seq<Step>, i: int, j: int) -> Seq<Candidate> {
    match lines[i].expression {
        Formula::Implies(p, q) => if lines[j].expression == *p {
            seq![seq![derived(lines, *q, Rule::ModusPonens, pair_numbers(lines, i, j))]]
        } else {
            Seq::empty()
        },
        _ => Seq::empty(),
    }
}

/// From `P -> Q` in line `i` and `~Q` in line `j`: `~P`.
pub open spec fn modus_tollens_at(lines: Seq<Step>, i: int, j: int) -> Seq<Candidate> {
    match lines[i].expression {
        Formula::Implies(p, q) => if lines[j].expression == Formula::Not(q) {
            seq![
                seq![
                    derived(
                        lines,
                        Formula::Not(p),
                        Rule::ModusTollens,
                        pair_numbers(lines, i, j),
                    ),
                ],
            ]
        } else {
            Seq::empty()
        },
        _ => Seq::empty(),
    }
}

/// From `P & Q` in line `i`: `P`, and `Q`.
pub open spec fn and_elimination_at(lines: Seq<Step>, i: int) -> Seq<Candidate> {
    match lines[i].expression {
        Formula::And(p, q) => seq![
            seq![derived(lines, *p, Rule::AndElimination, seq![lines[i].line_number])],
            seq![derived(lines, *q, Rule::AndElimination, seq![lines[i].line_number])],
        ],
        _ => Seq::empty(),
    }
}

/// From lines `i` and `j`: their conjunction.
pub open spec fn and_introduction_at(lines: Seq<Step>, i: int, j: int) -> Seq<Candidate> {
    seq![
        seq![
            derived(
                lines,
                Formula::And(Box::new(lines[i].expression), Box::new(lines[j].expression)),
                Rule::AndIntroduction,
                pair_numbers(lines, i, j),
            ),
        ],
    ]
}

/// From lines `i` and `j`: their disjunction.
pub open spec fn or_introduction_at(lines: Seq<Step>, i: int, j: int) -> Seq<Candidate> {
    seq![
        seq![
            derived(
                lines,
                Formula::Or(Box::new(lines[i].expression), Box::new(lines[j].expression)),
                Rule::OrIntroduction,
                pair_numbers(lines, i, j),
            ),
        ],
    ]
}

/// From line `i`: its disjunction with the variable `name`, on the right and
/// on the left.
pub open spec fn or_introduction_with(lines: Seq<Step>, i: int, name: Seq<char>) -> Seq<
    Candidate,
> {
    seq![
        seq![
            derived(
                lines,
                Formula::Or(Box::new(lines[i].expression), Box::new(Formula::Var(name))),
                Rule::OrIntroduction,
                seq![lines[i].line_number],
            ),
        ],
        seq![
            derived(
                lines,
                Formula::Or(Box::new(Formula::Var(name)), Box::new(lines[i].expression)),
                Rule::OrIntroduction,
                seq![lines[i].line_number],
            ),
        ],
    ]
}

/// From line `i`: its disjunctions with each of the variables `names`.
pub open spec fn or_introduction_names_at(lines: Seq<Step>, names: Seq<Seq<char>>, i: int) -> Seq<
    Candidate,
> {
    over_lines(names.len() as int, |k: int| or_introduction_with(lines, i, names[k]))
}

/// From `~~P` in line `i`: `P`.
pub open spec fn double_negation_remove_at(lines: Seq<Step>, i: int) -> Seq<Candidate> {
    match lines[i].expression {
        Formula::Not(inner) => match *inner {
            Formula::Not(p) => seq![
                seq![derived(lines, *p, Rule::DoubleNegation, seq![lines[i].line_number])],
            ],
            _ => Seq::empty(),
        },
        _ => Seq::empty(),
    }
}

/// From line `i`: its double negation.
pub open spec fn double_negation_add_at(lines: Seq<Step>, i: int) -> Seq<Candidate> {
    seq![
        seq![
            derived(
                lines,
                Formula::Not(Box::new(Formula::Not(Box::new(lines[i].expression)))),
                Rule::DoubleNegation,
                seq![lines[i].line_number],
            ),
        ],
    ]
}

/// What the rule `rule`, one of those that look at a pair of lines, derives
/// from lines `i` and `j`.
pub open spec fn pair_rule_at(lines: Seq<Step>, rule: Rule, i: int, j: int) -> Seq<Candidate> {
    match rule {
        Rule::ModusPonens => modus_ponens_at(lines, i, j),
        Rule::ModusTollens => modus_tollens_at(lines, i, j),
        Rule::AndIntroduction => and_introduction_at(lines, i, j),
        Rule::OrIntroduction => or_introduction_at(lines, i, j),
        _ => Seq::empty(),
    }
}

/// The names of the variables of a formula, in the order in which the
/// sub-formulas list them.
pub open spec fn names_in(subformulas: Seq<Formula>) -> Seq<Seq<char>>
    decreases subformulas.len(),
{
    if subformulas.len() == 0 {
        Seq::empty()
    } else {
        let init = names_in(subformulas.drop_last());
        match subformulas.last() {
            Formula::Var(name) => init.push(name),
            _ => init,
        }
    }
}

/// `names` with the variables of `f`, in ascending order, each once.
pub open spec fn with_names_of(names: Seq<Seq<char>>, f: Formula) -> Seq<Seq<char>> {
    insert_all(
        insert_all(Seq::empty(), names, name_before()),
        names_in(distinct(f.subformulas())),
        name_before(),
    )
}

/// The variables of the first `n` lines, in ascending order.
pub open spec fn names_of_lines(lines: Seq<Step>, n: int) -> Seq<Seq<char>>
    decreases n,
{
    if n <= 0 {
        Seq::empty()
    } else {
        with_names_of(names_of_lines(lines, n - 1), lines[n - 1].expression)
    }
}

/// Every variable that occurs in the lines or in the conclusion, in
/// ascending order.
pub open spec fn vocabulary(lines: Seq<Step>, conclusion: Formula) -> Seq<Seq<char>> {
    with_names_of(names_of_lines(lines, lines.len() as int), conclusion)
}

/// What the rules that take one step derive from the lines.
pub open spec fn one_step(lines: Seq<Step>, conclusion: Formula) -> Seq<Candidate> {
    let n = lines.len() as int;
    let names = vocabulary(lines, conclusion);
    over_pairs(n, |i: int, j: int| modus_ponens_at(lines, i, j)) + over_pairs(
        n,
        |i: int, j: int| modus_tollens_at(lines, i, j),
    ) + over_lines(n, |i: int| and_elimination_at(lines, i)) + over_pairs(
        n,
        |i: int, j: int| and_introduction_at(lines, i, j),
    ) + over_pairs(n, |i: int, j: int| or_introduction_at(lines, i, j)) + over_lines(
        n,
        |i: int| or_introduction_names_at(lines, names, i),
    ) + over_lines(n, |i: int| double_negation_remove_at(lines, i)) + over_lines(
        n,
        |i: int| double_negation_add_at(lines, i),
    )
}

/// Whether line `k`, an assumption that opens a block, is discharged by a
/// later line of the rule `discharge`.
pub open spec fn discharged(lines: Seq<Step>, k: int, discharge: Rule) -> bool {
    exists|j: int|
        lines[k].line_number <= j < lines.len() && (#[trigger] lines[j]).rule == discharge
            && lines[j].deduction_lines.contains(lines[k].line_number)
}

/// Whether a block that an assumption of the rule `opening` opened is still
/// open.
pub open spec fn block_open(lines: Seq<Step>, opening: Rule, discharge: Rule) -> bool {
    exists|k: int|
        0 <= k < lines.len() && (#[trigger] lines[k]).rule == opening && !discharged(
            lines,
            k,
            discharge,
        )
}

/// Lines among which a block is open are not all plain assumptions: the
/// line that opened the block is none.
pub proof fn lemma_open_block_is_no_assumption(lines: Seq<Step>, opening: Rule, discharge: Rule)
    requires
        opening != Rule::Assumption,
    ensures
        block_open(lines, opening, discharge) ==> !only_assumptions(lines),
{
    if block_open(lines, opening, discharge) {
        let k = choose|k: int|
            0 <= k < lines.len() && (#[trigger] lines[k]).rule == opening && !discharged(
                lines,
                k,
                discharge,
            );
        assert(lines[k].rule != Rule::Assumption);
    }
}

/// The lines that are no plain assumptions.
pub open spec fn deductions(lines: Seq<Step>) -> Seq<Step> {
    select(lines, |s: Step| s.rule != Rule::Assumption)
}

/// A line of a second branch, moved behind a first branch of `shift` lines:
/// its number, and what it cites of the lines from `n` on.
pub open spec fn shifted(s: Step, n: int, shift: int) -> Step {
    Step {
        assumption_lines: s.assumption_lines,
        line_number: (s.line_number + shift) as usize,
        expression: s.expression,
        rule: s.rule,
        deduction_lines: s.deduction_lines.map_values(
            |d: usize|
                if d >= n {
                    (d + shift) as usize
                } else {
                    d
                },
        ),
    }
}

/// The numbers of the lines.
pub open spec fn numbers(lines: Seq<Step>) -> Seq<usize> {
    lines.map_values(|s: Step| s.line_number)
}

/// The candidate of an or-elimination: the lines of the first branch, those
/// of the second moved behind them, and the conclusion, which cites the
/// first assumed line and every line of the two branches and rests on what
/// they rest on.
pub open spec fn or_splice(lines: Seq<Step>, a: Seq<Step>, b: Seq<Step>, conclusion: Formula)
    -> Candidate {
    let n = lines.len() as int;
    let branches = a + b.map_values(|s: Step| shifted(s, n, a.len() as int));
    let cited = seq![n as usize] + numbers(branches);
    branches.push(
        Step {
            assumption_lines: with_assumptions_of(assumption_numbers(lines, cited), branches),
            line_number: (n + branches.len()) as usize,
            expression: conclusion,
            rule: Rule::OrElimination,
            deduction_lines: cited,
        },
    )
}

/// The line that assumes one side of the disjunction in line `i`.
pub open spec fn or_assumption(lines: Seq<Step>, i: int, side: Formula) -> Step {
    Step {
        assumption_lines: seq![lines[i].line_number],
        line_number: lines.len() as usize,
        expression: side,
        rule: Rule::OrEliminationAssumption,
        deduction_lines: seq![lines[i].line_number],
    }
}

/// The line that assumes the left side of an implication to be proved.
pub open spec fn conditional_assumption(lines: Seq<Step>, left: Formula) -> Step {
    Step {
        assumption_lines: seq![lines.len() as usize],
        line_number: lines.len() as usize,
        expression: left,
        rule: Rule::ConditionalProofAssumption,
        deduction_lines: Seq::empty(),
    }
}

/// The candidate of a conditional proof: the lines of the sub-proof and the
/// implication, which cites the assumed line and every line of the sub-proof
/// and rests on what they rest on.
pub open spec fn conditional_splice(lines: Seq<Step>, sub: Seq<Step>, conclusion: Formula)
    -> Candidate {
    let n = lines.len() as int;
    sub.push(
        Step {
            assumption_lines: with_assumptions_of(Seq::empty(), sub),
            line_number: (sub.last().line_number + 1) as usize,
            expression: conclusion,
            rule: Rule::ConditionalProof,
            deduction_lines: seq![n as usize] + numbers(sub),
        },
    )
}

/// Whether a candidate adds something: none of its lines establishes what a
/// line of the proof establishes already.
pub open spec fn adds(lines: Seq<Step>, candidate: Candidate) -> bool {
    forall|i: int, k: int|
        0 <= i < lines.len() && 0 <= k < candidate.len() ==> (#[trigger] lines[i]).expression != (
        #[trigger] candidate[k]).expression
}

/// Whether the last line of a candidate establishes the conclusion.
pub open spec fn concludes(candidate: Candidate, conclusion: Formula) -> bool {
    candidate.len() > 0 && candidate.last().expression == conclusion
}

/// The first candidate that establishes the conclusion, if there is one.
pub open spec fn first_concluding(candidates: Seq<Candidate>, conclusion: Formula) -> Option<
    Candidate,
>
    decreases candidates.len(),
{
    if candidates.len() == 0 {
        None
    } else if concludes(candidates[0], conclusion) {
        Some(candidates[0])
    } else {
        first_concluding(candidates.skip(1), conclusion)
    }
}

/// The partial proofs that the candidates make of `lines`.
pub open spec fn extensions(lines: Seq<Step>, candidates: Seq<Candidate>) -> Seq<Seq<Step>> {
    candidates.map_values(|c: Candidate| lines + c)
}

/// How deep sub-proofs may nest in a search that no rule has asked for: a
/// block of or-elimination and a block of a conditional proof, at most one
/// of each open at a time, make two levels.
pub open spec fn nesting() -> nat {
    2
}

/// What an or-elimination on line `i` derives: with each side of the
/// disjunction assumed in turn, a sub-proof of the conclusion is searched
/// for; where both are found they are spliced.  The sub-proofs may nest
/// `depth` levels less one.
pub open spec fn or_elimination_at(lines: Seq<Step>, conclusion: Formula, depth: nat, i: int)
    -> Seq<Candidate>
    decreases 2 * depth, 0nat, 0nat,
{
    if depth == 0 {
        Seq::empty()
    } else {
        match lines[i].expression {
            Formula::Or(left, right) => match search_from(
                seq![lines.push(or_assumption(lines, i, *left))],
                conclusion,
                inner_settings(),
                0,
                false,
                (depth - 1) as nat,
            ) {
                Err(_) => Seq::empty(),
                Ok(first) => match search_from(
                    seq![lines.push(or_assumption(lines, i, *right))],
                    conclusion,
                    inner_settings(),
                    0,
                    false,
                    (depth - 1) as nat,
                ) {
                    Err(_) => Seq::empty(),
                    Ok(second) => seq![
                        or_splice(lines, deductions(first), deductions(second), conclusion),
                    ],
                },
            },
            _ => Seq::empty(),
        }
    }
}

/// What or-elimination derives from the lines before `n`, in their order.
pub open spec fn or_elimination_upto(lines: Seq<Step>, conclusion: Formula, depth: nat, n: int)
    -> Seq<Candidate>
    decreases 2 * depth, 1nat, n,
{
    if n <= 0 {
        Seq::empty()
    } else {
        or_elimination_upto(lines, conclusion, depth, n - 1) + or_elimination_at(
            lines,
            conclusion,
            depth,
            n - 1,
        )
    }
}

/// What or-elimination derives.  The rule stands back while a block of its
/// own is open, and where sub-proofs may nest no deeper.
pub open spec fn or_elimination(lines: Seq<Step>, conclusion: Formula, depth: nat) -> Seq<
    Candidate,
>
    decreases 2 * depth, 2nat, 0nat,
{
    if depth == 0 || block_open(lines, Rule::OrEliminationAssumption, Rule::OrElimination) {
        Seq::empty()
    } else {
        or_elimination_upto(lines, conclusion, depth, lines.len() as int)
    }
}

/// What a conditional proof derives, where the conclusion is an implication:
/// with its left side assumed, a sub-proof of its right side is searched
/// for.  The rule stands back as or-elimination does.
pub open spec fn conditional_proof(lines: Seq<Step>, conclusion: Formula, depth: nat) -> Seq<
    Candidate,
>
    decreases 2 * depth, 2nat, 0nat,
{
    match conclusion {
        Formula::Implies(left, right) => if depth == 0 || block_open(
            lines,
            Rule::ConditionalProofAssumption,
            Rule::ConditionalProof,
        ) {
            Seq::empty()
        } else {
            match search_from(
                seq![lines.push(conditional_assumption(lines, *left))],
                *right,
                inner_settings(),
                0,
                false,
                (depth - 1) as nat,
            ) {
                Err(_) => Seq::empty(),
                Ok(found) => seq![conditional_splice(lines, deductions(found), conclusion)],
            }
        },
        _ => Seq::empty(),
    }
}

/// What the rules derive from the lines, in the order of the rules.
pub open spec fn derivable(lines: Seq<Step>, conclusion: Formula, depth: nat) -> Seq<Candidate>
    decreases 2 * depth, 3nat, 0nat,
{
    one_step(lines, conclusion) + or_elimination(lines, conclusion, depth) + conditional_proof(
        lines,
        conclusion,
        depth,
    )
}

/// Every way to extend the lines by one rule: what the rules derive,
/// without the candidates that add nothing and with each candidate once.
pub open spec fn candidates(lines: Seq<Step>, conclusion: Formula, depth: nat) -> Seq<Candidate>
    decreases 2 * depth, 4nat, 0nat,
{
    distinct(select(derivable(lines, conclusion, depth), |c: Candidate| adds(lines, c)))
}

/// How a breadth-first search ends that has `queue` still to examine and has
/// extended `spent` partial proofs.  The first partial proof of the queue is
/// examined: if it is complete it is the result; if it is too long it is
/// dropped; else it counts against the budget and is extended.  If one of
/// its candidates establishes the conclusion, the first such candidate ends
/// the search; else each candidate puts one partial proof at the back of the
/// queue.  When the queue runs out the search has failed: on too many lines
/// if the partial proof examined last was too long, at a dead end if not.
/// Sub-proofs may nest `depth` levels deep.
pub open spec fn search_from(
    queue: Seq<Seq<Step>>,
    conclusion: Formula,
    settings: SearchSettings,
    spent: nat,
    too_long: bool,
    depth: nat,
) -> Result<Seq<Step>, SearchState>
    decreases 2 * depth + 1, settings.iterations - spent, queue.len(),
{
    if queue.len() == 0 {
        Err(
            if too_long {
                SearchState::MaximumLines
            } else {
                SearchState::DeadEnd
            },
        )
    } else {
        let current = queue[0];
        let rest = queue.skip(1);
        if complete(current, conclusion) {
            Ok(current)
        } else if current.len() > settings.max_line_length {
            search_from(rest, conclusion, settings, spent, true, depth)
        } else if spent >= settings.iterations {
            Err(SearchState::MaximumIteration)
        } else {
            let found = candidates(current, conclusion, depth);
            match first_concluding(found, conclusion) {
                Some(c) => Ok(current + c),
                None => search_from(
                    rest + extensions(current, found),
                    conclusion,
                    settings,
                    spent + 1,
                    false,
                    depth,
                ),
            }
        }
    }
}

/// How the search for a proof of `conclusion` from `lines` ends.
pub open spec fn search_result(lines: Seq<Step>, conclusion: Formula, settings: SearchSettings)
    -> Result<Seq<Step>, SearchState> {
    search_from(seq![lines], conclusion, settings, 0, false, nesting())
}

/// Whether a candidate continues the lines as a proof does: its lines are
/// numbered on from theirs, none is a plain assumption, and each cites
/// lines before it.
pub open spec fn continues(lines: Seq<Step>, candidate: Candidate) -> bool {
    forall|k: int|
        0 <= k < candidate.len() ==> {
            &&& (#[trigger] candidate[k]).line_number == lines.len() + k
            &&& candidate[k].rule != Rule::Assumption
            &&& forall|d: int|
                0 <= d < candidate[k].deduction_lines.len() ==> (
                #[trigger] candidate[k].deduction_lines[d]) < lines.len() + k
        }
}

/// Whether `lines` is `root` continued.
pub open spec fn extends(root: Seq<Step>, lines: Seq<Step>) -> bool {
    root.is_prefix_of(lines) && continues(root, lines.skip(root.len() as int))
}

/// Lines extend themselves.
pub proof fn lemma_extends_self(root: Seq<Step>)
    ensures
        extends(root, root),
{
}

/// A continuation of an extension of `root` extends `root`.
pub proof fn lemma_extends_continued(root: Seq<Step>, lines: Seq<Step>, candidate: Candidate)
    requires
        extends(root, lines),
        continues(lines, candidate),
    ensures
        extends(root, lines + candidate),
{
    let all = lines + candidate;
    let tail = all.skip(root.len() as int);
    assert forall|k: int| 0 <= k < tail.len() implies {
        &&& (#[trigger] tail[k]).line_number == root.len() + k
        &&& tail[k].rule != Rule::Assumption
        &&& forall|d: int|
            0 <= d < tail[k].deduction_lines.len() ==> (#[trigger] tail[k].deduction_lines[d])
                < root.len() + k
    } by {
        if root.len() + k < lines.len() {
            assert(tail[k] == lines.skip(root.len() as int)[k]);
        } else {
            assert(tail[k] == candidate[root.len() + k - lines.len()]);
        }
    }
}

/// An extension of numbered lines is numbered.
pub proof fn lemma_extends_numbered(root: Seq<Step>, lines: Seq<Step>)
    requires
        numbered(root),
        extends(root, lines),
    ensures
        numbered(lines),
{
    assert forall|i: int| 0 <= i < lines.len() implies (#[trigger] lines[i]).line_number == i by {
        if i < root.len() {
            assert(lines[i] == root[i]);
        } else {
            assert(lines[i] == lines.skip(root.len() as int)[i - root.len()]);
        }
    }
}

/// Of lines that continue a run of plain assumptions, those that are no
/// plain assumptions are the continuation.
pub proof fn lemma_deductions_of_extension(lines: Seq<Step>, found: Seq<Step>)
    requires
        only_assumptions(lines),
        extends(lines, found),
    ensures
        deductions(found) == found.skip(lines.len() as int),
    decreases found.len(),
{
    let keep = |s: Step| s.rule != Rule::Assumption;
    if found.len() == lines.len() {
        assert(found =~= lines);
        lemma_deductions_none(lines);
        assert(found.skip(lines.len() as int) =~= Seq::<Step>::empty());
    } else {
        let init = found.drop_last();
        assert(extends(lines, init)) by {
            let tail = init.skip(lines.len() as int);
            assert forall|k: int| 0 <= k < tail.len() implies {
                &&& (#[trigger] tail[k]).line_number == lines.len() + k
                &&& tail[k].rule != Rule::Assumption
                &&& forall|d: int|
                    0 <= d < tail[k].deduction_lines.len() ==> (
                    #[trigger] tail[k].deduction_lines[d]) < lines.len() + k
            } by {
                assert(tail[k] == found.skip(lines.len() as int)[k]);
            }
        }
        lemma_deductions_of_extension(lines, init);
        assert(found.last() == found.skip(lines.len() as int)[found.len() - lines.len() - 1]);
        assert(found.skip(lines.len() as int) =~= init.skip(lines.len() as int).push(
            found.last(),
        ));
    }
}

/// Plain assumptions hold no deductions.
pub proof fn lemma_deductions_none(lines: Seq<Step>)
    requires
        only_assumptions(lines),
    ensures
        deductions(lines) == Seq::<Step>::empty(),
    decreases lines.len(),
{
    if lines.len() > 0 {
        assert(only_assumptions(lines.drop_last())) by {
            assert forall|i: int| 0 <= i < lines.drop_last().len() implies (
            #[trigger] lines.drop_last()[i]).rule == Rule::Assumption by {
                assert(lines.drop_last()[i] == lines[i]);
            }
        }
        lemma_deductions_none(lines.drop_last());
    }
}

/// What holds of every candidate that a rule derives from one line, or from
/// one name, holds of all that it derives.
pub proof fn lemma_over_lines_all(
    n: int,
    rule: spec_fn(int) -> Seq<Candidate>,
    holds: spec_fn(Candidate) -> bool,
)
    requires
        forall|i: int, k: int|
            0 <= i < n && 0 <= k < rule(i).len() ==> holds(#[trigger] rule(i)[k]),
    ensures
        forall|k: int|
            0 <= k < over_lines(n, rule).len() ==> holds(#[trigger] over_lines(n, rule)[k]),
    decreases n,
{
    if n > 0 {
        lemma_over_lines_all(n - 1, rule, holds);
        let init = over_lines(n - 1, rule);
        assert forall|k: int| 0 <= k < over_lines(n, rule).len() implies holds(
            #[trigger] over_lines(n, rule)[k],
        ) by {
            if k < init.len() {
                assert(over_lines(n, rule)[k] == init[k]);
            } else {
                assert(over_lines(n, rule)[k] == rule(n - 1)[k - init.len()]);
            }
        }
    }
}

/// What holds of every candidate that a rule derives from a pair of lines
/// holds of all that it derives.
pub proof fn lemma_over_pairs_all(
    n: int,
    rule: spec_fn(int, int) -> Seq<Candidate>,
    holds: spec_fn(Candidate) -> bool,
)
    requires
        forall|i: int, j: int, k: int|
            0 <= i < n && 0 <= j < n && 0 <= k < rule(i, j).len() ==> holds(
                #[trigger] rule(i, j)[k],
            ),
    ensures
        forall|k: int|
            0 <= k < over_pairs(n, rule).len() ==> holds(#[trigger] over_pairs(n, rule)[k]),
{
    let rows = |j: int| over_lines(n, |i: int| rule(i, j));
    assert forall|j: int, k: int| 0 <= j < n && 0 <= k < rows(j).len() implies holds(
        #[trigger] rows(j)[k],
    ) by {
        let row = |i: int| rule(i, j);
        assert forall|i: int, c: int| 0 <= i < n && 0 <= c < row(i).len() implies holds(
            #[trigger] row(i)[c],
        ) by {
            assert(row(i)[c] == rule(i, j)[c]);
        }
        lemma_over_lines_all(n, row, holds);
    }
    lemma_over_lines_all(n, rows, holds);
}

/// What the one-step rules derive from numbered lines continues them.
pub proof fn lemma_one_step_continues(lines: Seq<Step>, conclusion: Formula)
    requires
        numbered(lines),
        lines.len() <= usize::MAX,
    ensures
        forall|k: int|
            0 <= k < one_step(lines, conclusion).len() ==> continues(
                lines,
                #[trigger] one_step(lines, conclusion)[k],
            ),
{
    let n = lines.len() as int;
    let names = vocabulary(lines, conclusion);
    let holds = |c: Candidate| continues(lines, c);
    let mp = |i: int, j: int| modus_ponens_at(lines, i, j);
    let mt = |i: int, j: int| modus_tollens_at(lines, i, j);
    let ae = |i: int| and_elimination_at(lines, i);
    let ai = |i: int, j: int| and_introduction_at(lines, i, j);
    let oi = |i: int, j: int| or_introduction_at(lines, i, j);
    let ov = |i: int| or_introduction_names_at(lines, names, i);
    let dr = |i: int| double_negation_remove_at(lines, i);
    let da = |i: int| double_negation_add_at(lines, i);
    assert forall|i: int, j: int, k: int|
        0 <= i < n && 0 <= j < n && 0 <= k < mp(i, j).len() implies holds(
        #[trigger] mp(i, j)[k],
    ) by {
        let c = mp(i, j)[k];
        assert(c.len() == 1 && c[0].deduction_lines == pair_numbers(lines, i, j));
        assert(continues(lines, c));
    }
    lemma_over_pairs_all(n, mp, holds);
    assert forall|i: int, j: int, k: int|
        0 <= i < n && 0 <= j < n && 0 <= k < mt(i, j).len() implies holds(
        #[trigger] mt(i, j)[k],
    ) by {
        let c = mt(i, j)[k];
        assert(c.len() == 1 && c[0].deduction_lines == pair_numbers(lines, i, j));
        assert(continues(lines, c));
    }
    lemma_over_pairs_all(n, mt, holds);
    assert forall|i: int, k: int| 0 <= i < n && 0 <= k < ae(i).len() implies holds(
        #[trigger] ae(i)[k],
    ) by {
        let c = ae(i)[k];
        assert(c.len() == 1 && c[0].deduction_lines == seq![lines[i].line_number]);
        assert(continues(lines, c));
    }
    lemma_over_lines_all(n, ae, holds);
    assert forall|i: int, j: int, k: int|
        0 <= i < n && 0 <= j < n && 0 <= k < ai(i, j).len() implies holds(
        #[trigger] ai(i, j)[k],
    ) by {
        let c = ai(i, j)[k];
        assert(c.len() == 1 && c[0].deduction_lines == pair_numbers(lines, i, j));
        assert(continues(lines, c));
    }
    lemma_over_pairs_all(n, ai, holds);
    assert forall|i: int, j: int, k: int|
        0 <= i < n && 0 <= j < n && 0 <= k < oi(i, j).len() implies holds(
        #[trigger] oi(i, j)[k],
    ) by {
        let c = oi(i, j)[k];
        assert(c.len() == 1 && c[0].deduction_lines == pair_numbers(lines, i, j));
        assert(continues(lines, c));
    }
    lemma_over_pairs_all(n, oi, holds);
    assert forall|i: int, k: int| 0 <= i < n && 0 <= k < ov(i).len() implies holds(
        #[trigger] ov(i)[k],
    ) by {
        let with = |v: int| or_introduction_with(lines, i, names[v]);
        assert forall|v: int, c: int|
            0 <= v < names.len() && 0 <= c < with(v).len() implies holds(
            #[trigger] with(v)[c],
        ) by {
            let x = with(v)[c];
            assert(x.len() == 1 && x[0].deduction_lines == seq![lines[i].line_number]);
            assert(continues(lines, x));
        }
        lemma_over_lines_all(names.len() as int, with, holds);
    }
    lemma_over_lines_all(n, ov, holds);
    assert forall|i: int, k: int| 0 <= i < n && 0 <= k < dr(i).len() implies holds(
        #[trigger] dr(i)[k],
    ) by {
        let c = dr(i)[k];
        assert(c.len() == 1 && c[0].deduction_lines == seq![lines[i].line_number]);
        assert(continues(lines, c));
    }
    lemma_over_lines_all(n, dr, holds);
    assert forall|i: int, k: int| 0 <= i < n && 0 <= k < da(i).len() implies holds(
        #[trigger] da(i)[k],
    ) by {
        let c = da(i)[k];
        assert(c.len() == 1 && c[0].deduction_lines == seq![lines[i].line_number]);
        assert(continues(lines, c));
    }
    lemma_over_lines_all(n, da, holds);
    let all = one_step(lines, conclusion);
    assert(all == over_pairs(n, mp) + over_pairs(n, mt) + over_lines(n, ae) + over_pairs(n, ai)
        + over_pairs(n, oi) + over_lines(n, ov) + over_lines(n, dr) + over_lines(n, da));
    assert forall|k: int| 0 <= k < all.len() implies continues(lines, #[trigger] all[k]) by {
        let a = over_pairs(n, mp);
        let b = over_pairs(n, mt);
        let c = over_lines(n, ae);
        let d = over_pairs(n, ai);
        let e = over_pairs(n, oi);
        let f = over_lines(n, ov);
        let g = over_lines(n, dr);
        let h = over_lines(n, da);
        if k < a.len() {
            assert(holds(a[k]));
        } else if k < a.len() + b.len() {
            assert(holds(b[k - a.len()]));
        } else if k < a.len() + b.len() + c.len() {
            assert(holds(c[k - a.len() - b.len()]));
        } else if k < a.len() + b.len() + c.len() + d.len() {
            assert(holds(d[k - a.len() - b.len() - c.len()]));
        } else if k < a.len() + b.len() + c.len() + d.len() + e.len() {
            assert(holds(e[k - a.len() - b.len() - c.len() - d.len()]));
        } else if k < a.len() + b.len() + c.len() + d.len() + e.len() + f.len() {
            assert(holds(f[k - a.len() - b.len() - c.len() - d.len() - e.len()]));
        } else if k < a.len() + b.len() + c.len() + d.len() + e.len() + f.len() + g.len() {
            assert(holds(g[k - a.len() - b.len() - c.len() - d.len() - e.len() - f.len()]));
        } else {
            assert(holds(
                h[k - a.len() - b.len() - c.len() - d.len() - e.len() - f.len() - g.len()],
            ));
        }
    }
}

/// The sub-proof that a rule found, seen from the lines it began with: it
/// continues them, with the assumed line first.
pub proof fn lemma_sub_proof_continues(lines: Seq<Step>, assumed: Step, found: Seq<Step>)
    requires
        assumed.line_number == lines.len(),
        assumed.rule != Rule::Assumption,
        forall|d: int|
            0 <= d < assumed.deduction_lines.len() ==> #[trigger] assumed.deduction_lines[d]
                < lines.len(),
        extends(lines.push(assumed), found),
    ensures
        extends(lines, found),
        found.len() > lines.len(),
        found[lines.len() as int] == assumed,
{
    let root = lines.push(assumed);
    assert(found[lines.len() as int] == root[lines.len() as int]);
    assert(lines.is_prefix_of(found)) by {
        assert forall|i: int| 0 <= i < lines.len() implies lines[i] == found[i] by {
            assert(root[i] == found[i]);
        }
    }
    let tail = found.skip(lines.len() as int);
    assert forall|k: int| 0 <= k < tail.len() implies {
        &&& (#[trigger] tail[k]).line_number == lines.len() + k
        &&& tail[k].rule != Rule::Assumption
        &&& forall|d: int|
            0 <= d < tail[k].deduction_lines.len() ==> (#[trigger] tail[k].deduction_lines[d])
                < lines.len() + k
    } by {
        if k > 0 {
            assert(tail[k] == found.skip(root.len() as int)[k - 1]);
        }
    }
}

/// Two branches that each continue the lines continue them one behind the
/// other, the second moved behind the first.
pub proof fn lemma_branches_continue(lines: Seq<Step>, a: Seq<Step>, b: Seq<Step>)
    requires
        continues(lines, a),
        continues(lines, b),
        lines.len() + a.len() + b.len() <= usize::MAX,
    ensures
        continues(
            lines,
            a + b.map_values(|s: Step| shifted(s, lines.len() as int, a.len() as int)),
        ),
{
    let n = lines.len() as int;
    let shift = a.len() as int;
    let branches = a + b.map_values(|s: Step| shifted(s, n, shift));
    assert forall|k: int| 0 <= k < branches.len() implies {
        &&& (#[trigger] branches[k]).line_number == lines.len() + k
        &&& branches[k].rule != Rule::Assumption
        &&& forall|d: int|
            0 <= d < branches[k].deduction_lines.len() ==> (
            #[trigger] branches[k].deduction_lines[d]) < lines.len() + k
    } by {
        if k < a.len() {
            assert(branches[k] == a[k]);
        } else {
            let c = k - a.len();
            assert(branches[k] == shifted(b[c], n, shift));
            assert forall|d: int| 0 <= d < branches[k].deduction_lines.len() implies (
            #[trigger] branches[k].deduction_lines[d]) < lines.len() + k by {
                assert(b[c].deduction_lines[d] < lines.len() + c);
            }
        }
    }
}

/// Lines that continue a proof, closed by a line that cites the first of
/// them and each of them, continue it.
pub proof fn lemma_closed_continues(lines: Seq<Step>, branches: Seq<Step>, last: Step)
    requires
        continues(lines, branches),
        branches.len() > 0,
        last.line_number == lines.len() + branches.len(),
        last.rule != Rule::Assumption,
        last.deduction_lines == seq![lines.len() as usize] + numbers(branches),
    ensures
        continues(lines, branches.push(last)),
{
    let all = branches.push(last);
    assert forall|k: int| 0 <= k < all.len() implies {
        &&& (#[trigger] all[k]).line_number == lines.len() + k
        &&& all[k].rule != Rule::Assumption
        &&& forall|d: int|
            0 <= d < all[k].deduction_lines.len() ==> (#[trigger] all[k].deduction_lines[d])
                < lines.len() + k
    } by {
        if k < branches.len() {
            assert(all[k] == branches[k]);
        } else {
            assert forall|d: int| 0 <= d < all[k].deduction_lines.len() implies (
            #[trigger] all[k].deduction_lines[d]) < lines.len() + k by {
                if d > 0 {
                    assert(all[k].deduction_lines[d] == branches[d - 1].line_number);
                }
            }
        }
    }
}

} // verus!
