use crate::derivation::{
    adds, and_elimination_at, and_introduction_at, assumption_numbers, block_open, candidates,
    conditional_assumption, conditional_proof, conditional_splice, continues, deductions,
    derivable, derived, double_negation_add_at, double_negation_remove_at, extends,
    inner_settings, lemma_branches_continue, lemma_closed_continues,
    lemma_open_block_is_no_assumption,
    lemma_deductions_of_extension, lemma_one_step_continues, lemma_sub_proof_continues,
    modus_ponens_at, modus_tollens_at, name_before, names_in, names_of_lines, nesting,
    number_before, numbered, numbers, one_step, only_assumptions, or_assumption,
    or_elimination, or_elimination_at, or_elimination_upto, or_introduction_at,
    or_introduction_names_at, or_introduction_with, or_splice, over_lines, over_pairs,
    pair_rule_at, precedes, search_from, shifted, vocabulary, with_assumptions_of,
    with_names_of, Candidate,
};
use crate::expression::{formulas, Expression, Formula};
use crate::lines::{copy_lines, copy_numbers, steps, Line, Rule, Step};
use crate::parser::characters;
use crate::prover::{Proof, SearchNode, SearchSettings};
use crate::sequences::{distinct, insert_all, insert_ordered, lemma_insert_ordered_at, select};
use crate::soundness::{
    assumes, justified, lemma_conditional_splice_justified, lemma_one_step_justified,
    lemma_or_splice_justified, lemma_sub_proof_justified, sound_from,
};
use crate::subproofs::lemma_sub_proofs_add_nothing;
use crate::tuples::{
    expand, index_tuples, lemma_pairs_are_tuples, lemma_tuples_within, over_tuples, with_first,
    within,
};
use vstd::prelude::*;

verus! {

/// One way to extend a partial proof: the lines to append, in order.
#[derive(Debug)]
pub struct Possible {
    pub lines: Vec<Line>,
}

impl View for Possible {
    type V = Candidate;

    open spec fn view(&self) -> Candidate {
        steps(self.lines@)
    }
}

impl Clone for Possible {
    fn clone(&self) -> (r: Self)
        ensures
            r@ == self@,
    {
        Possible { lines: copy_lines(&self.lines) }
    }
}

/// The candidates that a run of possibles stands for.
pub open spec fn candidates_of(possibles: Seq<Possible>) -> Seq<Candidate> {
    possibles.map_values(|p: Possible| p@)
}

impl Possible {
    /// The way to extend a partial proof by the given lines.
    pub fn new(lines: Vec<Line>) -> (possible: Self)
        ensures
            possible.lines == lines,
    {
        Possible { lines }
    }

    /// The way to extend a partial proof by one line.
    pub fn new_single(line: Line) -> (possible: Self)
        ensures
            possible@ == seq![line@],
    {
        let mut lines: Vec<Line> = Vec::new();
        lines.push(line);
        let possible = Possible { lines };
        assert(possible@ =~= seq![line@]);
        possible
    }
}

/// Puts `x` in its place in an ascending list of line numbers.
fn insert_number(v: &mut Vec<usize>, x: usize)
    ensures
        final(v)@ == insert_ordered(old(v)@, x, number_before()),
{
    let mut i: usize = v.len();
    while i > 0 && v[i - 1] > x
        invariant
            i <= v.len(),
            v@ == old(v)@,
            forall|k: int| i <= k < v.len() ==> v@[k] > x,
        decreases i,
    {
        i -= 1;
    }
    proof {
        lemma_insert_ordered_at(v@, x, number_before(), i as int);
    }
    if i > 0 && v[i - 1] == x {
    } else {
        v.insert(i, x);
        assert(v@ =~= old(v)@.take(i as int).push(x) + old(v)@.skip(i as int));
    }
}

/// Puts each of `xs` in its place in an ascending list of line numbers.
fn insert_numbers(v: &mut Vec<usize>, xs: &Vec<usize>)
    ensures
        final(v)@ == insert_all(old(v)@, xs@, number_before()),
{
    let mut k: usize = 0;
    while k < xs.len()
        invariant
            k <= xs.len(),
            v@ == insert_all(old(v)@, xs@.take(k as int), number_before()),
        decreases xs.len() - k,
    {
        insert_number(v, xs[k]);
        assert(xs@.take(k as int + 1).drop_last() =~= xs@.take(k as int));
        k += 1;
    }
    assert(xs@.take(xs.len() as int) =~= xs@);
}

/// The root assumptions on which a line derived from `deductions` rests.
fn assumption_line_nums(lines: &Vec<Line>, deductions: &Vec<usize>) -> (r: Vec<usize>)
    ensures
        r@ == assumption_numbers(steps(lines@), deductions@),
{
    let mut r: Vec<usize> = Vec::new();
    let mut k: usize = 0;
    while k < deductions.len()
        invariant
            k <= deductions.len(),
            r@ == assumption_numbers(steps(lines@), deductions@.take(k as int)),
        decreases deductions.len() - k,
    {
        let d = deductions[k];
        assert(deductions@.take(k as int + 1).drop_last() =~= deductions@.take(k as int));
        if d < lines.len() {
            insert_numbers(&mut r, &lines[d].assumption_lines);
        }
        k += 1;
    }
    assert(deductions@.take(deductions.len() as int) =~= deductions@);
    r
}

/// The line that a one-step rule derives from the lines in `deductions`.
fn derive(lines: &Vec<Line>, expression: Expression, rule: Rule, deductions: Vec<usize>) -> (line:
    Line)
    ensures
        line@ == derived(steps(lines@), expression@, rule, deductions@),
{
    let assumptions = assumption_line_nums(lines, &deductions);
    Line::new(assumptions, lines.len(), expression, rule, deductions)
}

/// The numbers of two lines, as a list.
fn pair(a: usize, b: usize) -> (r: Vec<usize>)
    ensures
        r@ == seq![a, b],
{
    let mut r: Vec<usize> = Vec::new();
    r.push(a);
    r.push(b);
    assert(r@ =~= seq![a, b]);
    r
}

/// The number of one line, as a list.
fn single(a: usize) -> (r: Vec<usize>)
    ensures
        r@ == seq![a],
{
    let mut r: Vec<usize> = Vec::new();
    r.push(a);
    assert(r@ =~= seq![a]);
    r
}

/// The names that a run of strings spells.
pub open spec fn names_of(v: Seq<String>) -> Seq<Seq<char>> {
    v.map_values(|s: String| s@)
}

/// What a rule that looks at a pair of lines derives from lines `i` and `j`,
/// if anything.
fn pair_step(lines: &Vec<Line>, rule: Rule, i: usize, j: usize) -> (r: Option<Line>)
    requires
        i < lines.len(),
        j < lines.len(),
    ensures
        pair_rule_at(steps(lines@), rule, i as int, j as int) == match r {
            Some(line) => seq![seq![line@]],
            None => Seq::<Candidate>::empty(),
        },
{
    let first = &lines[i];
    let second = &lines[j];
    assert(steps(lines@)[i as int] == first@);
    assert(steps(lines@)[j as int] == second@);
    let expression = match rule {
        Rule::ModusPonens => {
            if let Expression::Implies(left, right) = &first.expression {
                if second.matches_expression(left) {
                    Some((**right).clone())
                } else {
                    None
                }
            } else {
                None
            }
        },
        Rule::ModusTollens => {
            if let Expression::Implies(left, right) = &first.expression {
                let negated = Expression::Not((**right).clone().wrap());
                if second.matches_expression(&negated) {
                    Some(Expression::Not((**left).clone().wrap()))
                } else {
                    None
                }
            } else {
                None
            }
        },
        Rule::AndIntroduction => Some(
            Expression::And(first.expression.clone().wrap(), second.expression.clone().wrap()),
        ),
        Rule::OrIntroduction => Some(
            Expression::Or(first.expression.clone().wrap(), second.expression.clone().wrap()),
        ),
        _ => None,
    };
    match expression {
        Some(e) => Some(derive(lines, e, rule, pair(first.line_number, second.line_number))),
        None => None,
    }
}

/// The tuples that a run of lists of indices holds.
pub open spec fn tuples_of(v: Seq<Vec<usize>>) -> Seq<Seq<usize>> {
    v.map_values(|t: Vec<usize>| t@)
}

/// The tuple `t` with the index `i` in front of it.
fn prefixed(i: usize, t: &Vec<usize>) -> (r: Vec<usize>)
    ensures
        r@ == seq![i] + t@,
{
    let mut r = single(i);
    let mut k: usize = 0;
    assert(r@ =~= seq![i] + t@.take(0));
    while k < t.len()
        invariant
            k <= t.len(),
            r@ == seq![i] + t@.take(k as int),
        decreases t.len() - k,
    {
        r.push(t[k]);
        assert(r@ =~= seq![i] + t@.take(k as int + 1));
        k += 1;
    }
    assert(t@.take(t.len() as int) =~= t@);
    r
}

/// Puts behind `longer` the tuple `t` with each of the indices before `n`
/// in front of it.
fn expand_one(longer: &mut Vec<Vec<usize>>, n: usize, t: &Vec<usize>)
    ensures
        tuples_of(final(longer)@) == tuples_of(old(longer)@) + with_first(n as int, t@),
{
    let ghost base = tuples_of(longer@);
    let mut i: usize = 0;
    assert(tuples_of(longer@) =~= base + with_first(0, t@));
    while i < n
        invariant
            i <= n,
            tuples_of(longer@) == base + with_first(i as int, t@),
        decreases n - i,
    {
        longer.push(prefixed(i, t));
        assert(with_first(i as int + 1, t@) == with_first(i as int, t@).push(seq![i] + t@));
        assert(tuples_of(longer@) =~= (base + with_first(i as int, t@)).push(seq![i] + t@));
        assert(tuples_of(longer@) =~= base + with_first(i as int + 1, t@));
        i += 1;
    }
}

/// Every tuple of `dimension` indices before `n`, the first index running
/// fastest.
fn tuples_before(n: usize, dimension: usize) -> (tuples: Vec<Vec<usize>>)
    ensures
        tuples_of(tuples@) == index_tuples(n as int, dimension as nat),
{
    let mut tuples: Vec<Vec<usize>> = Vec::new();
    tuples.push(Vec::new());
    assert(tuples_of(tuples@) =~= seq![Seq::<usize>::empty()]);
    let mut d: usize = 0;
    while d < dimension
        invariant
            d <= dimension,
            tuples_of(tuples@) == index_tuples(n as int, d as nat),
        decreases dimension - d,
    {
        let ghost shorter = tuples_of(tuples@);
        let mut longer: Vec<Vec<usize>> = Vec::new();
        let mut k: usize = 0;
        assert(tuples_of(longer@) =~= expand(shorter.take(0), n as int));
        while k < tuples.len()
            invariant
                k <= tuples.len(),
                shorter == tuples_of(tuples@),
                tuples_of(longer@) == expand(shorter.take(k as int), n as int),
            decreases tuples.len() - k,
        {
            assert(shorter.take(k as int + 1).drop_last() =~= shorter.take(k as int));
            assert(shorter[k as int] == tuples@[k as int]@);
            expand_one(&mut longer, n, &tuples[k]);
            k += 1;
        }
        assert(shorter.take(tuples.len() as int) =~= shorter);
        tuples = longer;
        d += 1;
    }
    tuples
}

/// Adds what a rule that looks at pairs of lines derives, the pairs being
/// given as the tuples of two indices.
fn pairs_into(
    lines: &Vec<Line>,
    pairs: &Vec<Vec<usize>>,
    rule: Rule,
    possibles: &mut Vec<Possible>,
)
    requires
        tuples_of(pairs@) == index_tuples(lines@.len() as int, 2),
    ensures
        candidates_of(final(possibles)@) == candidates_of(old(possibles)@) + over_pairs(
            lines.len() as int,
            |i: int, j: int| pair_rule_at(steps(lines@), rule, i, j),
        ),
{
    let ghost model = steps(lines@);
    let ghost base = candidates_of(possibles@);
    let ghost tuples = tuples_of(pairs@);
    let ghost of_pair = |i: int, j: int| pair_rule_at(model, rule, i, j);
    let ghost at = |t: Seq<usize>| of_pair(t[0] as int, t[1] as int);
    proof {
        lemma_pairs_are_tuples(lines.len() as int, of_pair);
        lemma_tuples_within(lines.len() as int, 2);
    }
    let mut k: usize = 0;
    assert(candidates_of(possibles@) =~= base + over_tuples(tuples.take(0), at));
    while k < pairs.len()
        invariant
            k <= pairs.len(),
            model == steps(lines@),
            tuples == tuples_of(pairs@),
            of_pair == |i: int, j: int| pair_rule_at(model, rule, i, j),
            at == |t: Seq<usize>| of_pair(t[0] as int, t[1] as int),
            forall|c: int|
                0 <= c < tuples.len() ==> within(#[trigger] tuples[c], lines.len() as int, 2),
            candidates_of(possibles@) == base + over_tuples(tuples.take(k as int), at),
        decreases pairs.len() - k,
    {
        let ghost before = candidates_of(possibles@);
        assert(tuples.take(k as int + 1).drop_last() =~= tuples.take(k as int));
        assert(tuples[k as int] == pairs@[k as int]@);
        assert(within(tuples[k as int], lines.len() as int, 2));
        let i = pairs[k][0];
        let j = pairs[k][1];
        assert(tuples[k as int][0] == i && tuples[k as int][1] == j);
        match pair_step(lines, rule, i, j) {
            Some(line) => {
                possibles.push(Possible::new_single(line));
                assert(candidates_of(possibles@) =~= before + seq![seq![line@]]);
            },
            None => {},
        }
        assert(candidates_of(possibles@) =~= before + at(tuples[k as int]));
        k += 1;
    }
    assert(tuples.take(pairs.len() as int) =~= tuples);
}

/// Adds what and-elimination derives.
fn and_e_into(lines: &Vec<Line>, possibles: &mut Vec<Possible>)
    ensures
        candidates_of(final(possibles)@) == candidates_of(old(possibles)@) + over_lines(
            lines.len() as int,
            |i: int| and_elimination_at(steps(lines@), i),
        ),
{
    let ghost model = steps(lines@);
    let ghost base = candidates_of(possibles@);
    let ghost at = |i: int| and_elimination_at(model, i);
    let mut i: usize = 0;
    while i < lines.len()
        invariant
            i <= lines.len(),
            model == steps(lines@),
            at == |i: int| and_elimination_at(model, i),
            candidates_of(possibles@) == base + over_lines(i as int, at),
        decreases lines.len() - i,
    {
        let ghost before = candidates_of(possibles@);
        let line = &lines[i];
        assert(model[i as int] == line@);
        if let Expression::And(left, right) = &line.expression {
            let first = derive(
                lines,
                (**left).clone(),
                Rule::AndElimination,
                single(line.line_number),
            );
            let second = derive(
                lines,
                (**right).clone(),
                Rule::AndElimination,
                single(line.line_number),
            );
            possibles.push(Possible::new_single(first));
            possibles.push(Possible::new_single(second));
            assert(candidates_of(possibles@) =~= before + seq![seq![first@], seq![second@]]);
        }
        assert(candidates_of(possibles@) =~= before + at(i as int));
        i += 1;
    }
}

/// Adds what the removal of double negations derives.
fn dn_remove_into(lines: &Vec<Line>, possibles: &mut Vec<Possible>)
    ensures
        candidates_of(final(possibles)@) == candidates_of(old(possibles)@) + over_lines(
            lines.len() as int,
            |i: int| double_negation_remove_at(steps(lines@), i),
        ),
{
    let ghost model = steps(lines@);
    let ghost base = candidates_of(possibles@);
    let ghost at = |i: int| double_negation_remove_at(model, i);
    let mut i: usize = 0;
    while i < lines.len()
        invariant
            i <= lines.len(),
            model == steps(lines@),
            at == |i: int| double_negation_remove_at(model, i),
            candidates_of(possibles@) == base + over_lines(i as int, at),
        decreases lines.len() - i,
    {
        let ghost before = candidates_of(possibles@);
        let line = &lines[i];
        assert(model[i as int] == line@);
        if let Expression::Not(inner) = &line.expression {
            assert(line.expression@ == Formula::Not(Box::new(inner@)));
            assert(inner@ == inner.formula());
            if let Expression::Not(inner2) = &**inner {
                assert(inner@ == Formula::Not(Box::new(inner2@)));
                let found = derive(
                    lines,
                    (**inner2).clone(),
                    Rule::DoubleNegation,
                    single(line.line_number),
                );
                possibles.push(Possible::new_single(found));
                assert(candidates_of(possibles@) =~= before + seq![seq![found@]]);
            }
        }
        assert(candidates_of(possibles@) =~= before + at(i as int));
        i += 1;
    }
}

/// Adds the double negation of every line.
fn dn_add_into(lines: &Vec<Line>, possibles: &mut Vec<Possible>)
    ensures
        candidates_of(final(possibles)@) == candidates_of(old(possibles)@) + over_lines(
            lines.len() as int,
            |i: int| double_negation_add_at(steps(lines@), i),
        ),
{
    let ghost model = steps(lines@);
    let ghost base = candidates_of(possibles@);
    let ghost at = |i: int| double_negation_add_at(model, i);
    let mut i: usize = 0;
    while i < lines.len()
        invariant
            i <= lines.len(),
            model == steps(lines@),
            at == |i: int| double_negation_add_at(model, i),
            candidates_of(possibles@) == base + over_lines(i as int, at),
        decreases lines.len() - i,
    {
        let ghost before = candidates_of(possibles@);
        let line = &lines[i];
        assert(model[i as int] == line@);
        let once = Expression::Not(line.expression.clone().wrap());
        assert(once@ == Formula::Not(Box::new(line.expression@)));
        let twice = Expression::Not(once.wrap());
        assert(twice@ == Formula::Not(Box::new(once@)));
        let found = derive(lines, twice, Rule::DoubleNegation, single(line.line_number));
        possibles.push(Possible::new_single(found));
        assert(candidates_of(possibles@) =~= before + seq![seq![found@]]);
        assert(candidates_of(possibles@) =~= before + at(i as int));
        i += 1;
    }
}

/// Adds the disjunctions of every line with every variable of `vars`.
fn or_i_with_vars_into(lines: &Vec<Line>, vars: &Vec<String>, possibles: &mut Vec<Possible>)
    ensures
        candidates_of(final(possibles)@) == candidates_of(old(possibles)@) + over_lines(
            lines.len() as int,
            |i: int| or_introduction_names_at(steps(lines@), names_of(vars@), i),
        ),
{
    let ghost model = steps(lines@);
    let ghost names = names_of(vars@);
    let ghost base = candidates_of(possibles@);
    let ghost at = |i: int| or_introduction_names_at(model, names, i);
    let mut i: usize = 0;
    while i < lines.len()
        invariant
            i <= lines.len(),
            model == steps(lines@),
            names == names_of(vars@),
            at == |i: int| or_introduction_names_at(model, names, i),
            candidates_of(possibles@) == base + over_lines(i as int, at),
        decreases lines.len() - i,
    {
        let ghost row_base = candidates_of(possibles@);
        let ghost with = |k: int| or_introduction_with(model, i as int, names[k]);
        let line = &lines[i];
        assert(model[i as int] == line@);
        let mut k: usize = 0;
        while k < vars.len()
            invariant
                k <= vars.len(),
                i < lines.len(),
                line == lines[i as int],
                model == steps(lines@),
                model[i as int] == line@,
                names == names_of(vars@),
                with == |k: int| or_introduction_with(model, i as int, names[k]),
                candidates_of(possibles@) == row_base + over_lines(k as int, with),
            decreases vars.len() - k,
        {
            let ghost before = candidates_of(possibles@);
            assert(names[k as int] == vars@[k as int]@);
            let var = Expression::Var(vars[k].clone());
            assert(var@ == Formula::Var(names[k as int]));
            let on_right = Expression::Or(line.expression.clone().wrap(), var.clone().wrap());
            assert(on_right@ == Formula::Or(Box::new(line.expression@), Box::new(var@)));
            let on_left = Expression::Or(var.wrap(), line.expression.clone().wrap());
            assert(on_left@ == Formula::Or(Box::new(var@), Box::new(line.expression@)));
            let right = derive(lines, on_right, Rule::OrIntroduction, single(line.line_number));
            let left = derive(lines, on_left, Rule::OrIntroduction, single(line.line_number));
            possibles.push(Possible::new_single(right));
            possibles.push(Possible::new_single(left));
            assert(candidates_of(possibles@) =~= before + seq![seq![right@], seq![left@]]);
            assert(candidates_of(possibles@) =~= before + with(k as int));
            k += 1;
        }
        assert(at(i as int) == over_lines(vars.len() as int, with));
        assert(candidates_of(possibles@) =~= base + over_lines(i as int + 1, at));
        i += 1;
    }
}

/// Whether the name `a` stands before the name `b`.
fn name_precedes(a: &String, b: &String) -> (r: bool)
    ensures
        r == precedes(a@, b@),
{
    let x = characters(a.as_str());
    let y = characters(b.as_str());
    let mut k: usize = 0;
    assert(x@.skip(0) =~= x@ && y@.skip(0) =~= y@);
    loop
        invariant
            k <= x.len(),
            k <= y.len(),
            x@ == a@,
            y@ == b@,
            precedes(a@, b@) == precedes(x@.skip(k as int), y@.skip(k as int)),
        decreases x.len() - k,
    {
        if k >= y.len() {
            return false;
        }
        if k >= x.len() {
            return true;
        }
        assert(x@.skip(k as int)[0] == x@[k as int]);
        assert(y@.skip(k as int)[0] == y@[k as int]);
        if x[k] != y[k] {
            return x[k] < y[k];
        }
        assert(x@.skip(k as int).skip(1) =~= x@.skip(k as int + 1));
        assert(y@.skip(k as int).skip(1) =~= y@.skip(k as int + 1));
        k += 1;
    }
}

/// Puts the name `x` in its place in an ascending list of names.
fn insert_name(v: &mut Vec<String>, x: String)
    ensures
        names_of(final(v)@) == insert_ordered(names_of(old(v)@), x@, name_before()),
{
    let mut i: usize = v.len();
    while i > 0 && !name_precedes(&v[i - 1], &x) && !(v[i - 1] == x)
        invariant
            i <= v.len(),
            v@ == old(v)@,
            forall|k: int|
                i <= k < v.len() ==> !precedes(#[trigger] names_of(v@)[k], x@) && names_of(v@)[k]
                    != x@,
        decreases i,
    {
        assert(names_of(v@)[i - 1] == v@[i - 1]@);
        i -= 1;
    }
    proof {
        if i > 0 {
            assert(names_of(v@)[i - 1] == v@[i - 1]@);
        }
        lemma_insert_ordered_at(names_of(v@), x@, name_before(), i as int);
    }
    if i > 0 && !name_precedes(&v[i - 1], &x) {
    } else {
        v.insert(i, x);
        assert(names_of(v@) =~= names_of(old(v)@).take(i as int).push(x@) + names_of(
            old(v)@,
        ).skip(i as int));
    }
}

/// Puts the variables of `expression` among `vars`, and has `vars` ascend
/// with each name once.
pub fn find_vars_for_expression(expression: &Expression, vars: &mut Vec<String>)
    ensures
        names_of(final(vars)@) == with_names_of(names_of(old(vars)@), expression@),
{
    let mut sorted: Vec<String> = Vec::new();
    assert(names_of(sorted@) =~= Seq::<Seq<char>>::empty());
    let mut k: usize = 0;
    while k < vars.len()
        invariant
            k <= vars.len(),
            vars@ == old(vars)@,
            names_of(sorted@) == insert_all(
                Seq::empty(),
                names_of(vars@).take(k as int),
                name_before(),
            ),
        decreases vars.len() - k,
    {
        insert_name(&mut sorted, vars[k].clone());
        assert(names_of(vars@).take(k as int + 1).drop_last() =~= names_of(vars@).take(k as int));
        assert(names_of(vars@)[k as int] == vars@[k as int]@);
        k += 1;
    }
    assert(names_of(vars@).take(vars.len() as int) =~= names_of(vars@));
    let list = expression.list_expressions();
    let ghost base = names_of(sorted@);
    let ghost subs = formulas(list@);
    let mut k: usize = 0;
    while k < list.len()
        invariant
            k <= list.len(),
            subs == formulas(list@),
            names_of(sorted@) == insert_all(base, names_in(subs.take(k as int)), name_before()),
        decreases list.len() - k,
    {
        assert(subs.take(k as int + 1).drop_last() =~= subs.take(k as int));
        assert(subs[k as int] == list@[k as int]@);
        if let Expression::Var(name) = &list[k] {
            insert_name(&mut sorted, name.clone());
            assert(names_in(subs.take(k as int + 1)).drop_last() =~= names_in(
                subs.take(k as int),
            ));
        }
        k += 1;
    }
    assert(subs.take(list.len() as int) =~= subs);
    *vars = sorted;
}

/// Whether `list` holds the candidate of `possible`.
fn listed(list: &Vec<Possible>, possible: &Possible) -> (r: bool)
    ensures
        r == candidates_of(list@).contains(possible@),
{
    let mut i: usize = 0;
    while i < list.len()
        invariant
            i <= list.len(),
            forall|j: int| 0 <= j < i ==> candidates_of(list@)[j] != possible@,
        decreases list.len() - i,
    {
        if same_lines(&list[i].lines, &possible.lines) {
            assert(candidates_of(list@)[i as int] == possible@);
            return true;
        }
        i += 1;
    }
    false
}

/// Whether two runs of lines agree line by line, in every field.
fn same_lines(a: &Vec<Line>, b: &Vec<Line>) -> (r: bool)
    ensures
        r == (steps(a@) == steps(b@)),
{
    if a.len() != b.len() {
        assert(steps(a@).len() != steps(b@).len());
        return false;
    }
    let mut i: usize = 0;
    while i < a.len()
        invariant
            i <= a.len(),
            a.len() == b.len(),
            forall|j: int| 0 <= j < i ==> steps(a@)[j] == steps(b@)[j],
        decreases a.len() - i,
    {
        if !a[i].same(&b[i]) {
            assert(steps(a@)[i as int] != steps(b@)[i as int]);
            return false;
        }
        i += 1;
    }
    assert(steps(a@) =~= steps(b@));
    true
}

/// Whether a possible adds something to the lines: none of its lines
/// establishes what one of them establishes.
fn adds_to(lines: &Vec<Line>, possible: &Possible) -> (r: bool)
    ensures
        r == adds(steps(lines@), possible@),
{
    let mut i: usize = 0;
    while i < lines.len()
        invariant
            i <= lines.len(),
            forall|a: int, k: int|
                0 <= a < i && 0 <= k < possible@.len() ==> (#[trigger] steps(
                    lines@,
                )[a]).expression != (#[trigger] possible@[k]).expression,
        decreases lines.len() - i,
    {
        let mut k: usize = 0;
        while k < possible.lines.len()
            invariant
                i < lines.len(),
                k <= possible.lines.len(),
                forall|c: int|
                    0 <= c < k ==> steps(lines@)[i as int].expression != (
                    #[trigger] possible@[c]).expression,
            decreases possible.lines.len() - k,
        {
            if possible.lines[k].matches_expression(&lines[i].expression) {
                assert(steps(lines@)[i as int].expression == possible@[k as int].expression);
                return false;
            }
            k += 1;
        }
        i += 1;
    }
    true
}

/// Whether every line is a plain assumption.
fn plain(lines: &Vec<Line>) -> (r: bool)
    ensures
        r == only_assumptions(steps(lines@)),
{
    let mut i: usize = 0;
    while i < lines.len()
        invariant
            i <= lines.len(),
            forall|k: int| 0 <= k < i ==> (#[trigger] steps(lines@)[k]).rule == Rule::Assumption,
        decreases lines.len() - i,
    {
        if lines[i].rule != Rule::Assumption {
            assert(steps(lines@)[i as int].rule != Rule::Assumption);
            return false;
        }
        i += 1;
    }
    true
}

/// The possibles that add something to the lines, each once.
fn sift(lines: &Vec<Line>, possibles: &Vec<Possible>) -> (kept: Vec<Possible>)
    ensures
        candidates_of(kept@) == distinct(
            select(candidates_of(possibles@), |c: Candidate| adds(steps(lines@), c)),
        ),
        forall|i: int|
            0 <= i < kept@.len() ==> candidates_of(possibles@).contains(
                #[trigger] candidates_of(kept@)[i],
            ),
{
    let ghost model = steps(lines@);
    let ghost all = candidates_of(possibles@);
    let ghost keep = |c: Candidate| adds(model, c);
    let mut kept: Vec<Possible> = Vec::new();
    assert(candidates_of(kept@) =~= Seq::<Candidate>::empty());
    assert(all.take(0) =~= Seq::<Candidate>::empty());
    let mut k: usize = 0;
    while k < possibles.len()
        invariant
            k <= possibles.len(),
            model == steps(lines@),
            all == candidates_of(possibles@),
            keep == |c: Candidate| adds(model, c),
            forall|i: int|
                0 <= i < kept@.len() ==> all.contains(#[trigger] candidates_of(kept@)[i]),
            candidates_of(kept@) == distinct(select(all.take(k as int), keep)),
        decreases possibles.len() - k,
    {
        let ghost before = candidates_of(kept@);
        assert(all.take(k as int + 1).drop_last() =~= all.take(k as int));
        assert(all[k as int] == possibles@[k as int]@);
        let ghost chosen = select(all.take(k as int), keep);
        if adds_to(lines, &possibles[k]) {
            assert(select(all.take(k as int + 1), keep) == chosen.push(all[k as int]));
            assert(chosen.push(all[k as int]).drop_last() =~= chosen);
            if !listed(&kept, &possibles[k]) {
                kept.push(possibles[k].clone());
                assert(candidates_of(kept@) =~= before.push(all[k as int]));
                assert forall|i: int| 0 <= i < kept@.len() implies all.contains(
                    #[trigger] candidates_of(kept@)[i],
                ) by {
                    if i < before.len() {
                        assert(candidates_of(kept@)[i] == before[i]);
                    }
                }
            }
        } else {
            assert(select(all.take(k as int + 1), keep) == chosen);
        }
        k += 1;
    }
    assert(all.take(all.len() as int) =~= all);
    kept
}

/// The bounds of a search that a rule starts for a sub-proof.
fn inner_search_settings() -> (s: SearchSettings)
    ensures
        s == inner_settings(),
{
    SearchSettings { max_line_length: 15, iterations: 50000 }
}

/// Finds every way to extend a partial proof by one rule.
#[derive(Debug)]
pub struct PossibleFinder {
    node: SearchNode,
    possibles: Vec<Possible>,
    vars: Vec<String>,
    depth: usize,
}

impl PossibleFinder {
    /// The partial proof that is to be extended.
    pub closed spec fn node(&self) -> SearchNode {
        self.node
    }

    /// Whether the lines of the partial proof are numbered by their
    /// positions.
    pub open spec fn well_formed(&self) -> bool {
        self.node().well_formed()
    }

    /// The ways found.
    pub closed spec fn found(&self) -> Seq<Possible> {
        self.possibles@
    }

    /// How deep sub-proofs may nest that the rules ask for.
    pub closed spec fn depth(&self) -> nat {
        self.depth as nat
    }

    /// The lines of the partial proof.
    pub open spec fn lines(&self) -> Seq<Step> {
        steps(self.node().lines@)
    }

    /// A finder for `node`, with nothing found yet.
    pub fn new(node: SearchNode) -> (finder: Self)
        requires
            node.well_formed(),
        ensures
            finder.node() == node,
            finder.found() == Seq::<Possible>::empty(),
            finder.depth() == nesting(),
    {
        PossibleFinder::over(node, 2)
    }

    /// A finder for `node`, whose rules may ask for sub-proofs that nest
    /// `depth` levels deep.
    pub(crate) fn over(node: SearchNode, depth: usize) -> (finder: Self)
        requires
            node.well_formed(),
        ensures
            finder.node() == node,
            finder.found() == Seq::<Possible>::empty(),
            finder.depth() == depth,
    {
        PossibleFinder { node, possibles: Vec::new(), vars: Vec::new(), depth }
    }

    /// The partial proof that is to be extended.
    pub fn current(&self) -> (node: &SearchNode)
        ensures
            *node == self.node(),
    {
        &self.node
    }

    /// How many lines the partial proof has.
    pub fn len(&self) -> (n: usize)
        ensures
            n == self.node().lines.len(),
    {
        self.node.lines.len()
    }

    /// Whether the partial proof has no lines.
    pub fn is_empty(&self) -> (r: bool)
        ensures
            r == (self.node().lines.len() == 0),
    {
        self.node.lines.len() == 0
    }

    /// Every variable of the lines and of the conclusion, in ascending
    /// order.
    fn find_vars(&self) -> (vars: Vec<String>)
        ensures
            names_of(vars@) == vocabulary(self.lines(), self.node().conclusion@),
    {
        let mut found_vars: Vec<String> = Vec::new();
        assert(names_of(found_vars@) =~= Seq::<Seq<char>>::empty());
        let mut i: usize = 0;
        while i < self.node.lines.len()
            invariant
                i <= self.node.lines.len(),
                names_of(found_vars@) == names_of_lines(self.lines(), i as int),
            decreases self.node.lines.len() - i,
        {
            assert(self.lines()[i as int] == self.node.lines@[i as int]@);
            find_vars_for_expression(&self.node.lines[i].expression, &mut found_vars);
            i += 1;
        }
        find_vars_for_expression(&self.node.conclusion, &mut found_vars);
        found_vars
    }

    /// The ways found.
    pub fn possibles(&self) -> (possibles: &Vec<Possible>)
        ensures
            possibles@ == self.found(),
    {
        &self.possibles
    }

    /// Finds what the rules derive, in the order of the rules, as far as it
    /// can add something: the rules that ask for sub-proofs are passed
    /// over where a line is no plain assumption.  What was found before is
    /// forgotten.
    fn gather(&mut self)
        requires
            old(self).well_formed(),
        ensures
            final(self).node() == old(self).node(),
            final(self).depth() == old(self).depth(),
            candidates_of(final(self).found()) == one_step(
                old(self).lines(),
                old(self).node().conclusion@,
            ) + (if only_assumptions(old(self).lines()) {
                or_elimination(old(self).lines(), old(self).node().conclusion@, old(self).depth())
                    + conditional_proof(
                    old(self).lines(),
                    old(self).node().conclusion@,
                    old(self).depth(),
                )
            } else {
                Seq::<Candidate>::empty()
            }),
            forall|k: int|
                0 <= k < final(self).found().len() ==> continues(
                    old(self).lines(),
                    #[trigger] candidates_of(final(self).found())[k],
                ) && justified(old(self).lines(), candidates_of(final(self).found())[k]),
        decreases 2 * old(self).depth(), 5nat,
    {
        let ghost lines = self.lines();
        let ghost goal = self.node.conclusion@;
        self.vars = self.find_vars();
        self.possibles = Vec::new();
        assert(candidates_of(self.possibles@) =~= Seq::<Candidate>::empty());
        self.possible_mp();
        self.possible_mt();
        self.possible_and_e();
        self.possible_and_i();
        self.possible_or_i();
        self.possible_or_i_with_vars();
        self.possible_dn_remove();
        self.possible_dn_add();
        assert(candidates_of(self.possibles@) =~= one_step(lines, goal));
        proof {
            assert(lines.len() == self.node.lines.len());
            lemma_one_step_continues(lines, goal);
            lemma_one_step_justified(lines, goal);
        }
        self.possible_or_e();
        self.possible_cp();
    }

    /// Finds every way to extend the partial proof by one rule: what the
    /// rules derive, without what adds nothing and with each way once.  The
    /// partial proof is left as it is, and what was found before is
    /// forgotten, so that a second call finds the same.  Each way found
    /// continues the lines, and each of its lines that derives something
    /// rests on exactly what the lines that it cites rest on.
    pub fn find(&mut self)
        requires
            old(self).well_formed(),
        ensures
            final(self).node() == old(self).node(),
            final(self).depth() == old(self).depth(),
            candidates_of(final(self).found()) == candidates(
                old(self).lines(),
                old(self).node().conclusion@,
                old(self).depth(),
            ),
            forall|k: int|
                0 <= k < final(self).found().len() ==> continues(
                    old(self).lines(),
                    #[trigger] candidates_of(final(self).found())[k],
                ) && justified(old(self).lines(), candidates_of(final(self).found())[k]),
        decreases 2 * old(self).depth(), 6nat,
    {
        let ghost lines = self.lines();
        let ghost goal = self.node.conclusion@;
        self.gather();
        let ghost all = candidates_of(self.possibles@);
        proof {
            if only_assumptions(lines) {
                assert(all =~= derivable(lines, goal, self.depth()));
            } else {
                assert(all =~= one_step(lines, goal));
                lemma_sub_proofs_add_nothing(lines, goal, self.depth());
            }
        }
        let kept = sift(&self.node.lines, &self.possibles);
        self.possibles = kept;
        assert forall|k: int| 0 <= k < self.possibles@.len() implies continues(
            old(self).lines(),
            #[trigger] candidates_of(self.possibles@)[k],
        ) && justified(old(self).lines(), candidates_of(self.possibles@)[k]) by {
            let c = candidates_of(self.possibles@)[k];
            let i = choose|i: int| 0 <= i < all.len() && all[i] == c;
            assert(continues(old(self).lines(), all[i]));
        }
    }

    /// Adds a way to those found.
    fn add_possible(&mut self, possible: Possible)
        ensures
            final(self).node() == old(self).node(),
            final(self).depth() == old(self).depth(),
            final(self).vars == old(self).vars,
            candidates_of(final(self).found()) == candidates_of(old(self).found()).push(
                possible@,
            ),
    {
        self.possibles.push(possible);
        assert(candidates_of(self.possibles@) =~= candidates_of(old(self).possibles@).push(
            possible@,
        ));
    }
}

impl PossibleFinder {
    /// Every tuple of `dimension` line indices, the first index running
    /// fastest: for two, all pairs with the first second line, then all
    /// with the next.
    fn iterate_lines_in_dimension(&self, dimension: usize) -> (tuples: Vec<Vec<usize>>)
        ensures
            tuples_of(tuples@) == index_tuples(self.lines().len() as int, dimension as nat),
    {
        tuples_before(self.node.lines.len(), dimension)
    }

    /// Adds what a rule that looks at pairs of lines derives.
    fn pairs(&mut self, rule: Rule)
        ensures
            final(self).node() == old(self).node(),
            final(self).depth() == old(self).depth(),
            final(self).vars == old(self).vars,
            candidates_of(final(self).found()) == candidates_of(old(self).found()) + over_pairs(
                old(self).lines().len() as int,
                |i: int, j: int| pair_rule_at(old(self).lines(), rule, i, j),
            ),
    {
        let pairs = self.iterate_lines_in_dimension(2);
        pairs_into(&self.node.lines, &pairs, rule, &mut self.possibles);
    }

    /// Adds what modus ponens derives.
    fn possible_mp(&mut self)
        ensures
            final(self).node() == old(self).node(),
            final(self).depth() == old(self).depth(),
            final(self).vars == old(self).vars,
            candidates_of(final(self).found()) == candidates_of(old(self).found()) + over_pairs(
                old(self).lines().len() as int,
                |i: int, j: int| modus_ponens_at(old(self).lines(), i, j),
            ),
    {
        self.pairs(Rule::ModusPonens);
        let ghost lines = old(self).lines();
        assert((|i: int, j: int| pair_rule_at(lines, Rule::ModusPonens, i, j)) =~= (|
            i: int,
            j: int,
        | modus_ponens_at(lines, i, j)));
    }

    /// Adds what modus tollens derives.
    fn possible_mt(&mut self)
        ensures
            final(self).node() == old(self).node(),
            final(self).depth() == old(self).depth(),
            final(self).vars == old(self).vars,
            candidates_of(final(self).found()) == candidates_of(old(self).found()) + over_pairs(
                old(self).lines().len() as int,
                |i: int, j: int| modus_tollens_at(old(self).lines(), i, j),
            ),
    {
        self.pairs(Rule::ModusTollens);
        let ghost lines = old(self).lines();
        assert((|i: int, j: int| pair_rule_at(lines, Rule::ModusTollens, i, j)) =~= (|
            i: int,
            j: int,
        | modus_tollens_at(lines, i, j)));
    }

    /// Adds the conjunctions of the lines.
    fn possible_and_i(&mut self)
        ensures
            final(self).node() == old(self).node(),
            final(self).depth() == old(self).depth(),
            final(self).vars == old(self).vars,
            candidates_of(final(self).found()) == candidates_of(old(self).found()) + over_pairs(
                old(self).lines().len() as int,
                |i: int, j: int| and_introduction_at(old(self).lines(), i, j),
            ),
    {
        self.pairs(Rule::AndIntroduction);
        let ghost lines = old(self).lines();
        assert((|i: int, j: int| pair_rule_at(lines, Rule::AndIntroduction, i, j)) =~= (|
            i: int,
            j: int,
        | and_introduction_at(lines, i, j)));
    }

    /// Adds the disjunctions of the lines.
    fn possible_or_i(&mut self)
        ensures
            final(self).node() == old(self).node(),
            final(self).depth() == old(self).depth(),
            final(self).vars == old(self).vars,
            candidates_of(final(self).found()) == candidates_of(old(self).found()) + over_pairs(
                old(self).lines().len() as int,
                |i: int, j: int| or_introduction_at(old(self).lines(), i, j),
            ),
    {
        self.pairs(Rule::OrIntroduction);
        let ghost lines = old(self).lines();
        assert((|i: int, j: int| pair_rule_at(lines, Rule::OrIntroduction, i, j)) =~= (|
            i: int,
            j: int,
        | or_introduction_at(lines, i, j)));
    }

    /// Adds what and-elimination derives.
    fn possible_and_e(&mut self)
        ensures
            final(self).node() == old(self).node(),
            final(self).depth() == old(self).depth(),
            final(self).vars == old(self).vars,
            candidates_of(final(self).found()) == candidates_of(old(self).found()) + over_lines(
                old(self).lines().len() as int,
                |i: int| and_elimination_at(old(self).lines(), i),
            ),
    {
        and_e_into(&self.node.lines, &mut self.possibles);
    }

    /// Adds what the removal of double negations derives.
    fn possible_dn_remove(&mut self)
        ensures
            final(self).node() == old(self).node(),
            final(self).depth() == old(self).depth(),
            final(self).vars == old(self).vars,
            candidates_of(final(self).found()) == candidates_of(old(self).found()) + over_lines(
                old(self).lines().len() as int,
                |i: int| double_negation_remove_at(old(self).lines(), i),
            ),
    {
        dn_remove_into(&self.node.lines, &mut self.possibles);
    }

    /// Adds the double negation of every line.
    fn possible_dn_add(&mut self)
        ensures
            final(self).node() == old(self).node(),
            final(self).depth() == old(self).depth(),
            final(self).vars == old(self).vars,
            candidates_of(final(self).found()) == candidates_of(old(self).found()) + over_lines(
                old(self).lines().len() as int,
                |i: int| double_negation_add_at(old(self).lines(), i),
            ),
    {
        dn_add_into(&self.node.lines, &mut self.possibles);
    }

    /// Adds the disjunctions of every line with every variable in play.
    fn possible_or_i_with_vars(&mut self)
        ensures
            final(self).node() == old(self).node(),
            final(self).depth() == old(self).depth(),
            final(self).vars == old(self).vars,
            candidates_of(final(self).found()) == candidates_of(old(self).found()) + over_lines(
                old(self).lines().len() as int,
                |i: int| or_introduction_names_at(old(self).lines(), names_of(old(self).vars@), i),
            ),
    {
        or_i_with_vars_into(&self.node.lines, &self.vars, &mut self.possibles);
    }

    /// Searches for a sub-proof of `conclusion`, or of the conclusion of the
    /// partial proof where none is given, from `lines`, within the bounds
    /// of inner searches.  Hands out the lines found that are no plain
    /// assumptions.
    fn search_sub_proof(&self, lines: Vec<Line>, conclusion: Option<Expression>) -> (r: Result<
        Vec<Line>,
        (),
    >)
        requires
            self.depth() > 0,
            numbered(steps(lines@)),
        ensures
            match search_from(
                seq![steps(lines@)],
                match conclusion {
                    Some(c) => c@,
                    None => self.node().conclusion@,
                },
                inner_settings(),
                0,
                false,
                (self.depth() - 1) as nat,
            ) {
                Ok(found) => r matches Ok(d) && steps(d@) == deductions(found) && extends(
                    steps(lines@),
                    found,
                ) && sound_from(found, lines@.len() as int) && found.len() <= usize::MAX,
                Err(_) => r is Err,
            },
        decreases 2 * self.depth(), 1nat,
    {
        let goal = match conclusion {
            Some(c) => c,
            None => self.node.conclusion.clone(),
        };
        let mut proof = Proof::new_raw(
            self.node.assumptions(),
            goal,
            lines,
            inner_search_settings(),
            self.depth - 1,
        );
        match proof.search() {
            Ok(_) => {
                let n = proof.len();
                Ok(proof.get_deduction_lines())
            },
            Err(_) => Err(()),
        }
    }
}

/// What a line of a second branch cites once the branch stands behind a
/// first branch of `shift` lines.
fn shifted_numbers(cited: &Vec<usize>, n: usize, shift: usize, bound: usize) -> (r: Vec<usize>)
    requires
        forall|d: int| 0 <= d < cited@.len() ==> #[trigger] cited@[d] < bound,
        bound + shift <= usize::MAX,
    ensures
        r@ == cited@.map_values(
            |d: usize|
                if d >= n as int {
                    (d + shift as int) as usize
                } else {
                    d
                },
        ),
        forall|d: int|
            0 <= d < r@.len() ==> #[trigger] r@[d] < bound + shift && (cited@[d] < n ==> r@[d]
                < n),
{
    let ghost moved = cited@.map_values(
        |d: usize|
            if d >= n as int {
                (d + shift as int) as usize
            } else {
                d
            },
    );
    let mut r: Vec<usize> = Vec::new();
    let mut k: usize = 0;
    while k < cited.len()
        invariant
            k <= cited.len(),
            bound + shift <= usize::MAX,
            forall|d: int| 0 <= d < cited@.len() ==> #[trigger] cited@[d] < bound,
            moved == cited@.map_values(
                |d: usize|
                    if d >= n as int {
                        (d + shift as int) as usize
                    } else {
                        d
                    },
            ),
            r@ == moved.take(k as int),
        decreases cited.len() - k,
    {
        let c = cited[k];
        if c >= n {
            r.push(c + shift);
        } else {
            r.push(c);
        }
        assert(r@ =~= moved.take(k as int + 1));
        k += 1;
    }
    assert(moved.take(cited.len() as int) =~= moved);
    r
}

/// The lines followed by a first branch and by a second one, which is moved
/// behind the first.
fn join_branches(lines: &Vec<Line>, first: &Vec<Line>, second: &Vec<Line>) -> (full: Vec<Line>)
    requires
        continues(steps(lines@), steps(second@)),
    ensures
        steps(full@) == steps(lines@) + (steps(first@) + steps(second@).map_values(
            |s: Step| shifted(s, lines@.len() as int, first@.len() as int),
        )),
{
    let n = lines.len();
    let shift = first.len();
    let ghost model = steps(lines@);
    let ghost a = steps(first@);
    let ghost b = steps(second@);
    let ghost moved = b.map_values(|s: Step| shifted(s, n as int, shift as int));
    let mut full = copy_lines(lines);
    let mut k: usize = 0;
    assert(steps(full@) =~= model + a.take(0));
    while k < first.len()
        invariant
            k <= first.len(),
            a == steps(first@),
            full.len() == n + k,
            steps(full@) == model + a.take(k as int),
        decreases first.len() - k,
    {
        full.push(first[k].clone());
        assert(a[k as int] == first@[k as int]@);
        assert(steps(full@) =~= (model + a.take(k as int)).push(a[k as int]));
        assert(steps(full@) =~= model + a.take(k as int + 1));
        k += 1;
    }
    assert(a.take(first.len() as int) =~= a);
    assert(steps(full@) =~= model + a + moved.take(0));
    let mut k: usize = 0;
    while k < second.len()
        invariant
            k <= second.len(),
            n == lines.len(),
            shift == first.len(),
            model == steps(lines@),
            b == steps(second@),
            continues(model, b),
            moved == b.map_values(|s: Step| shifted(s, n as int, shift as int)),
            full.len() == n + shift + k,
            steps(full@) == model + a + moved.take(k as int),
        decreases second.len() - k,
    {
        let line = &second[k];
        assert(b[k as int] == line@);
        assert(line.line_number == n + k);
        let cited = shifted_numbers(&line.deduction_lines, n, shift, n + k);
        let moved_line = Line::new(
            copy_numbers(&line.assumption_lines),
            line.line_number + shift,
            line.expression.clone(),
            line.rule,
            cited,
        );
        assert(moved_line@ == shifted(line@, n as int, shift as int));
        full.push(moved_line);
        assert(moved[k as int] == moved_line@);
        assert(steps(full@) =~= (model + a + moved.take(k as int)).push(moved[k as int]));
        assert(steps(full@) =~= model + a + moved.take(k as int + 1));
        k += 1;
    }
    assert(moved.take(second.len() as int) =~= moved);
    assert(steps(full@) =~= model + (a + moved));
    full
}

/// The number `first` and the numbers of the lines from `n` on.
fn cite_from(full: &Vec<Line>, n: usize, first: usize) -> (cited: Vec<usize>)
    requires
        n <= full.len(),
    ensures
        cited@ == seq![first] + numbers(steps(full@).skip(n as int)),
{
    let ghost branches = steps(full@).skip(n as int);
    let mut cited = single(first);
    let mut k: usize = n;
    assert(cited@ =~= seq![first] + numbers(branches.take(0)));
    while k < full.len()
        invariant
            n <= k <= full.len(),
            branches == steps(full@).skip(n as int),
            cited@ == seq![first] + numbers(branches.take(k - n)),
        decreases full.len() - k,
    {
        assert(branches[k - n] == full@[k as int]@);
        cited.push(full[k].line_number);
        assert(cited@ =~= seq![first] + numbers(branches.take(k - n + 1)));
        k += 1;
    }
    assert(branches.take(branches.len() as int) =~= branches);
    cited
}

/// `base` with the root assumptions of the lines from `n` on put in.
fn rest_on(base: Vec<usize>, full: &Vec<Line>, n: usize) -> (rests: Vec<usize>)
    requires
        n <= full.len(),
    ensures
        rests@ == with_assumptions_of(base@, steps(full@).skip(n as int)),
{
    let ghost branches = steps(full@).skip(n as int);
    let ghost start = base@;
    let mut rests = base;
    let mut k: usize = n;
    assert(branches.take(0) =~= Seq::<Step>::empty());
    while k < full.len()
        invariant
            n <= k <= full.len(),
            branches == steps(full@).skip(n as int),
            rests@ == with_assumptions_of(start, branches.take(k - n)),
        decreases full.len() - k,
    {
        assert(branches[k - n] == full@[k as int]@);
        assert(branches.take(k - n + 1).drop_last() =~= branches.take(k - n));
        insert_numbers(&mut rests, &full[k].assumption_lines);
        k += 1;
    }
    assert(branches.take(branches.len() as int) =~= branches);
    rests
}

/// The candidate of an or-elimination, from the lines of its two branches.
fn splice_branches(
    lines: &Vec<Line>,
    first: &Vec<Line>,
    second: &Vec<Line>,
    conclusion: &Expression,
) -> (possible: Possible)
    requires
        first@.len() > 0,
        continues(steps(lines@), steps(first@)),
        continues(steps(lines@), steps(second@)),
        justified(steps(lines@), steps(first@)),
        justified(steps(lines@), steps(second@)),
    ensures
        possible@ == or_splice(steps(lines@), steps(first@), steps(second@), conclusion@),
        continues(steps(lines@), possible@),
        justified(steps(lines@), possible@),
{
    let n = lines.len();
    let ghost model = steps(lines@);
    let ghost branches = steps(first@) + steps(second@).map_values(
        |s: Step| shifted(s, n as int, first@.len() as int),
    );
    let mut full = join_branches(lines, first, second);
    assert(steps(full@).skip(n as int) =~= branches);
    assert(full.len() == n + branches.len());
    let cited = cite_from(&full, n, n);
    let rests = rest_on(assumption_line_nums(lines, &cited), &full, n);
    let last = Line::new(rests, full.len(), conclusion.clone(), Rule::OrElimination, cited);
    full.push(last);
    let tail = full.split_off(n);
    let possible = Possible::new(tail);
    assert(possible@ =~= branches.push(last@));
    proof {
        lemma_branches_continue(model, steps(first@), steps(second@));
        lemma_closed_continues(model, branches, last@);
        lemma_or_splice_justified(model, steps(first@), steps(second@), conclusion@);
    }
    possible
}

/// The candidate of a conditional proof, from the lines of its sub-proof.
fn splice_conditional(lines: &Vec<Line>, sub: Vec<Line>, conclusion: &Expression) -> (possible:
    Possible)
    requires
        sub@.len() > 0,
        lines@.len() + sub@.len() <= usize::MAX,
        continues(steps(lines@), steps(sub@)),
        justified(steps(lines@), steps(sub@)),
    ensures
        possible@ == conditional_splice(steps(lines@), steps(sub@), conclusion@),
        continues(steps(lines@), possible@),
        justified(steps(lines@), possible@),
{
    let n = lines.len();
    let ghost model = steps(lines@);
    let ghost found = steps(sub@);
    let mut sub = sub;
    assert(found.skip(0) =~= found);
    let cited = cite_from(&sub, 0, n);
    let rests = rest_on(Vec::new(), &sub, 0);
    let m = sub.len();
    assert(found.last() == sub@[m - 1]@);
    assert(found[m - 1].line_number == n + m - 1);
    let last = Line::new(
        rests,
        sub[m - 1].line_number + 1,
        conclusion.clone(),
        Rule::ConditionalProof,
        cited,
    );
    sub.push(last);
    let possible = Possible::new(sub);
    assert(possible@ =~= found.push(last@));
    proof {
        lemma_closed_continues(model, found, last@);
        lemma_conditional_splice_justified(model, found, conclusion@);
    }
    possible
}

impl PossibleFinder {
    /// The sub-proof of `conclusion`, or of the conclusion of the partial
    /// proof, from the lines with `assumed` behind them, if the inner
    /// search finds one: its lines from `assumed` on.
    fn sub_proof_with(&self, assumed: Line, conclusion: Option<Expression>) -> (r: Result<
        Vec<Line>,
        (),
    >)
        requires
            self.well_formed(),
            self.depth() > 0,
            only_assumptions(self.lines()),
            assumed@.line_number == self.lines().len(),
            assumed@.rule != Rule::Assumption,
            assumes(assumed@.rule),
            forall|d: int|
                0 <= d < assumed@.deduction_lines.len() ==> #[trigger] assumed@.deduction_lines[d]
                    < self.lines().len(),
        ensures
            match search_from(
                seq![self.lines().push(assumed@)],
                match conclusion {
                    Some(c) => c@,
                    None => self.node().conclusion@,
                },
                inner_settings(),
                0,
                false,
                (self.depth() - 1) as nat,
            ) {
                Ok(found) => r matches Ok(d) && steps(d@) == deductions(found) && d@.len() > 0
                    && continues(self.lines(), steps(d@)) && justified(self.lines(), steps(d@))
                    && self.lines().len() + d@.len() <= usize::MAX,
                Err(_) => r is Err,
            },
        decreases 2 * self.depth(), 2nat,
    {
        let ghost lines = self.lines();
        let mut begun = copy_lines(&self.node.lines);
        begun.push(assumed);
        assert(steps(begun@) =~= lines.push(assumed@));
        let ghost goal = if conclusion is Some {
            conclusion->0@
        } else {
            self.node().conclusion@
        };
        let r = self.search_sub_proof(begun, conclusion);
        proof {
            match search_from(
                seq![lines.push(assumed@)],
                goal,
                inner_settings(),
                0,
                false,
                (self.depth() - 1) as nat,
            ) {
                Ok(found) => {
                    lemma_sub_proof_continues(lines, assumed@, found);
                    lemma_deductions_of_extension(lines, found);
                    lemma_sub_proof_justified(lines, found);
                },
                Err(_) => {},
            }
        }
        r
    }

    /// Adds what or-elimination derives from line `i`.
    fn or_e_at(&mut self, i: usize)
        requires
            old(self).well_formed(),
            only_assumptions(old(self).lines()),
            i < old(self).lines().len(),
        ensures
            final(self).node() == old(self).node(),
            final(self).depth() == old(self).depth(),
            final(self).vars == old(self).vars,
            candidates_of(final(self).found()) == candidates_of(old(self).found())
                + or_elimination_at(
                old(self).lines(),
                old(self).node().conclusion@,
                old(self).depth(),
                i as int,
            ),
            forall|k: int|
                old(self).found().len() <= k < final(self).found().len() ==> continues(
                    old(self).lines(),
                    #[trigger] candidates_of(final(self).found())[k],
                ) && justified(old(self).lines(), candidates_of(final(self).found())[k]),
        decreases 2 * old(self).depth(), 3nat,
    {
        let ghost lines = self.lines();
        let ghost goal = self.node.conclusion@;
        let ghost before = candidates_of(self.possibles@);
        let ghost depth = self.depth();
        let n = self.node.lines.len();
        if self.depth == 0 {
            assert(candidates_of(self.possibles@) =~= before + or_elimination_at(
                lines,
                goal,
                depth,
                i as int,
            ));
            return ;
        }
        assert(lines[i as int] == self.node.lines@[i as int]@);
        let sides = match &self.node.lines[i].expression {
            Expression::Or(left, right) => Some(((**left).clone(), (**right).clone())),
            _ => None,
        };
        if sides.is_none() {
            assert(candidates_of(self.possibles@) =~= before + or_elimination_at(
                lines,
                goal,
                depth,
                i as int,
            ));
            return ;
        }
        let (left, right) = sides.unwrap();
        let number = self.node.lines[i].line_number;
        let assumed = Line::new(
            single(number),
            n,
            left,
            Rule::OrEliminationAssumption,
            single(number),
        );
        assert(assumed@ == or_assumption(lines, i as int, left@));
        let first = match self.sub_proof_with(assumed, None) {
            Ok(found) => found,
            Err(_) => {
                assert(candidates_of(self.possibles@) =~= before + or_elimination_at(
                    lines,
                    goal,
                    depth,
                    i as int,
                ));
                return ;
            },
        };
        let other = Line::new(
            single(number),
            n,
            right,
            Rule::OrEliminationAssumption,
            single(number),
        );
        assert(other@ == or_assumption(lines, i as int, right@));
        let second = match self.sub_proof_with(other, None) {
            Ok(found) => found,
            Err(_) => {
                assert(candidates_of(self.possibles@) =~= before + or_elimination_at(
                    lines,
                    goal,
                    depth,
                    i as int,
                ));
                return ;
            },
        };
        let possible = splice_branches(&self.node.lines, &first, &second, &self.node.conclusion);
        self.add_possible(possible);
        assert(candidates_of(self.possibles@) =~= before + or_elimination_at(
            lines,
            goal,
            depth,
            i as int,
        ));
    }

    /// Adds what or-elimination derives, where every line is a plain
    /// assumption.  Where a line is none, be it the assumption of an open
    /// block or a derived line, the rule is passed over and no sub-proof is
    /// searched for: what it would derive there repeats that line, and adds
    /// nothing.
    fn possible_or_e(&mut self)
        requires
            old(self).well_formed(),
        ensures
            final(self).node() == old(self).node(),
            final(self).depth() == old(self).depth(),
            final(self).vars == old(self).vars,
            candidates_of(final(self).found()) == candidates_of(old(self).found()) + (
            if only_assumptions(old(self).lines()) {
                or_elimination(
                    old(self).lines(),
                    old(self).node().conclusion@,
                    old(self).depth(),
                )
            } else {
                Seq::<Candidate>::empty()
            }),
            !only_assumptions(old(self).lines()) || block_open(
                old(self).lines(),
                Rule::OrEliminationAssumption,
                Rule::OrElimination,
            ) ==> final(self).found() == old(self).found(),
            forall|k: int|
                old(self).found().len() <= k < final(self).found().len() ==> continues(
                    old(self).lines(),
                    #[trigger] candidates_of(final(self).found())[k],
                ) && justified(old(self).lines(), candidates_of(final(self).found())[k]),
        decreases 2 * old(self).depth(), 4nat,
    {
        let ghost lines = self.lines();
        let ghost goal = self.node.conclusion@;
        let ghost base = candidates_of(self.possibles@);
        let ghost depth = self.depth();
        proof {
            lemma_open_block_is_no_assumption(
                lines,
                Rule::OrEliminationAssumption,
                Rule::OrElimination,
            );
        }
        if !plain(&self.node.lines) {
            assert(candidates_of(self.possibles@) =~= base + Seq::<Candidate>::empty());
            return ;
        }
        if self.depth == 0 {
            assert(candidates_of(self.possibles@) =~= base + or_elimination(lines, goal, depth));
            return ;
        }
        assert(!block_open(lines, Rule::OrEliminationAssumption, Rule::OrElimination));
        let n = self.node.lines.len();
        let mut i: usize = 0;
        assert(candidates_of(self.possibles@) =~= base + or_elimination_upto(
            lines,
            goal,
            depth,
            0,
        ));
        while i < n
            invariant
                i <= n,
                n == self.node.lines.len(),
                self.node == old(self).node,
                self.depth == old(self).depth,
                self.vars == old(self).vars,
                depth == self.depth,
                depth > 0,
                self.node.well_formed(),
                lines == steps(self.node.lines@),
                goal == self.node.conclusion@,
                only_assumptions(lines),
                base == candidates_of(old(self).possibles@),
                candidates_of(self.possibles@) == base + or_elimination_upto(
                    lines,
                    goal,
                    depth,
                    i as int,
                ),
                forall|k: int|
                    base.len() <= k < self.possibles@.len() ==> continues(
                        lines,
                        #[trigger] candidates_of(self.possibles@)[k],
                    ) && justified(lines, candidates_of(self.possibles@)[k]),
            decreases n - i,
        {
            let ghost before = candidates_of(self.possibles@);
            self.or_e_at(i);
            assert(candidates_of(self.possibles@) =~= base + or_elimination_upto(
                lines,
                goal,
                depth,
                i as int + 1,
            ));
            i += 1;
        }
        assert(!block_open(lines, Rule::OrEliminationAssumption, Rule::OrElimination));
    }

    /// Adds what a conditional proof derives, where every line is a plain
    /// assumption.  Where a line is none, be it the assumption of an open
    /// block or a derived line, and where the conclusion is no implication,
    /// the rule is passed over and no sub-proof is searched for.
    fn possible_cp(&mut self)
        requires
            old(self).well_formed(),
        ensures
            final(self).node() == old(self).node(),
            final(self).depth() == old(self).depth(),
            final(self).vars == old(self).vars,
            candidates_of(final(self).found()) == candidates_of(old(self).found()) + (
            if only_assumptions(old(self).lines()) {
                conditional_proof(
                    old(self).lines(),
                    old(self).node().conclusion@,
                    old(self).depth(),
                )
            } else {
                Seq::<Candidate>::empty()
            }),
            !only_assumptions(old(self).lines()) || block_open(
                old(self).lines(),
                Rule::ConditionalProofAssumption,
                Rule::ConditionalProof,
            ) || !(old(self).node().conclusion@ is Implies) ==> final(self).found() == old(
                self,
            ).found(),
            forall|k: int|
                old(self).found().len() <= k < final(self).found().len() ==> continues(
                    old(self).lines(),
                    #[trigger] candidates_of(final(self).found())[k],
                ) && justified(old(self).lines(), candidates_of(final(self).found())[k]),
        decreases 2 * old(self).depth(), 4nat,
    {
        let ghost lines = self.lines();
        let ghost goal = self.node.conclusion@;
        let ghost base = candidates_of(self.possibles@);
        let ghost depth = self.depth();
        proof {
            lemma_open_block_is_no_assumption(
                lines,
                Rule::ConditionalProofAssumption,
                Rule::ConditionalProof,
            );
        }
        if !plain(&self.node.lines) {
            assert(candidates_of(self.possibles@) =~= base + Seq::<Candidate>::empty());
            return ;
        }
        if self.depth == 0 {
            assert(candidates_of(self.possibles@) =~= base + conditional_proof(
                lines,
                goal,
                depth,
            ));
            return ;
        }
        let sides = match &self.node.conclusion {
            Expression::Implies(left, right) => Some(((**left).clone(), (**right).clone())),
            _ => None,
        };
        match sides {
            Some((left, right)) => {
                assert(!block_open(
                    lines,
                    Rule::ConditionalProofAssumption,
                    Rule::ConditionalProof,
                ));
                let n = self.node.lines.len();
                let assumed = Line::new(
                    single(n),
                    n,
                    left,
                    Rule::ConditionalProofAssumption,
                    Vec::new(),
                );
                assert(assumed@ == conditional_assumption(lines, left@));
                match self.sub_proof_with(assumed, Some(right)) {
                    Ok(sub) => {
                        let possible = splice_conditional(
                            &self.node.lines,
                            sub,
                            &self.node.conclusion,
                        );
                        self.add_possible(possible);
                        assert(candidates_of(self.possibles@) =~= base + conditional_proof(
                            lines,
                            goal,
                            depth,
                        ));
                    },
                    Err(_) => {
                        assert(candidates_of(self.possibles@) =~= base + conditional_proof(
                            lines,
                            goal,
                            depth,
                        ));
                    },
                }
            },
            None => {
                assert(candidates_of(self.possibles@) =~= base + conditional_proof(
                    lines,
                    goal,
                    depth,
                ));
            },
        }
    }
}

} // verus!
