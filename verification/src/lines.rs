use crate::expression::{Expression, Formula};
use vstd::prelude::*;

verus! {

/// The inference rule that justifies a line.
#[derive(Debug, Clone, Copy, PartialEq, Eq, Structural)]
pub enum Rule {
    Assumption,
    ModusPonens,
    ModusTollens,
    ConditionalProof,
    ConditionalProofAssumption,
    DoubleNegation,
    AndIntroduction,
    AndElimination,
    OrIntroduction,
    OrElimination,
    OrEliminationAssumption,
    ReductioAdAbsurdium,
}

impl Rule {
    /// The short name under which the rule is cited in a proof.
    pub open spec fn abbreviation_text(self) -> Seq<char> {
        match self {
            Rule::Assumption => "A"@,
            Rule::ModusPonens => "MPP"@,
            Rule::ModusTollens => "MTT"@,
            Rule::ConditionalProof => "CP"@,
            Rule::ConditionalProofAssumption => "A(CP)"@,
            Rule::DoubleNegation => "DN"@,
            Rule::AndIntroduction => "&I"@,
            Rule::AndElimination => "&E"@,
            Rule::OrIntroduction => "vI"@,
            Rule::OrElimination => "vE"@,
            Rule::OrEliminationAssumption => "A(vE)"@,
            Rule::ReductioAdAbsurdium => "RAA"@,
        }
    }

    /// The short name under which the rule is cited in a proof.
    pub fn abbreviation(&self) -> (s: &'static str)
        ensures
            s@ == self.abbreviation_text(),
    {
        match self {
            Rule::Assumption => "A",
            Rule::ModusPonens => "MPP",
            Rule::ModusTollens => "MTT",
            Rule::ConditionalProof => "CP",
            Rule::ConditionalProofAssumption => "A(CP)",
            Rule::DoubleNegation => "DN",
            Rule::AndIntroduction => "&I",
            Rule::AndElimination => "&E",
            Rule::OrIntroduction => "vI",
            Rule::OrElimination => "vE",
            Rule::OrEliminationAssumption => "A(vE)",
            Rule::ReductioAdAbsurdium => "RAA",
        }
    }
}

/// One step of a proof as a mathematical value.
pub struct Step {
    /// The root assumptions on which the step rests, by line number.
    pub assumption_lines: Seq<usize>,
    /// The position of the step in its proof.
    pub line_number: usize,
    /// What the step establishes.
    pub expression: Formula,
    /// The rule that justifies it.
    pub rule: Rule,
    /// The lines from which it was derived; none for an assumption.
    pub deduction_lines: Seq<usize>,
}

/// One step of a proof.
#[derive(Debug)]
pub struct Line {
    pub assumption_lines: Vec<usize>,
    pub line_number: usize,
    pub expression: Expression,
    pub rule: Rule,
    pub deduction_lines: Vec<usize>,
}

impl View for Line {
    type V = Step;

    open spec fn view(&self) -> Step {
        Step {
            assumption_lines: self.assumption_lines@,
            line_number: self.line_number,
            expression: self.expression@,
            rule: self.rule,
            deduction_lines: self.deduction_lines@,
        }
    }
}

/// The steps of a run of lines, in order.
pub open spec fn steps(lines: Seq<Line>) -> Seq<Step> {
    lines.map_values(|l: Line| l@)
}

/// A copy of a list of line numbers.
pub(crate) fn copy_numbers(v: &Vec<usize>) -> (r: Vec<usize>)
    ensures
        r@ == v@,
{
    let mut r: Vec<usize> = Vec::new();
    let mut i: usize = 0;
    while i < v.len()
        invariant
            i <= v.len(),
            r@ == v@.take(i as int),
        decreases v.len() - i,
    {
        r.push(v[i]);
        assert(r@ =~= v@.take(i as int + 1));
        i += 1;
    }
    assert(v@.take(v.len() as int) =~= v@);
    r
}

/// Whether two lists of line numbers are the same list.
fn same_numbers(a: &Vec<usize>, b: &Vec<usize>) -> (r: bool)
    ensures
        r == (a@ == b@),
{
    if a.len() != b.len() {
        return false;
    }
    let mut i: usize = 0;
    while i < a.len()
        invariant
            i <= a.len(),
            a.len() == b.len(),
            forall|j: int| 0 <= j < i ==> a@[j] == b@[j],
        decreases a.len() - i,
    {
        if a[i] != b[i] {
            return false;
        }
        i += 1;
    }
    assert(a@ =~= b@);
    true
}

impl Clone for Line {
    fn clone(&self) -> (r: Self)
        ensures
            r@ == self@,
            r.expression == self.expression,
    {
        Line {
            assumption_lines: copy_numbers(&self.assumption_lines),
            line_number: self.line_number,
            expression: self.expression.clone(),
            rule: self.rule,
            deduction_lines: copy_numbers(&self.deduction_lines),
        }
    }
}

impl Line {
    /// A line with the given fields.
    pub fn new(
        assumption_lines: Vec<usize>,
        line_number: usize,
        expression: Expression,
        rule: Rule,
        deduction_lines: Vec<usize>,
    ) -> (line: Self)
        ensures
            line.assumption_lines == assumption_lines,
            line.line_number == line_number,
            line.expression == expression,
            line.rule == rule,
            line.deduction_lines == deduction_lines,
    {
        Line { assumption_lines, line_number, expression, rule, deduction_lines }
    }

    /// Whether the line establishes `expression`.
    pub fn matches_expression(&self, expression: &Expression) -> (r: bool)
        ensures
            r == (self@.expression == expression@),
    {
        self.expression.same(expression)
    }

    /// Whether two lines agree in every field.
    pub fn same(&self, other: &Line) -> (r: bool)
        ensures
            r == (self@ == other@),
    {
        self.line_number == other.line_number && self.rule == other.rule && same_numbers(
            &self.assumption_lines,
            &other.assumption_lines,
        ) && same_numbers(&self.deduction_lines, &other.deduction_lines) && self.expression.same(
            &other.expression,
        )
    }
}

impl PartialEq<Expression> for Line {
    fn eq(&self, other: &Expression) -> (r: bool) {
        self.expression.same(other)
    }
}

impl vstd::std_specs::cmp::PartialEqSpecImpl<Expression> for Line {
    open spec fn obeys_eq_spec() -> bool {
        true
    }

    open spec fn eq_spec(&self, other: &Expression) -> bool {
        self@.expression == other@
    }
}

/// A copy of a run of lines.
pub(crate) fn copy_lines(lines: &Vec<Line>) -> (r: Vec<Line>)
    ensures
        steps(r@) == steps(lines@),
        r.len() == lines.len(),
{
    let mut r: Vec<Line> = Vec::new();
    let mut i: usize = 0;
    while i < lines.len()
        invariant
            i <= lines.len(),
            r.len() == i,
            steps(r@) == steps(lines@).take(i as int),
        decreases lines.len() - i,
    {
        r.push(lines[i].clone());
        assert(steps(r@) =~= steps(lines@).take(i as int + 1));
        i += 1;
    }
    assert(steps(lines@).take(lines.len() as int) =~= steps(lines@));
    r
}

} // verus!
