use crate::error::{ParseFailure, ParserError, ProofError};
use crate::expression::{formulas, Expression, Formula};
use crate::lines::{Line, Rule, Step};
use crate::prover::SearchState;
use crate::sequences::{insert_all, insert_ordered, lemma_insert_ordered_at};
use vstd::prelude::*;
use vstd::string::StringExecFns;

verus! {

/// The character of a decimal digit.
pub open spec fn digit(d: nat) -> char {
    if d == 0 {
        '0'
    } else if d == 1 {
        '1'
    } else if d == 2 {
        '2'
    } else if d == 3 {
        '3'
    } else if d == 4 {
        '4'
    } else if d == 5 {
        '5'
    } else if d == 6 {
        '6'
    } else if d == 7 {
        '7'
    } else if d == 8 {
        '8'
    } else {
        '9'
    }
}

/// A number in decimal digits, without leading zeros.
pub open spec fn decimal(n: nat) -> Seq<char>
    decreases n,
{
    if n < 10 {
        seq![digit(n)]
    } else {
        decimal(n / 10).push(digit(n % 10))
    }
}

/// Texts in a row, with a separator between each two.
pub open spec fn joined(items: Seq<Seq<char>>, separator: Seq<char>) -> Seq<char>
    decreases items.len(),
{
    if items.len() == 0 {
        Seq::empty()
    } else if items.len() == 1 {
        items[0]
    } else {
        joined(items.drop_last(), separator) + separator + items.last()
    }
}

/// A run of numbers in which no number follows itself.
pub open spec fn without_repeats(s: Seq<usize>) -> Seq<usize>
    decreases s.len(),
{
    if s.len() <= 1 {
        s
    } else {
        let init = without_repeats(s.drop_last());
        if init.len() > 0 && init.last() == s.last() {
            init
        } else {
            init.push(s.last())
        }
    }
}

/// The order in which numbers are listed: ascending, equal numbers side by
/// side.
pub open spec fn not_after() -> spec_fn(usize, usize) -> bool {
    |a: usize, b: usize| a <= b
}

/// How line numbers are listed: a number that follows itself is dropped,
/// the rest ascend, and lines are counted from one.
pub open spec fn listing(numbers: Seq<usize>) -> Seq<char> {
    joined(
        insert_all(Seq::empty(), without_repeats(numbers), not_after()).map_values(
            |n: usize| decimal((n + 1) as nat),
        ),
        ", "@,
    )
}

/// The character of the decimal digit `d`.
fn digit_char(d: u128) -> (c: char)
    requires
        d < 10,
    ensures
        c == digit(d as nat),
{
    if d == 0 {
        '0'
    } else if d == 1 {
        '1'
    } else if d == 2 {
        '2'
    } else if d == 3 {
        '3'
    } else if d == 4 {
        '4'
    } else if d == 5 {
        '5'
    } else if d == 6 {
        '6'
    } else if d == 7 {
        '7'
    } else if d == 8 {
        '8'
    } else {
        '9'
    }
}

/// Writes `n` in decimal digits behind `out`.
pub(crate) fn write_decimal(n: u128, out: &mut String)
    ensures
        final(out)@ == old(out)@ + decimal(n as nat),
    decreases n,
{
    if n >= 10 {
        write_decimal(n / 10, out);
    }
    out.push(digit_char(n % 10));
    assert(out@ =~= old(out)@ + decimal(n as nat));
}

/// Puts `x` behind the numbers of `v` that are not after it.
fn insert_listed(v: &mut Vec<usize>, x: usize)
    ensures
        final(v)@ == insert_ordered(old(v)@, x, not_after()),
{
    let mut i: usize = v.len();
    while i > 0 && v[i - 1] > x
        invariant
            i <= v.len(),
            v@ == old(v)@,
            forall|k: int| i <= k < v.len() ==> v@[k] > x,
        decreases i,
    {
        i -= 1;
    }
    proof {
        lemma_insert_ordered_at(v@, x, not_after(), i as int);
    }
    v.insert(i, x);
    assert(v@ =~= old(v)@.take(i as int).push(x) + old(v)@.skip(i as int));
}

/// The numbers of `array` without those that follow themselves.
fn dedup(array: &Vec<usize>) -> (r: Vec<usize>)
    ensures
        r@ == without_repeats(array@),
{
    let mut r: Vec<usize> = Vec::new();
    let mut k: usize = 0;
    assert(array@.take(0) =~= Seq::<usize>::empty());
    while k < array.len()
        invariant
            k <= array.len(),
            r@ == without_repeats(array@.take(k as int)),
        decreases array.len() - k,
    {
        assert(array@.take(k as int + 1).drop_last() =~= array@.take(k as int));
        if r.len() == 0 || r[r.len() - 1] != array[k] {
            r.push(array[k]);
            assert(r@ =~= without_repeats(array@.take(k as int + 1)));
        }
        k += 1;
    }
    assert(array@.take(array.len() as int) =~= array@);
    r
}

/// The numbers of `array` in ascending order.
fn sort(array: &Vec<usize>) -> (r: Vec<usize>)
    ensures
        r@ == insert_all(Seq::empty(), array@, not_after()),
{
    let mut r: Vec<usize> = Vec::new();
    let mut k: usize = 0;
    assert(array@.take(0) =~= Seq::<usize>::empty());
    while k < array.len()
        invariant
            k <= array.len(),
            r@ == insert_all(Seq::empty(), array@.take(k as int), not_after()),
        decreases array.len() - k,
    {
        assert(array@.take(k as int + 1).drop_last() =~= array@.take(k as int));
        insert_listed(&mut r, array[k]);
        k += 1;
    }
    assert(array@.take(array.len() as int) =~= array@);
    r
}

/// Lists line numbers, counted from one, in ascending order.
pub fn join(array: &Vec<usize>) -> (text: String)
    ensures
        text@ == listing(array@),
{
    let sorted = sort(&dedup(array));
    let ghost items = sorted@.map_values(|n: usize| decimal((n + 1) as nat));
    let mut text = String::new();
    let mut k: usize = 0;
    assert(items.take(0) =~= Seq::<Seq<char>>::empty());
    while k < sorted.len()
        invariant
            k <= sorted.len(),
            items == sorted@.map_values(|n: usize| decimal((n + 1) as nat)),
            text@ == joined(items.take(k as int), ", "@),
        decreases sorted.len() - k,
    {
        assert(items.take(k as int + 1).drop_last() =~= items.take(k as int));
        if k > 0 {
            text.append(", ");
        }
        write_decimal(sorted[k] as u128 + 1, &mut text);
        assert(text@ =~= joined(items.take(k as int + 1), ", "@));
        k += 1;
    }
    assert(items.take(sorted.len() as int) =~= items);
    text
}

/// The formulas in canonical text, with `, ` between them.
pub open spec fn formula_listing(formulas: Seq<Formula>) -> Seq<char> {
    joined(formulas.map_values(|f: Formula| f.text()), ", "@)
}

/// Lists expressions in canonical text.
pub fn join_expressions(expressions: &Vec<Expression>) -> (text: String)
    ensures
        text@ == formula_listing(formulas(expressions@)),
{
    let ghost items = formulas(expressions@).map_values(|f: Formula| f.text());
    let mut text = String::new();
    let mut k: usize = 0;
    assert(items.take(0) =~= Seq::<Seq<char>>::empty());
    while k < expressions.len()
        invariant
            k <= expressions.len(),
            items == formulas(expressions@).map_values(|f: Formula| f.text()),
            text@ == joined(items.take(k as int), ", "@),
        decreases expressions.len() - k,
    {
        assert(items.take(k as int + 1).drop_last() =~= items.take(k as int));
        if k > 0 {
            text.append(", ");
        }
        let one = expressions[k].render();
        text.append(one.as_str());
        assert(text@ =~= joined(items.take(k as int + 1), ", "@));
        k += 1;
    }
    assert(items.take(expressions.len() as int) =~= items);
    text
}

impl Step {
    /// The line as it stands in a report: its number counted from one, what
    /// it establishes, the root assumptions on which it rests, its rule,
    /// and the lines that it cites if it cites any.
    pub open spec fn text(self) -> Seq<char> {
        let head = "Line "@ + decimal((self.line_number + 1) as nat) + ": "@
            + self.expression.text() + " ["@ + listing(self.assumption_lines) + "] using "@
            + self.rule.abbreviation_text();
        if self.deduction_lines.len() > 0 {
            head + " from lines "@ + listing(self.deduction_lines)
        } else {
            head
        }
    }
}

impl Line {
    /// The line as it stands in a report.
    pub fn render(&self) -> (text: String)
        ensures
            text@ == self@.text(),
    {
        let mut text = String::new();
        text.append("Line ");
        write_decimal(self.line_number as u128 + 1, &mut text);
        text.append(": ");
        text.append(self.expression.render().as_str());
        text.append(" [");
        text.append(join(&self.assumption_lines).as_str());
        text.append("] using ");
        text.append(self.rule.abbreviation());
        if self.deduction_lines.len() > 0 {
            text.append(" from lines ");
            text.append(join(&self.deduction_lines).as_str());
        }
        assert(text@ =~= self@.text());
        text
    }
}

impl SearchState {
    /// The state in words.
    pub open spec fn text(self) -> Seq<char> {
        match self {
            SearchState::FinishedIteration => "Finished iteration"@,
            SearchState::FinishedProof => "Finished proof"@,
            SearchState::Searching => "Searching"@,
            SearchState::DeadEnd => "Dead end"@,
            SearchState::MaximumLines => "Maximum lines"@,
            SearchState::MaximumIteration => "Maximum iteration"@,
        }
    }

    /// The state in words.
    pub fn message(&self) -> (text: &'static str)
        ensures
            text@ == self.text(),
    {
        match self {
            SearchState::FinishedIteration => "Finished iteration",
            SearchState::FinishedProof => "Finished proof",
            SearchState::Searching => "Searching",
            SearchState::DeadEnd => "Dead end",
            SearchState::MaximumLines => "Maximum lines",
            SearchState::MaximumIteration => "Maximum iteration",
        }
    }
}

impl ParseFailure {
    /// The failure in words.
    pub open spec fn text(self) -> Seq<char> {
        match self {
            ParseFailure::InvalidExpression(c) => "'"@.push(c)
                + "' did not match one of the valid characters."@,
            ParseFailure::EmptyExpression => "Empty expression"@,
            ParseFailure::ExpectedLeftOperand => "Expected left operand"@,
            ParseFailure::ExpectedExpressionAfterNegation => "Expected expression after '-'"@,
            ParseFailure::InvalidOperator(c) => "Invalid operator: '"@.push(c) + "'"@,
            ParseFailure::UnmatchedParentheses(read, open) =>
                "Unmatched parentheses in expression: "@ + read + " at bracket "@ + decimal(
                    open as nat,
                ),
        }
    }
}

impl ParserError {
    /// The failure in words.
    pub fn message(&self) -> (text: String)
        ensures
            text@ == self@.text(),
    {
        let mut text = String::new();
        match self {
            ParserError::InvalidExpression(c) => {
                text.append("'");
                text.push(*c);
                text.append("' did not match one of the valid characters.");
            },
            ParserError::EmptyExpression => {
                text.append("Empty expression");
            },
            ParserError::ExpectedLeftOperand => {
                text.append("Expected left operand");
            },
            ParserError::ExpectedExpressionAfterNegation => {
                text.append("Expected expression after '-'");
            },
            ParserError::InvalidOperator(c) => {
                text.append("Invalid operator: '");
                text.push(*c);
                text.append("'");
            },
            ParserError::UnmatchedParentheses(read, open) => {
                text.append("Unmatched parentheses in expression: ");
                text.append(read.as_str());
                text.append(" at bracket ");
                write_decimal(*open as u128, &mut text);
            },
        }
        assert(text@ =~= self@.text());
        text
    }
}

impl ProofError {
    /// The failure in words.
    pub open spec fn text(self) -> Seq<char> {
        match self {
            ProofError::ParserError(e) => "Parser error: "@ + e@.text(),
            ProofError::SearchError(state) => "Search error: "@ + state.text(),
        }
    }

    /// The failure in words.
    pub fn message(&self) -> (text: String)
        ensures
            text@ == self.text(),
    {
        let mut text = String::new();
        match self {
            ProofError::ParserError(e) => {
                text.append("Parser error: ");
                text.append(e.message().as_str());
            },
            ProofError::SearchError(state) => {
                text.append("Search error: ");
                text.append(state.message());
            },
        }
        assert(text@ =~= self.text());
        text
    }
}

/// How deep in sub-proofs a line stands that follows lines at depth
/// `level`: deeper by one if it assumes something for a sub-proof, less
/// deep by one if it closes one.
pub open spec fn depth_at(level: nat, rule: Rule) -> nat {
    match rule {
        Rule::OrEliminationAssumption => level + 1,
        Rule::ConditionalProofAssumption => level + 1,
        Rule::OrElimination => if level > 0 {
            (level - 1) as nat
        } else {
            0
        },
        Rule::ConditionalProof => if level > 0 {
            (level - 1) as nat
        } else {
            0
        },
        _ => level,
    }
}

/// How deep in sub-proofs the last of the lines stands.
pub open spec fn depth_of(lines: Seq<Step>) -> nat
    decreases lines.len(),
{
    if lines.len() == 0 {
        0
    } else {
        depth_at(depth_of(lines.drop_last()), lines.last().rule)
    }
}

/// Two spaces for each level of depth.
pub open spec fn indent(level: nat) -> Seq<char>
    decreases level,
{
    if level == 0 {
        Seq::empty()
    } else {
        indent((level - 1) as nat) + "  "@
    }
}

/// The lines as they stand in a report, each on a row of its own and
/// indented by its depth.
pub open spec fn rows(lines: Seq<Step>) -> Seq<char>
    decreases lines.len(),
{
    if lines.len() == 0 {
        Seq::empty()
    } else {
        rows(lines.drop_last()) + indent(depth_of(lines)) + lines.last().text() + "\n"@
    }
}

/// The report of a proof: what is assumed, what is concluded, how many
/// lines there are, and the lines.
pub open spec fn report(assumptions: Seq<Formula>, conclusion: Formula, lines: Seq<Step>) -> Seq<
    char,
> {
    "Assumptions: ["@ + formula_listing(assumptions) + "]\n"@ + "Conclusion: "@
        + conclusion.text() + "\n"@ + "Total Proof Steps: "@ + decimal(lines.len()) + "\n"@
        + "Proof Steps:\n"@ + rows(lines)
}

/// The depth of `lines` is at most their number.
pub proof fn lemma_depth_bounded(lines: Seq<Step>)
    ensures
        depth_of(lines) <= lines.len(),
    decreases lines.len(),
{
    if lines.len() > 0 {
        lemma_depth_bounded(lines.drop_last());
    }
}

} // verus!
