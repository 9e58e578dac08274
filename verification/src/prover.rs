use crate::derivation::{
    candidates, complete, concludes, deductions, extends, extensions,
    first_concluding, lemma_extends_continued, lemma_extends_numbered, lemma_extends_self,
    nesting, numbered, search_from, };
use crate::error::{ParserError, ProofError};
use crate::expression::{copy_expressions, formulas, Expression, Formula};
use crate::lines::{copy_lines, steps, Line, Rule, Step};
use crate::parser::{named_from, parse_text, Parser};
use crate::possible::{candidates_of, Possible, PossibleFinder};
use crate::error::ParseFailure;
use crate::report::{
    depth_of, indent, join_expressions, lemma_depth_bounded, report, rows, write_decimal,
};
use crate::budget::{branching, theorem_short_search_fails};
use crate::outcomes::theorem_failures;
use crate::semantics::{refutable, theorem_unprovable_fails};
use crate::soundness::{lemma_sound_continued, sound_from};
use vstd::string::StringExecFns;
use std::collections::VecDeque;
use vstd::prelude::*;

verus! {

/// The bounds of one search.
#[derive(Debug, Clone, Copy)]
pub struct SearchSettings {
    /// A partial proof with more lines than this is not extended.
    pub max_line_length: usize,
    /// How many partial proofs a search may extend.
    pub iterations: usize,
}

impl SearchSettings {
    /// The bounds that are given where some are left open: 15 lines and
    /// 50000 extensions.
    pub fn from_incomplete(max_line_length: Option<usize>, iterations: Option<usize>) -> (s: Self)
        ensures
            s.max_line_length == match max_line_length {
                Some(n) => n,
                None => 15,
            },
            s.iterations == match iterations {
                Some(n) => n,
                None => 50000,
            },
    {
        SearchSettings {
            max_line_length: match max_line_length {
                Some(n) => n,
                None => 15,
            },
            iterations: match iterations {
                Some(n) => n,
                None => 50000,
            },
        }
    }
}

impl Default for SearchSettings {
    fn default() -> (s: Self)
        ensures
            s.max_line_length == 15,
            s.iterations == 50000,
    {
        SearchSettings { max_line_length: 15, iterations: 50000 }
    }
}

/// Where a search stands, or how it ended.
#[derive(Debug, Clone, Copy, PartialEq, Eq, Structural)]
pub enum SearchState {
    FinishedIteration,
    FinishedProof,
    Searching,
    DeadEnd,
    MaximumLines,
    MaximumIteration,
}

/// A partial proof on the way to a conclusion.
#[derive(Debug)]
pub struct SearchNode {
    pub lines: Vec<Line>,
    pub conclusion: Expression,
    pub settings: SearchSettings,
}

impl Clone for SearchNode {
    fn clone(&self) -> (r: Self)
        ensures
            steps(r.lines@) == steps(self.lines@),
            r.conclusion == self.conclusion,
            r.settings == self.settings,
    {
        SearchNode {
            lines: copy_lines(&self.lines),
            conclusion: self.conclusion.clone(),
            settings: self.settings,
        }
    }
}

/// The partial proofs that a run of nodes holds.
pub open spec fn proofs_of(nodes: Seq<SearchNode>) -> Seq<Seq<Step>> {
    nodes.map_values(|n: SearchNode| steps(n.lines@))
}

impl SearchNode {
    /// Whether the lines are numbered by their positions.
    pub open spec fn well_formed(&self) -> bool {
        numbered(steps(self.lines@))
    }

    /// The partial proof of `conclusion` that the lines make.
    pub fn new(lines: Vec<Line>, conclusion: Expression, settings: SearchSettings) -> (node: Self)
        ensures
            node.lines == lines,
            node.conclusion == conclusion,
            node.settings == settings,
    {
        SearchNode { lines, conclusion, settings }
    }

    /// Whether some line establishes the conclusion.
    pub fn is_complete(&self) -> (r: bool)
        ensures
            r == complete(steps(self.lines@), self.conclusion@),
    {
        let mut i: usize = 0;
        while i < self.lines.len()
            invariant
                i <= self.lines.len(),
                forall|k: int| 0 <= k < i ==> (#[trigger] steps(self.lines@)[k]).expression
                    != self.conclusion@,
            decreases self.lines.len() - i,
        {
            if self.lines[i].matches_expression(&self.conclusion) {
                assert(steps(self.lines@)[i as int].expression == self.conclusion@);
                return true;
            }
            i += 1;
        }
        false
    }

    /// What the plain assumptions among the lines establish, in order.
    pub fn assumptions(&self) -> (r: Vec<Expression>)
        ensures
            formulas(r@) == assumed(steps(self.lines@)),
    {
        let mut r: Vec<Expression> = Vec::new();
        let mut i: usize = 0;
        assert(steps(self.lines@).take(0) =~= Seq::<Step>::empty());
        assert(formulas(r@) =~= Seq::<Formula>::empty());
        while i < self.lines.len()
            invariant
                i <= self.lines.len(),
                formulas(r@) == assumed(steps(self.lines@).take(i as int)),
            decreases self.lines.len() - i,
        {
            let ghost before = formulas(r@);
            assert(steps(self.lines@).take(i as int + 1).drop_last() =~= steps(self.lines@).take(
                i as int,
            ));
            assert(steps(self.lines@)[i as int] == self.lines@[i as int]@);
            if self.lines[i].rule == Rule::Assumption {
                r.push(self.lines[i].expression.clone());
                assert(formulas(r@) =~= before.push(self.lines@[i as int]@.expression));
            }
            i += 1;
        }
        assert(steps(self.lines@).take(self.lines.len() as int) =~= steps(self.lines@));
        r
    }
}

/// What the plain assumptions among the lines establish, in order.
pub open spec fn assumed(lines: Seq<Step>) -> Seq<Formula>
    decreases lines.len(),
{
    if lines.len() == 0 {
        Seq::empty()
    } else if lines.last().rule == Rule::Assumption {
        assumed(lines.drop_last()).push(lines.last().expression)
    } else {
        assumed(lines.drop_last())
    }
}

/// The lines with which a proof from the given assumptions begins: one for
/// each, resting on itself.
pub open spec fn assumption_steps(assumptions: Seq<Formula>) -> Seq<Step> {
    Seq::new(
        assumptions.len(),
        |i: int|
            Step {
                assumption_lines: seq![i as usize],
                line_number: i as usize,
                expression: assumptions[i],
                rule: Rule::Assumption,
                deduction_lines: Seq::empty(),
            },
    )
}

/// The lines with which a proof from the given assumptions begins.
pub fn create_assumption_lines(assumptions: Vec<Expression>) -> (lines: Vec<Line>)
    ensures
        steps(lines@) == assumption_steps(formulas(assumptions@)),
        numbered(steps(lines@)),
{
    let mut lines: Vec<Line> = Vec::new();
    let mut i: usize = 0;
    while i < assumptions.len()
        invariant
            i <= assumptions.len(),
            lines.len() == i,
            steps(lines@) == assumption_steps(formulas(assumptions@)).take(i as int),
        decreases assumptions.len() - i,
    {
        let mut rests: Vec<usize> = Vec::new();
        rests.push(i);
        assert(rests@ =~= seq![i]);
        let line = Line::new(rests, i, assumptions[i].clone(), Rule::Assumption, Vec::new());
        lines.push(line);
        assert(steps(lines@) =~= assumption_steps(formulas(assumptions@)).take(i as int + 1));
        i += 1;
    }
    assert(assumption_steps(formulas(assumptions@)).take(assumptions.len() as int)
        =~= assumption_steps(formulas(assumptions@)));
    lines
}

/// Reads a formula from a text.
pub fn parse_expression(expression: &str) -> (r: Result<Expression, ParserError>)
    ensures
        match r {
            Ok(e) => parse_text(expression@) == Ok::<Formula, ParseFailure>(e@),
            Err(e) => parse_text(expression@) == Err::<Formula, ParseFailure>(e@),
        },
        !(r matches Err(ParserError::InvalidOperator(_))),
        r matches Ok(e) ==> named_from(e@, expression@),
{
    let mut parser = Parser::new(expression);
    parser.parse()
}

/// Assumptions, a conclusion, and the lines of a proof of the one from the
/// others as far as it has been found.
#[derive(Debug)]
pub struct Proof {
    assumptions: Vec<Expression>,
    conclusion: Expression,
    lines: Vec<Line>,
    settings: SearchSettings,
    iterations: usize,
    depth: usize,
}

impl Proof {
    #[verifier::type_invariant]
    spec fn numbered_lines(self) -> bool {
        numbered(steps(self.lines@))
    }

    /// The lines of the proof.
    pub closed spec fn lines(&self) -> Seq<Step> {
        steps(self.lines@)
    }

    /// What is to be proved.
    pub closed spec fn conclusion(&self) -> Formula {
        self.conclusion@
    }

    /// What the proof may assume.
    pub closed spec fn assumptions(&self) -> Seq<Formula> {
        formulas(self.assumptions@)
    }

    /// The bounds of its search.
    pub closed spec fn settings(&self) -> SearchSettings {
        self.settings
    }

    /// How deep sub-proofs may nest in the search for the proof.
    pub closed spec fn depth(&self) -> nat {
        self.depth as nat
    }

    /// A proof that begins with the given lines, in whose search sub-proofs
    /// may nest `depth` levels deep.
    pub(crate) fn new_raw(
        assumptions: Vec<Expression>,
        conclusion: Expression,
        lines: Vec<Line>,
        settings: SearchSettings,
        depth: usize,
    ) -> (proof: Self)
        requires
            numbered(steps(lines@)),
        ensures
            proof.lines() == steps(lines@),
            proof.conclusion() == conclusion@,
            proof.assumptions() == formulas(assumptions@),
            proof.settings() == settings,
            proof.depth() == depth,
    {
        Proof { assumptions, conclusion, lines, settings, iterations: 0, depth }
    }

    /// A proof to be searched for within the default bounds.
    pub fn new(assumptions: Vec<Expression>, conclusion: Expression) -> (r: Result<
        Self,
        ProofError,
    >)
        ensures
            r matches Ok(proof) && proof.lines() == assumption_steps(formulas(assumptions@))
                && proof.conclusion() == conclusion@ && proof.assumptions() == formulas(
                assumptions@,
            ) && proof.settings().max_line_length == 15 && proof.settings().iterations == 50000
                && proof.depth() == nesting(),
    {
        Ok(Proof::with_settings(assumptions, conclusion, SearchSettings::default()))
    }

    /// A proof to be searched for within the given bounds.
    pub fn with_settings(
        assumptions: Vec<Expression>,
        conclusion: Expression,
        settings: SearchSettings,
    ) -> (proof: Self)
        ensures
            proof.lines() == assumption_steps(formulas(assumptions@)),
            proof.conclusion() == conclusion@,
            proof.assumptions() == formulas(assumptions@),
            proof.settings() == settings,
            proof.depth() == nesting(),
    {
        let kept = copy_expressions(&assumptions);
        let lines = create_assumption_lines(assumptions);
        Proof::new_raw(kept, conclusion, lines, settings, 2)
    }

    /// Searches for the proof, breadth first.  On success the lines of the
    /// proof found take the place of the lines; else the lines stay.  The
    /// proof found continues the lines that were there, establishes the
    /// conclusion, and each of its new lines that derives something rests
    /// on exactly what the lines that it cites rest on.  Where the
    /// conclusion does not follow from the lines the search fails.  It
    /// fails on too many lines where the lines are too many to begin with;
    /// and on too many lines or at a dead end, not on its budget, where
    /// only the lines and what one rule makes of them are short enough to
    /// be extended, and the budget covers that.
    pub fn search(&mut self) -> (r: Result<(), ProofError>)
        ensures
            numbered(final(self).lines()),
            final(self).conclusion() == old(self).conclusion(),
            final(self).assumptions() == old(self).assumptions(),
            final(self).settings() == old(self).settings(),
            final(self).depth() == old(self).depth(),
            extends(old(self).lines(), final(self).lines()),
            sound_from(final(self).lines(), old(self).lines().len() as int),
            r is Ok ==> complete(final(self).lines(), final(self).conclusion()),
            refutable(old(self).lines(), old(self).conclusion()) ==> r is Err,
            refutable(old(self).lines(), old(self).conclusion()) && old(
                self,
            ).settings().max_line_length <= old(self).lines().len() + 1 && branching(
                old(self).lines(),
                old(self).conclusion(),
            ) < old(self).settings().iterations ==> (r matches Err(ProofError::SearchError(s)) && (s
                == SearchState::MaximumLines || s == SearchState::DeadEnd)),
            !complete(old(self).lines(), old(self).conclusion()) && old(self).lines().len()
                > old(self).settings().max_line_length ==> (r matches Err(
                ProofError::SearchError(s),
            ) && s == SearchState::MaximumLines),
            match search_from(
                seq![old(self).lines()],
                old(self).conclusion(),
                old(self).settings(),
                0,
                false,
                old(self).depth(),
            ) {
                Ok(found) => r is Ok && final(self).lines() == found,
                Err(state) => final(self).lines() == old(self).lines() && (
                r matches Err(ProofError::SearchError(s)) && s == state),
            },
        decreases 2 * old(self).depth() + 1, 1nat,
    {
        proof {
            use_type_invariant(&*self);
            lemma_extends_self(self.lines());
            if refutable(self.lines(), self.conclusion()) {
                theorem_unprovable_fails(
                    self.lines(),
                    self.conclusion(),
                    self.settings(),
                    self.depth(),
                );
                if self.settings().max_line_length <= self.lines().len() + 1 && branching(
                    self.lines(),
                    self.conclusion(),
                ) < self.settings().iterations {
                    theorem_short_search_fails(
                        self.lines(),
                        self.conclusion(),
                        self.settings(),
                        self.depth(),
                    );
                }
            }
            let queue = seq![self.lines()];
            assert(queue.skip(1).len() == 0);
            theorem_failures(
                queue.skip(1),
                self.conclusion(),
                self.settings(),
                0,
                true,
                self.depth(),
            );
        }
        let head = SearchNode::new(copy_lines(&self.lines), self.conclusion.clone(), self.settings);
        self.iterations = 0;
        match search(head, self) {
            Ok(result) => {
                proof {
                    lemma_extends_numbered(old(self).lines(), steps(result@));
                }
                self.lines = result;
                Ok(())
            },
            Err(e) => Err(e),
        }
    }

    /// The lines of the proof.
    pub fn get_lines(&self) -> (lines: &Vec<Line>)
        ensures
            steps(lines@) == self.lines(),
    {
        &self.lines
    }

    /// How many lines the proof has.
    pub fn len(&self) -> (n: usize)
        ensures
            n == self.lines().len(),
    {
        self.lines.len()
    }

    /// The lines that are no plain assumptions.
    pub fn get_deduction_lines(&self) -> (r: Vec<Line>)
        ensures
            steps(r@) == deductions(self.lines()),
    {
        let mut r: Vec<Line> = Vec::new();
        let mut i: usize = 0;
        assert(steps(self.lines@).take(0) =~= Seq::<Step>::empty());
        assert(steps(r@) =~= Seq::<Step>::empty());
        while i < self.lines.len()
            invariant
                i <= self.lines.len(),
                steps(r@) == deductions(steps(self.lines@).take(i as int)),
            decreases self.lines.len() - i,
        {
            let ghost before = steps(r@);
            assert(steps(self.lines@).take(i as int + 1).drop_last() =~= steps(self.lines@).take(
                i as int,
            ));
            assert(steps(self.lines@)[i as int] == self.lines@[i as int]@);
            if self.lines[i].rule != Rule::Assumption {
                r.push(self.lines[i].clone());
                assert(steps(r@) =~= before.push(self.lines@[i as int]@));
            }
            i += 1;
        }
        assert(steps(self.lines@).take(self.lines.len() as int) =~= steps(self.lines@));
        r
    }
}

impl Clone for Proof {
    fn clone(&self) -> (r: Self)
        ensures
            r.lines() == self.lines(),
            r.conclusion() == self.conclusion(),
            r.assumptions() == self.assumptions(),
            r.settings() == self.settings(),
            r.depth() == self.depth(),
    {
        proof {
            use_type_invariant(self);
        }
        Proof {
            assumptions: copy_expressions(&self.assumptions),
            conclusion: self.conclusion.clone(),
            lines: copy_lines(&self.lines),
            settings: self.settings,
            iterations: self.iterations,
            depth: self.depth,
        }
    }
}

/// The lines of `lines` followed by those of `possible`.
fn extended(lines: &Vec<Line>, possible: &Possible) -> (r: Vec<Line>)
    ensures
        steps(r@) == steps(lines@) + possible@,
{
    let mut r = copy_lines(lines);
    let mut k: usize = 0;
    assert(steps(r@) =~= steps(lines@) + possible@.take(0));
    while k < possible.lines.len()
        invariant
            k <= possible.lines.len(),
            steps(r@) == steps(lines@) + possible@.take(k as int),
        decreases possible.lines.len() - k,
    {
        r.push(possible.lines[k].clone());
        assert(possible@[k as int] == possible.lines@[k as int]@);
        assert(steps(r@) =~= (steps(lines@) + possible@.take(k as int)).push(
            possible@[k as int],
        ));
        assert(steps(r@) =~= steps(lines@) + possible@.take(k as int + 1));
        k += 1;
    }
    assert(possible@.take(possible.lines.len() as int) =~= possible@);
    r
}

/// Whether the last line of `possible` establishes `conclusion`.
fn reaches(possible: &Possible, conclusion: &Expression) -> (r: bool)
    ensures
        r == concludes(possible@, conclusion@),
{
    let n = possible.lines.len();
    if n == 0 {
        false
    } else {
        assert(possible@.last() == possible.lines@[n - 1]@);
        possible.lines[n - 1].matches_expression(conclusion)
    }
}

/// Which of the possibles is the first whose last line establishes
/// `conclusion`, if one does.
fn first_reaching(possibles: &Vec<Possible>, conclusion: &Expression) -> (r: Option<usize>)
    ensures
        match r {
            Some(k) => k < possibles.len() && concludes(possibles@[k as int]@, conclusion@)
                && first_concluding(candidates_of(possibles@), conclusion@) == Some(
                possibles@[k as int]@,
            ),
            None => first_concluding(candidates_of(possibles@), conclusion@) is None,
        },
{
    let ghost found = candidates_of(possibles@);
    let mut k: usize = 0;
    assert(found.skip(0) =~= found);
    while k < possibles.len()
        invariant
            k <= possibles.len(),
            found == candidates_of(possibles@),
            first_concluding(found, conclusion@) == first_concluding(
                found.skip(k as int),
                conclusion@,
            ),
        decreases possibles.len() - k,
    {
        assert(found.skip(k as int)[0] == possibles@[k as int]@);
        if reaches(&possibles[k], conclusion) {
            return Some(k);
        }
        assert(found.skip(k as int).skip(1) =~= found.skip(k as int + 1));
        k += 1;
    }
    None
}

/// Puts behind the queue the partial proofs that the possibles make of
/// `node`.
fn enqueue(queue: &mut VecDeque<SearchNode>, node: &SearchNode, possibles: &Vec<Possible>)
    ensures
        proofs_of(final(queue)@) == proofs_of(old(queue)@) + extensions(
            steps(node.lines@),
            candidates_of(possibles@),
        ),
        final(queue)@.len() == old(queue)@.len() + possibles@.len(),
        forall|k: int| 0 <= k < old(queue)@.len() ==> final(queue)@[k] == old(queue)@[k],
        forall|k: int|
            old(queue)@.len() <= k < final(queue)@.len() ==> {
                &&& (#[trigger] final(queue)@[k]).conclusion@ == node.conclusion@
                &&& final(queue)@[k].settings == node.settings
                &&& steps(final(queue)@[k].lines@) == steps(node.lines@) + possibles@[k - old(
                    queue,
                )@.len()]@
            },
{
    let ghost lines = steps(node.lines@);
    let ghost found = candidates_of(possibles@);
    let ghost rest = proofs_of(queue@);
    let mut k: usize = 0;
    assert(proofs_of(queue@) =~= rest + extensions(lines, found).take(0));
    while k < possibles.len()
        invariant
            k <= possibles.len(),
            lines == steps(node.lines@),
            found == candidates_of(possibles@),
            rest == proofs_of(old(queue)@),
            queue@.len() == old(queue)@.len() + k,
            proofs_of(queue@) == rest + extensions(lines, found).take(k as int),
            forall|i: int| 0 <= i < old(queue)@.len() ==> queue@[i] == old(queue)@[i],
            forall|i: int|
                old(queue)@.len() <= i < queue@.len() ==> {
                    &&& (#[trigger] queue@[i]).conclusion@ == node.conclusion@
                    &&& queue@[i].settings == node.settings
                    &&& steps(queue@[i].lines@) == lines + possibles@[i - old(queue)@.len()]@
                },
        decreases possibles.len() - k,
    {
        assert(found[k as int] == possibles@[k as int]@);
        assert(extensions(lines, found)[k as int] == lines + found[k as int]);
        let next = SearchNode::new(
            extended(&node.lines, &possibles[k]),
            node.conclusion.clone(),
            node.settings,
        );
        queue.push_back(next);
        assert(proofs_of(queue@) =~= (rest + extensions(lines, found).take(k as int)).push(
            lines + found[k as int],
        ));
        assert(proofs_of(queue@) =~= rest + extensions(lines, found).take(k as int + 1));
        k += 1;
    }
    assert(extensions(lines, found).take(found.len() as int) =~= extensions(lines, found));
}

/// The breadth-first search from `head`, counted in `proof`.
fn search(head: SearchNode, proof: &mut Proof) -> (r: Result<Vec<Line>, ProofError>)
    requires
        head.well_formed(),
        head.settings == old(proof).settings,
    ensures
        final(proof).lines == old(proof).lines,
        final(proof).conclusion == old(proof).conclusion,
        final(proof).assumptions == old(proof).assumptions,
        final(proof).settings == old(proof).settings,
        final(proof).depth == old(proof).depth,
        match search_from(
            seq![steps(head.lines@)],
            head.conclusion@,
            head.settings,
            0,
            false,
            old(proof).depth as nat,
        ) {
            Ok(found) => r matches Ok(lines) && steps(lines@) == found && extends(
                steps(head.lines@),
                found,
            ) && sound_from(found, head.lines@.len() as int) && complete(found, head.conclusion@),
            Err(state) => r matches Err(ProofError::SearchError(s)) && s == state,
        },
    decreases 2 * old(proof).depth + 1, 0nat,
{
    let ghost root = steps(head.lines@);
    let ghost goal = head.conclusion@;
    let settings = head.settings;
    let depth = proof.depth;
    let mut queue: VecDeque<SearchNode> = VecDeque::new();
    proof {
        use_type_invariant(&*proof);
        lemma_extends_self(root);
    }
    queue.push_back(head);
    assert(proofs_of(queue@) =~= seq![root]);
    proof.iterations = 0;
    let mut too_long = false;
    loop
        invariant
            root == steps(head.lines@),
            goal == head.conclusion@,
            settings == head.settings,
            numbered(root),
            numbered(steps(proof.lines@)),
            proof.lines == old(proof).lines,
            proof.conclusion == old(proof).conclusion,
            proof.assumptions == old(proof).assumptions,
            proof.settings == old(proof).settings,
            proof.depth == old(proof).depth,
            depth == proof.depth,
            settings == proof.settings,
            proof.iterations <= settings.iterations,
            forall|k: int|
                0 <= k < queue@.len() ==> {
                    &&& (#[trigger] queue@[k]).conclusion@ == goal
                    &&& queue@[k].settings == settings
                    &&& extends(root, steps(queue@[k].lines@))
                    &&& sound_from(steps(queue@[k].lines@), root.len() as int)
                },
            search_from(
                proofs_of(queue@),
                goal,
                settings,
                proof.iterations as nat,
                too_long,
                depth as nat,
            ) == search_from(seq![root], goal, settings, 0, false, depth as nat),
        decreases settings.iterations - proof.iterations, queue@.len(),
    {
        let ghost waiting = proofs_of(queue@);
        let ghost nodes = queue@;
        let popped = queue.pop_front();
        if popped.is_none() {
            assert(waiting.len() == 0);
            return Err(
                ProofError::SearchError(
                    if too_long {
                        SearchState::MaximumLines
                    } else {
                        SearchState::DeadEnd
                    },
                ),
            );
        }
        let current = popped.unwrap();
        let ghost lines = steps(current.lines@);
        assert(current == nodes[0]);
        assert(waiting[0] == lines);
        assert(proofs_of(queue@) =~= waiting.skip(1));
        assert forall|k: int| 0 <= k < queue@.len() implies {
            &&& (#[trigger] queue@[k]).conclusion@ == goal
            &&& queue@[k].settings == settings
            &&& extends(root, steps(queue@[k].lines@))
            &&& sound_from(steps(queue@[k].lines@), root.len() as int)
        } by {
            assert(queue@[k] == nodes[k + 1]);
        }
        proof {
            lemma_extends_numbered(root, lines);
        }
        if current.is_complete() {
            return Ok(current.lines);
        }
        if current.lines.len() > settings.max_line_length {
            too_long = true;
        } else {
            if proof.iterations >= settings.iterations {
                return Err(ProofError::SearchError(SearchState::MaximumIteration));
            }
            proof.iterations += 1;
            let mut finder = PossibleFinder::over(current, depth);
            finder.find();
            let ghost found = candidates(lines, goal, depth as nat);
            let possibles = finder.possibles();
            let node = finder.current();
            match first_reaching(possibles, &node.conclusion) {
                Some(k) => {
                    proof {
                        let c = found[k as int];
                        assert(c == possibles@[k as int]@);
                        lemma_extends_continued(root, lines, c);
                        lemma_sound_continued(root, lines, c);
                        assert((lines + c)[lines.len() + c.len() - 1] == c.last());
                    }
                    return Ok(extended(&node.lines, &possibles[k]));
                },
                None => {
                    let ghost before = queue@;
                    enqueue(&mut queue, node, possibles);
                    assert forall|k: int| 0 <= k < queue@.len() implies {
                        &&& (#[trigger] queue@[k]).conclusion@ == goal
                        &&& queue@[k].settings == settings
                        &&& extends(root, steps(queue@[k].lines@))
                        &&& sound_from(steps(queue@[k].lines@), root.len() as int)
                    } by {
                        if k < before.len() {
                            assert(queue@[k] == before[k]);
                        } else {
                            let c = k - before.len();
                            assert(found[c] == possibles@[c]@);
                            lemma_extends_continued(root, lines, found[c]);
                            lemma_sound_continued(root, lines, found[c]);
                        }
                    }
                    too_long = false;
                },
            }
        }
    }
}

/// Collects what a proof is to be built from.
pub struct ProofBuilder {
    assumptions: Vec<Expression>,
    conclusion: Expression,
    max_line_length: Option<usize>,
    iterations: Option<usize>,
}

impl ProofBuilder {
    /// What is to be proved.
    pub closed spec fn conclusion(&self) -> Formula {
        self.conclusion@
    }

    /// What the proof may assume.
    pub closed spec fn assumptions(&self) -> Seq<Formula> {
        formulas(self.assumptions@)
    }

    /// The bound on the lines, if one was set.
    pub closed spec fn line_bound(&self) -> Option<usize> {
        self.max_line_length
    }

    /// The bound on the extensions, if one was set.
    pub closed spec fn iteration_bound(&self) -> Option<usize> {
        self.iterations
    }

    /// A builder for a proof of `conclusion` from `assumptions`, with no
    /// bound set.
    pub fn new(assumptions: Vec<Expression>, conclusion: Expression) -> (builder: Self)
        ensures
            builder.assumptions() == formulas(assumptions@),
            builder.conclusion() == conclusion@,
            builder.line_bound() is None,
            builder.iteration_bound() is None,
    {
        ProofBuilder { assumptions, conclusion, max_line_length: None, iterations: None }
    }

    /// Sets the bound on the lines of a partial proof.
    pub fn max_line_length(self, max_line_length: usize) -> (builder: Self)
        ensures
            builder.assumptions() == self.assumptions(),
            builder.conclusion() == self.conclusion(),
            builder.line_bound() == Some(max_line_length),
            builder.iteration_bound() == self.iteration_bound(),
    {
        ProofBuilder {
            assumptions: self.assumptions,
            conclusion: self.conclusion,
            max_line_length: Some(max_line_length),
            iterations: self.iterations,
        }
    }

    /// Sets the bound on the partial proofs that the search may extend.
    pub fn iterations(self, iterations: usize) -> (builder: Self)
        ensures
            builder.assumptions() == self.assumptions(),
            builder.conclusion() == self.conclusion(),
            builder.line_bound() == self.line_bound(),
            builder.iteration_bound() == Some(iterations),
    {
        ProofBuilder {
            assumptions: self.assumptions,
            conclusion: self.conclusion,
            max_line_length: self.max_line_length,
            iterations: Some(iterations),
        }
    }

    /// The proof, with 15 lines and 50000 extensions where no bound was set.
    pub fn build(self) -> (proof: Proof)
        ensures
            proof.lines() == assumption_steps(self.assumptions()),
            proof.conclusion() == self.conclusion(),
            proof.assumptions() == self.assumptions(),
            proof.settings().max_line_length == match self.line_bound() {
                Some(n) => n,
                None => 15,
            },
            proof.settings().iterations == match self.iteration_bound() {
                Some(n) => n,
                None => 50000,
            },
            proof.depth() == nesting(),
    {
        let settings = SearchSettings::from_incomplete(self.max_line_length, self.iterations);
        Proof::with_settings(self.assumptions, self.conclusion, settings)
    }
}

impl Proof {
    /// The report of the proof.
    pub fn render(&self) -> (text: String)
        ensures
            text@ == report(self.assumptions(), self.conclusion(), self.lines()),
    {
        let ghost lines = steps(self.lines@);
        let mut text = String::new();
        text.append("Assumptions: [");
        text.append(join_expressions(&self.assumptions).as_str());
        text.append("]\n");
        text.append("Conclusion: ");
        text.append(self.conclusion.render().as_str());
        text.append("\n");
        text.append("Total Proof Steps: ");
        write_decimal(self.lines.len() as u128, &mut text);
        text.append("\n");
        text.append("Proof Steps:\n");
        let ghost head = text@;
        let mut level: usize = 0;
        let mut k: usize = 0;
        assert(lines.take(0) =~= Seq::<Step>::empty());
        assert(text@ =~= head + rows(lines.take(0)));
        while k < self.lines.len()
            invariant
                k <= self.lines.len(),
                lines == steps(self.lines@),
                level == depth_of(lines.take(k as int)),
                text@ == head + rows(lines.take(k as int)),
            decreases self.lines.len() - k,
        {
            assert(lines.take(k as int + 1).drop_last() =~= lines.take(k as int));
            assert(lines[k as int] == self.lines@[k as int]@);
            proof {
                lemma_depth_bounded(lines.take(k as int));
            }
            match self.lines[k].rule {
                Rule::OrEliminationAssumption => {
                    level += 1;
                },
                Rule::OrElimination => {
                    if level > 0 {
                        level -= 1;
                    }
                },
                Rule::ConditionalProofAssumption => {
                    level += 1;
                },
                Rule::ConditionalProof => {
                    if level > 0 {
                        level -= 1;
                    }
                },
                _ => {},
            }
            let mut i: usize = 0;
            let ghost row = text@;
            while i < level
                invariant
                    i <= level,
                    text@ == row + indent(i as nat),
                decreases level - i,
            {
                text.append("  ");
                i += 1;
            }
            text.append(self.lines[k].render().as_str());
            text.append("\n");
            assert(text@ =~= head + rows(lines.take(k as int + 1)));
            k += 1;
        }
        assert(lines.take(self.lines.len() as int) =~= lines);
        assert(text@ =~= report(self.assumptions(), self.conclusion(), self.lines()));
        text
    }
}

} // verus!
