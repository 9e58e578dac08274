use propositional_logic_calculator::error::{ParserError, ProofError};
use propositional_logic_calculator::expression::Expression;
use propositional_logic_calculator::lines::{Line, Rule};
use propositional_logic_calculator::parser::Parser;
use propositional_logic_calculator::possible::{
    find_vars_for_expression, Possible, PossibleFinder,
};
use propositional_logic_calculator::prover::{
    create_assumption_lines, parse_expression, Proof, ProofBuilder, SearchNode, SearchSettings,
    SearchState,
};
use propositional_logic_calculator::report::join;

fn var(name: &str) -> Expression {
    Expression::Var(name.to_string())
}

fn parsed(texts: Vec<&str>) -> Vec<Expression> {
    texts
        .into_iter()
        .map(|text| parse_expression(text).unwrap())
        .collect()
}

fn proved(assumptions: Vec<&str>, conclusion: &str) -> Proof {
    let mut proof = Proof::with_settings(
        parsed(assumptions),
        parse_expression(conclusion).unwrap(),
        SearchSettings {
            max_line_length: 12,
            iterations: 25_000,
        },
    );
    proof.search().unwrap();
    proof
}

fn failed(assumptions: Vec<&str>, conclusion: &str, settings: SearchSettings) -> SearchState {
    let mut proof = Proof::with_settings(
        parsed(assumptions),
        parse_expression(conclusion).unwrap(),
        settings,
    );
    match proof.search() {
        Err(ProofError::SearchError(state)) => state,
        other => panic!("the search did not fail: {:?}", other),
    }
}

fn union_of_cited(lines: &Vec<Line>, line: &Line) -> Vec<usize> {
    let mut all: Vec<usize> = Vec::new();
    for d in line.deduction_lines.iter() {
        if let Some(cited) = lines.get(*d) {
            all.extend(cited.assumption_lines.iter().copied());
        }
    }
    all.sort();
    all.dedup();
    all
}

fn assert_sound(proof: &Proof) {
    let lines = proof.get_lines();
    for (i, line) in lines.iter().enumerate() {
        assert_eq!(line.line_number, i);
        match line.rule {
            Rule::Assumption
            | Rule::OrEliminationAssumption
            | Rule::ConditionalProofAssumption => {}
            _ => assert_eq!(line.assumption_lines, union_of_cited(lines, line)),
        }
    }
}

#[test]
fn list_expressions_is_preorder_without_repeats() {
    let b_or_c = Expression::Or(var("B").wrap(), var("C").wrap());
    let expression = Expression::And(var("A").wrap(), b_or_c.clone().wrap());
    let listed = expression.list_expressions();
    assert_eq!(
        listed,
        vec![expression.clone(), var("A"), b_or_c, var("B"), var("C")]
    );
}

#[test]
fn list_expressions_keeps_the_first_of_equal_subtrees() {
    let a_and_b = Expression::And(var("A").wrap(), var("B").wrap());
    let expression = Expression::Or(a_and_b.clone().wrap(), var("A").wrap());
    let listed = expression.list_expressions();
    assert_eq!(listed, vec![expression.clone(), a_and_b, var("A"), var("B")]);
}

#[test]
fn clone_is_equal_and_shares() {
    let expression = parse_expression("(A&B)>-C").unwrap();
    let copy = expression.clone();
    assert_eq!(copy, expression);
    assert_ne!(copy, parse_expression("(A&B)>C").unwrap());
}

#[test]
fn structural_equality_does_not_normalize() {
    assert_ne!(
        parse_expression("A&B").unwrap(),
        parse_expression("B&A").unwrap()
    );
}

#[test]
fn render_is_canonical() {
    assert_eq!(parse_expression("A&B").unwrap().render(), "(A & B)");
    assert_eq!(parse_expression("A|B").unwrap().render(), "(A v B)");
    assert_eq!(parse_expression("A>B").unwrap().render(), "(A -> B)");
    assert_eq!(parse_expression("-A").unwrap().render(), "~A");
    assert_eq!(parse_expression("P").unwrap().render(), "P");
    assert_eq!(
        parse_expression("-(A&B)>(CvD)").unwrap().render(),
        "(~(A & B) -> (C v D))"
    );
}

#[test]
fn text_reads_back() {
    let expression = Expression::And(
        Expression::Or(var("A").wrap(), var("B").wrap()).wrap(),
        Expression::And(var("C").wrap(), Expression::Or(var("D").wrap(), var("A").wrap()).wrap())
            .wrap(),
    );
    let text = expression.render();
    assert_eq!(text, "((A v B) & (C & (D v A)))");
    assert_eq!(parse_expression(&text).unwrap(), expression);
}

#[test]
fn operators_join_with_all_that_follows() {
    assert_eq!(
        parse_expression("A&B&C").unwrap(),
        Expression::And(
            var("A").wrap(),
            Expression::And(var("B").wrap(), var("C").wrap()).wrap()
        )
    );
}

#[test]
fn parentheses_group() {
    assert_eq!(
        parse_expression("((A&B)>C)").unwrap(),
        Expression::Implies(
            Expression::And(var("A").wrap(), var("B").wrap()).wrap(),
            var("C").wrap()
        )
    );
}

#[test]
fn parse_errors_are_told_apart() {
    assert!(matches!(
        parse_expression("A&"),
        Err(ParserError::EmptyExpression)
    ));
    assert!(matches!(
        parse_expression("A$B"),
        Err(ParserError::InvalidExpression('$'))
    ));
    assert!(matches!(
        parse_expression(""),
        Err(ParserError::EmptyExpression)
    ));
    assert!(matches!(
        parse_expression("&A"),
        Err(ParserError::ExpectedLeftOperand)
    ));
    assert!(matches!(
        parse_expression("A-"),
        Err(ParserError::ExpectedExpressionAfterNegation)
    ));
    match parse_expression("A&((B)vC") {
        Err(ParserError::UnmatchedParentheses(read, open)) => {
            assert_eq!(read, "(B)vC");
            assert_eq!(open, 1);
        }
        other => panic!("unexpected: {:?}", other),
    }
    match parse_expression("((A") {
        Err(ParserError::UnmatchedParentheses(read, open)) => {
            assert_eq!(read, "(A");
            assert_eq!(open, 2);
        }
        other => panic!("unexpected: {:?}", other),
    }
}

#[test]
fn parser_reads_all_of_the_text() {
    let mut parser = Parser::new("A B");
    assert_eq!(parser.parse().unwrap(), var("B"));
    assert!(matches!(parser.parse(), Err(ParserError::EmptyExpression)));
}

#[test]
fn error_messages() {
    assert_eq!(
        ParserError::InvalidExpression('$').message(),
        "'$' did not match one of the valid characters."
    );
    assert_eq!(ParserError::EmptyExpression.message(), "Empty expression");
    assert_eq!(
        ParserError::ExpectedLeftOperand.message(),
        "Expected left operand"
    );
    assert_eq!(
        ParserError::ExpectedExpressionAfterNegation.message(),
        "Expected expression after '-'"
    );
    assert_eq!(
        ParserError::InvalidOperator('x').message(),
        "Invalid operator: 'x'"
    );
    assert_eq!(
        ParserError::UnmatchedParentheses("A&B".to_string(), 12).message(),
        "Unmatched parentheses in expression: A&B at bracket 12"
    );
    assert_eq!(
        ProofError::from(ParserError::EmptyExpression).message(),
        "Parser error: Empty expression"
    );
    assert_eq!(
        ProofError::SearchError(SearchState::DeadEnd).message(),
        "Search error: Dead end"
    );
    assert_eq!(SearchState::MaximumLines.message(), "Maximum lines");
    assert_eq!(SearchState::MaximumIteration.message(), "Maximum iteration");
    assert_eq!(SearchState::Searching.message(), "Searching");
    assert_eq!(SearchState::FinishedProof.message(), "Finished proof");
    assert_eq!(SearchState::FinishedIteration.message(), "Finished iteration");
}

#[test]
fn rule_abbreviations() {
    assert_eq!(Rule::Assumption.abbreviation(), "A");
    assert_eq!(Rule::ModusPonens.abbreviation(), "MPP");
    assert_eq!(Rule::ModusTollens.abbreviation(), "MTT");
    assert_eq!(Rule::ConditionalProof.abbreviation(), "CP");
    assert_eq!(Rule::ConditionalProofAssumption.abbreviation(), "A(CP)");
    assert_eq!(Rule::DoubleNegation.abbreviation(), "DN");
    assert_eq!(Rule::AndIntroduction.abbreviation(), "&I");
    assert_eq!(Rule::AndElimination.abbreviation(), "&E");
    assert_eq!(Rule::OrIntroduction.abbreviation(), "vI");
    assert_eq!(Rule::OrElimination.abbreviation(), "vE");
    assert_eq!(Rule::OrEliminationAssumption.abbreviation(), "A(vE)");
    assert_eq!(Rule::ReductioAdAbsurdium.abbreviation(), "RAA");
}

#[test]
fn join_lists_from_one_in_order() {
    assert_eq!(join(&vec![]), "");
    assert_eq!(join(&vec![0]), "1");
    assert_eq!(join(&vec![2, 2, 0]), "1, 3");
    assert_eq!(join(&vec![3, 1, 3]), "2, 4, 4");
    assert_eq!(join(&vec![9, 99, 122]), "10, 100, 123");
}

#[test]
fn assumption_lines_rest_on_themselves() {
    let lines = create_assumption_lines(parsed(vec!["P", "P>Q"]));
    assert_eq!(lines.len(), 2);
    assert_eq!(lines[0].assumption_lines, vec![0]);
    assert_eq!(lines[1].assumption_lines, vec![1]);
    assert_eq!(lines[1].line_number, 1);
    assert_eq!(lines[1].rule, Rule::Assumption);
    assert!(lines[1].deduction_lines.is_empty());
    assert!(lines[1].matches_expression(&parse_expression("P>Q").unwrap()));
    assert!(!lines[1].matches_expression(&parse_expression("P").unwrap()));
}

#[test]
fn modus_ponens_proof_and_its_report() {
    let proof = proved(vec!["P", "P>Q"], "Q");
    let lines = proof.get_lines();
    assert_eq!(lines.len(), 3);
    let last = lines.last().unwrap();
    assert_eq!(last.expression, var("Q"));
    assert_eq!(last.rule, Rule::ModusPonens);
    assert_eq!(last.deduction_lines, vec![1, 0]);
    assert_eq!(last.assumption_lines, vec![0, 1]);
    assert_eq!(last.render(), "Line 3: Q [1, 2] using MPP from lines 1, 2");
    assert_eq!(
        proof.render(),
        "Assumptions: [P, (P -> Q)]\nConclusion: Q\nTotal Proof Steps: 3\nProof Steps:\n\
         Line 1: P [1] using A\nLine 2: (P -> Q) [2] using A\n\
         Line 3: Q [1, 2] using MPP from lines 1, 2\n"
    );
    assert_eq!(proof.get_deduction_lines().len(), 1);
    assert_sound(&proof);
}

#[test]
fn modus_tollens_proof() {
    let proof = proved(vec!["P>Q", "-Q"], "-P");
    let last = proof.get_lines().last().unwrap();
    assert_eq!(last.rule, Rule::ModusTollens);
    assert_eq!(last.expression, parse_expression("-P").unwrap());
    assert_eq!(proof.get_lines().len(), 3);
    assert_sound(&proof);
}

#[test]
fn and_elimination_takes_one_step() {
    let proof = proved(vec!["P&Q"], "P");
    assert_eq!(proof.get_lines().len(), 2);
    let last = proof.get_lines().last().unwrap();
    assert_eq!(last.rule, Rule::AndElimination);
    assert_eq!(last.expression, var("P"));
    assert_eq!(last.deduction_lines, vec![0]);
    assert_sound(&proof);
}

#[test]
fn or_elimination_splices_two_sub_proofs() {
    let proof = proved(vec!["PvQ", "P>W", "Q>W"], "W");
    let lines = proof.get_lines();
    let rules: Vec<Rule> = lines.iter().map(|line| line.rule).collect();
    assert_eq!(
        rules,
        vec![
            Rule::Assumption,
            Rule::Assumption,
            Rule::Assumption,
            Rule::OrEliminationAssumption,
            Rule::ModusPonens,
            Rule::OrEliminationAssumption,
            Rule::ModusPonens,
            Rule::OrElimination,
        ]
    );
    assert_eq!(lines[3].expression, var("P"));
    assert_eq!(lines[5].expression, var("Q"));
    assert_eq!(lines[5].line_number, 5);
    assert_eq!(lines[6].deduction_lines, vec![2, 5]);
    assert_eq!(lines[6].assumption_lines, vec![0, 2]);
    let last = &lines[7];
    assert_eq!(last.expression, var("W"));
    assert_eq!(last.deduction_lines, vec![3, 3, 4, 5, 6]);
    assert_eq!(last.assumption_lines, vec![0, 1, 2]);
    assert_sound(&proof);
    let report = proof.render();
    assert!(report.contains("\n  Line 4: P [1] using A(vE) from lines 1\n"));
    assert!(report.contains("\n    Line 6: Q [1] using A(vE) from lines 1\n"));
    assert!(report.ends_with("\n  Line 8: W [1, 2, 3] using vE from lines 4, 5, 6, 7\n"));
}

#[test]
fn conditional_proof_searches_for_the_right_side() {
    let proof = proved(vec!["P>R", "R>Q"], "P>Q");
    let lines = proof.get_lines();
    let rules: Vec<Rule> = lines.iter().map(|line| line.rule).collect();
    assert_eq!(
        rules,
        vec![
            Rule::Assumption,
            Rule::Assumption,
            Rule::ConditionalProofAssumption,
            Rule::ModusPonens,
            Rule::ModusPonens,
            Rule::ConditionalProof,
        ]
    );
    assert_eq!(lines[2].assumption_lines, vec![2]);
    assert!(lines[2].deduction_lines.is_empty());
    assert_eq!(lines[4].expression, var("Q"));
    let last = &lines[5];
    assert_eq!(last.expression, parse_expression("P>Q").unwrap());
    assert_eq!(last.line_number, 5);
    assert_eq!(last.deduction_lines, vec![2, 2, 3, 4]);
    assert_eq!(last.assumption_lines, vec![0, 1, 2]);
    assert_sound(&proof);
    let report = proof.render();
    assert!(report.contains("\n  Line 3: P [3] using A(CP)\n"));
    assert!(report.ends_with("\nLine 6: (P -> Q) [1, 2, 3] using CP from lines 3, 4, 5\n"));
}

#[test]
fn found_proofs_are_sound() {
    assert_sound(&proved(vec!["P", "P>Q", "Q>R"], "R"));
    assert_sound(&proved(vec!["P", "Q", "(P&Q)>W"], "W"));
    assert_sound(&proved(vec!["Pv(Q>R)", "Q", "P>W", "R>W"], "W"));
    assert_sound(&proved(vec!["PvQ"], "QvP"));
    assert_sound(&proved(vec!["P>-Q", "Q"], "-P"));
}

#[test]
fn a_conclusion_among_the_assumptions_needs_no_step() {
    let proof = proved(vec!["P", "Q"], "Q");
    assert_eq!(proof.get_lines().len(), 2);
    assert!(proof.get_deduction_lines().is_empty());
}

#[test]
fn search_fails_on_too_many_lines() {
    let state = failed(
        vec!["P"],
        "Q",
        SearchSettings {
            max_line_length: 1,
            iterations: 1000,
        },
    );
    assert_eq!(state, SearchState::MaximumLines);
    let state = failed(
        vec!["P"],
        "Q",
        SearchSettings {
            max_line_length: 0,
            iterations: 1000,
        },
    );
    assert_eq!(state, SearchState::MaximumLines);
}

#[test]
fn search_fails_at_a_dead_end() {
    let state = failed(
        vec![],
        "Q",
        SearchSettings {
            max_line_length: 5,
            iterations: 1000,
        },
    );
    assert_eq!(state, SearchState::DeadEnd);
}

#[test]
fn search_fails_on_the_budget() {
    let state = failed(
        vec!["P"],
        "Q",
        SearchSettings {
            max_line_length: 5,
            iterations: 3,
        },
    );
    assert_eq!(state, SearchState::MaximumIteration);
    let state = failed(
        vec!["P"],
        "Q",
        SearchSettings {
            max_line_length: 5,
            iterations: 0,
        },
    );
    assert_eq!(state, SearchState::MaximumIteration);
}

#[test]
fn a_failed_search_leaves_the_lines() {
    let mut proof = Proof::with_settings(
        parsed(vec!["P"]),
        var("Q"),
        SearchSettings {
            max_line_length: 1,
            iterations: 10,
        },
    );
    assert!(proof.search().is_err());
    assert_eq!(proof.get_lines().len(), 1);
    assert_eq!(proof.len(), 1);
}

#[test]
fn builder_and_defaults() {
    let mut proof = ProofBuilder::new(parsed(vec!["P", "P>Q"]), var("Q"))
        .max_line_length(3)
        .iterations(10)
        .build();
    assert!(proof.search().is_ok());
    let mut proof = ProofBuilder::new(parsed(vec!["P&Q"]), var("Q")).build();
    assert!(proof.search().is_ok());
    let mut proof = Proof::new(parsed(vec!["P"]), var("P")).unwrap();
    assert!(proof.search().is_ok());
    let settings = SearchSettings::default();
    assert_eq!(settings.max_line_length, 15);
    assert_eq!(settings.iterations, 50000);
    let settings = SearchSettings::from_incomplete(Some(4), None);
    assert_eq!(settings.max_line_length, 4);
    assert_eq!(settings.iterations, 50000);
}

fn node(assumptions: Vec<&str>, conclusion: &str) -> SearchNode {
    SearchNode::new(
        create_assumption_lines(parsed(assumptions)),
        parse_expression(conclusion).unwrap(),
        SearchSettings::default(),
    )
}

fn shown(possibles: &Vec<Possible>) -> Vec<String> {
    possibles
        .iter()
        .map(|possible| {
            possible
                .lines
                .iter()
                .map(|line| line.render())
                .collect::<Vec<String>>()
                .join("; ")
        })
        .collect()
}

#[test]
fn node_completion_and_assumptions() {
    let open = node(vec!["P", "P>Q"], "Q");
    assert!(!open.is_complete());
    assert_eq!(open.assumptions(), parsed(vec!["P", "P>Q"]));
    let done = node(vec!["P", "Q"], "Q");
    assert!(done.is_complete());
}

#[test]
fn find_lists_every_rule_in_order() {
    let mut finder = PossibleFinder::new(node(vec!["P", "P>Q"], "Q"));
    assert_eq!(finder.len(), 2);
    assert!(!finder.is_empty());
    assert!(finder.possibles().is_empty());
    finder.find();
    assert_eq!(
        shown(finder.possibles()),
        vec![
            "Line 3: Q [1, 2] using MPP from lines 1, 2",
            "Line 3: (P & P) [1] using &I from lines 1",
            "Line 3: ((P -> Q) & P) [1, 2] using &I from lines 1, 2",
            "Line 3: (P & (P -> Q)) [1, 2] using &I from lines 1, 2",
            "Line 3: ((P -> Q) & (P -> Q)) [2] using &I from lines 2",
            "Line 3: (P v P) [1] using vI from lines 1",
            "Line 3: ((P -> Q) v P) [1, 2] using vI from lines 1, 2",
            "Line 3: (P v (P -> Q)) [1, 2] using vI from lines 1, 2",
            "Line 3: ((P -> Q) v (P -> Q)) [2] using vI from lines 2",
            "Line 3: (P v P) [1] using vI from lines 1",
            "Line 3: (P v Q) [1] using vI from lines 1",
            "Line 3: (Q v P) [1] using vI from lines 1",
            "Line 3: ((P -> Q) v P) [2] using vI from lines 2",
            "Line 3: (P v (P -> Q)) [2] using vI from lines 2",
            "Line 3: ((P -> Q) v Q) [2] using vI from lines 2",
            "Line 3: (Q v (P -> Q)) [2] using vI from lines 2",
            "Line 3: ~~P [1] using DN from lines 1",
            "Line 3: ~~(P -> Q) [2] using DN from lines 2",
        ]
    );
}

#[test]
fn find_drops_what_is_there_already() {
    let mut finder = PossibleFinder::new(node(vec!["P&Q", "P"], "Q"));
    finder.find();
    let found = shown(finder.possibles());
    assert!(found.contains(&"Line 3: Q [1] using &E from lines 1".to_string()));
    assert!(!found.iter().any(|text| text.starts_with("Line 3: P [")));
}

#[test]
fn find_again_finds_the_same() {
    let mut finder = PossibleFinder::new(node(vec!["PvQ", "P>W", "Q>W"], "W"));
    finder.find();
    let first = shown(finder.possibles());
    finder.find();
    let second = shown(finder.possibles());
    assert_eq!(first, second);
    assert_eq!(finder.current().lines.len(), 3);
    assert!(first
        .last()
        .unwrap()
        .ends_with("Line 8: W [1, 2, 3] using vE from lines 4, 5, 6, 7"));
}

#[test]
fn find_on_no_lines_finds_nothing() {
    let mut finder = PossibleFinder::new(node(vec![], "Q"));
    assert!(finder.is_empty());
    finder.find();
    assert!(finder.possibles().is_empty());
}

#[test]
fn conditional_proof_from_no_assumptions() {
    let proof = proved(vec![], "P>P");
    let lines = proof.get_lines();
    assert_eq!(lines.len(), 2);
    assert_eq!(lines[0].rule, Rule::ConditionalProofAssumption);
    assert_eq!(lines[1].rule, Rule::ConditionalProof);
    assert_eq!(lines[1].deduction_lines, vec![0, 0]);
    assert_eq!(lines[1].assumption_lines, vec![0]);
}

#[test]
fn a_line_equals_what_it_establishes() {
    let lines = create_assumption_lines(parsed(vec!["P&Q"]));
    assert!(lines[0] == parse_expression("P&Q").unwrap());
    assert!(lines[0] != parse_expression("Q&P").unwrap());
}

#[test]
fn copies_are_equal() {
    let proof = proved(vec!["P", "P>Q"], "Q");
    let copy = proof.clone();
    assert_eq!(copy.render(), proof.render());
    let node = node(vec!["P", "P>Q"], "Q");
    let copy = node.clone();
    assert_eq!(copy.lines.len(), 2);
    assert!(copy.lines[1].same(&node.lines[1]));
    assert_eq!(copy.conclusion, node.conclusion);
    let mut finder = PossibleFinder::new(node);
    finder.find();
    let possible = finder.possibles()[0].clone();
    assert!(possible.lines[0].same(&finder.possibles()[0].lines[0]));
    let line = Line::new(vec![0], 1, var("P"), Rule::DoubleNegation, vec![0, 0]);
    assert!(!line.same(&Line::new(vec![0], 1, var("P"), Rule::DoubleNegation, vec![0])));
    assert!(line.same(&line.clone()));
    let single = Possible::new_single(line.clone());
    assert_eq!(single.lines.len(), 1);
    let many = Possible::new(vec![line.clone(), line]);
    assert_eq!(many.lines.len(), 2);
}

#[test]
fn names_are_kept_in_order() {
    let mut vars = vec!["Z".to_string(), "B".to_string(), "Z".to_string()];
    find_vars_for_expression(&parse_expression("(Cv-A)>(B&C)").unwrap(), &mut vars);
    assert_eq!(vars, vec!["A", "B", "C", "Z"]);
    let mut vars = Vec::new();
    find_vars_for_expression(
        &Expression::And(var("AB").wrap(), Expression::Or(var("A").wrap(), var("").wrap()).wrap()),
        &mut vars,
    );
    assert_eq!(vars, vec!["", "A", "AB"]);
}

#[test]
fn text_of_a_negation_or_an_implication_does_not_read_back() {
    let negation = Expression::Not(var("A").wrap());
    assert!(matches!(
        parse_expression(&negation.render()),
        Err(ParserError::InvalidExpression('~'))
    ));
    let implication = Expression::Implies(var("A").wrap(), var("B").wrap());
    assert!(matches!(
        parse_expression(&implication.render()),
        Err(ParserError::InvalidExpression('>'))
    ));
}

#[test]
fn a_negation_sign_negates_an_operand() {
    let not_a = Expression::Not(var("A").wrap());
    assert_eq!(parse_expression("-A").unwrap(), not_a);
    assert_eq!(parse_expression("- A").unwrap(), not_a);
    assert_eq!(
        parse_expression("--A").unwrap(),
        Expression::Not(not_a.clone().wrap())
    );
    assert_eq!(
        parse_expression("- -(A)").unwrap(),
        Expression::Not(not_a.clone().wrap())
    );
    assert_eq!(
        parse_expression("---(A&B)vC").unwrap(),
        Expression::Or(
            Expression::Not(
                Expression::Not(
                    Expression::Not(
                        Expression::And(var("A").wrap(), var("B").wrap()).wrap()
                    )
                    .wrap()
                )
                .wrap()
            )
            .wrap(),
            var("C").wrap()
        )
    );
}

#[test]
fn a_negation_sign_negates_nothing_else() {
    assert!(matches!(
        parse_expression("-$"),
        Err(ParserError::InvalidExpression('$'))
    ));
    assert!(matches!(
        parse_expression("-&A"),
        Err(ParserError::InvalidExpression('&'))
    ));
    assert!(matches!(
        parse_expression("-a"),
        Err(ParserError::InvalidExpression('a'))
    ));
    assert!(matches!(
        parse_expression("A&-)"),
        Err(ParserError::InvalidExpression(')'))
    ));
    assert!(matches!(
        parse_expression("-"),
        Err(ParserError::ExpectedExpressionAfterNegation)
    ));
    assert!(matches!(
        parse_expression("A&-- "),
        Err(ParserError::ExpectedExpressionAfterNegation)
    ));
    assert!(matches!(
        parse_expression("-(A"),
        Err(ParserError::UnmatchedParentheses(_, 1))
    ));
}

#[test]
fn rules_that_ask_for_sub_proofs_are_for_plain_assumptions() {
    let mut lines = create_assumption_lines(parsed(vec!["PvQ", "P>W", "Q>W"]));
    lines.push(Line::new(
        vec![0],
        3,
        parse_expression("-(-(PvQ))").unwrap(),
        Rule::DoubleNegation,
        vec![0],
    ));
    let node = SearchNode::new(lines, var("W"), SearchSettings::default());
    let mut finder = PossibleFinder::new(node);
    finder.find();
    assert!(finder
        .possibles()
        .iter()
        .all(|possible| possible.lines.len() == 1));
}

#[test]
fn what_does_not_follow_is_not_proved_within_short_bounds() {
    for m in 0..=2 {
        let mut proof = ProofBuilder::new(parsed(vec!["P"]), var("Q"))
            .max_line_length(m)
            .build();
        match proof.search() {
            Err(ProofError::SearchError(state)) => {
                assert!(state == SearchState::DeadEnd || state == SearchState::MaximumLines)
            }
            other => panic!("unexpected: {:?}", other),
        }
        assert_eq!(proof.get_lines().len(), 1);
        assert_eq!(proof.get_lines()[0].expression, var("P"));
    }
}

#[test]
fn what_does_not_follow_is_never_proved() {
    for (assumptions, conclusion) in [
        (vec!["P>Q"], "Q"),
        (vec!["P>Q", "Q"], "P"),
        (vec!["-(P&Q)"], "-P"),
    ] {
        let mut proof = Proof::with_settings(
            parsed(assumptions),
            parse_expression(conclusion).unwrap(),
            SearchSettings {
                max_line_length: 3,
                iterations: 40,
            },
        );
        assert!(proof.search().is_err());
    }
}
