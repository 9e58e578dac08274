use propositional_logic_calculator::expression::Expression;
use propositional_logic_calculator::possible::find_vars_for_expression;

#[test]
fn check_vars() {
    let expression = Expression::Or(
        Expression::Var("Q".to_string()).wrap(),
        Expression::Var("P".to_string()).wrap(),
    );
    let expression_2 = Expression::Or(
        Expression::Var("P".to_string()).wrap(),
        Expression::Var("Q".to_string()).wrap(),
    );
    let mut vars = Vec::new();
    let mut vars_2 = Vec::new();
    find_vars_for_expression(&expression, &mut vars);
    find_vars_for_expression(&expression_2, &mut vars_2);
    assert_eq!(vars, vars_2);
}
