//! End-to-end scenarios: text through tokenizing, postfix conversion and
//! tree building, finished by the floating-point fold that a caller of the
//! library performs.
use math_evaluator::solver::ExpressionTree;
use math_evaluator::tokens::make_token;
use math_evaluator::tokens::shunting_yard;
use math_evaluator::tokens::tokenize;
use math_evaluator::tokens::Operation;
use math_evaluator::tokens::Token;
use math_evaluator::EvalError;

fn eval_tree(tree: &ExpressionTree) -> Result<f64, EvalError> {
    match &tree.token {
        Token::Number { val } => val
            .parse::<f64>()
            .map_err(|_| EvalError::InvalidNumericLiteral),
        Token::Operator { op } if tree.children.len() == 2 => {
            let left = eval_tree(&tree.children[0])?;
            let right = eval_tree(&tree.children[1])?;
            Ok(match op {
                Operation::Addition => left + right,
                Operation::Subtraction => left - right,
                Operation::Multiplication => left * right,
                Operation::Division => left / right,
                Operation::Exponentiation => left.powf(right),
            })
        }
        _ => Err(EvalError::InvariantViolation),
    }
}

fn evaluate(expr: &str) -> Result<f64, EvalError> {
    let infix_tokens = tokenize(expr)?;
    let postfix_tokens = shunting_yard(infix_tokens)?;
    let expr_tree = ExpressionTree::from_postfix_tokens(postfix_tokens)?;
    eval_tree(&expr_tree)
}

fn tokens_of(texts: &[&str]) -> Vec<Token> {
    texts.iter().map(|t| make_token(t)).collect()
}

#[test]
fn postfix_matches_evaluation_order_without_precedence() {
    let postfix = shunting_yard(tokenize("5+3").unwrap()).unwrap();
    assert_eq!(postfix, tokens_of(&["5", "3", "+"]));
    assert_eq!(evaluate("5+3").unwrap(), 8.0);
}

#[test]
fn precedence_orders_the_postfix_form() {
    let postfix = shunting_yard(tokenize("4*3+2^7").unwrap()).unwrap();
    assert_eq!(postfix, tokens_of(&["4", "3", "*", "2", "7", "^", "+"]));
    assert_eq!(evaluate("4*3+2^7").unwrap(), 140.0);
}

#[test]
fn exponentiation_groups_to_the_right() {
    let postfix = shunting_yard(tokenize("2^3^2").unwrap()).unwrap();
    assert_eq!(postfix, tokens_of(&["2", "3", "2", "^", "^"]));
    assert_eq!(evaluate("2^3^2").unwrap(), 512.0);
    assert_ne!(evaluate("2^3^2").unwrap(), 64.0);
}

#[test]
fn grouping_overrides_precedence() {
    let postfix = shunting_yard(tokenize("2^(3+4)").unwrap()).unwrap();
    assert_eq!(postfix, tokens_of(&["2", "3", "4", "+", "^"]));
    assert_eq!(evaluate("2^(3+4)").unwrap(), 128.0);
}

#[test]
fn parenthesized_round_trip() {
    // Implicit multiplication is not part of the grammar: the adjacent
    // number and parenthesis survive tokenizing but never build one tree.
    assert!(evaluate("4(5-2)^(3*(5-6))").is_err());

    // The explicit form evaluates like the direct computation.
    let value = evaluate("4*(5-2)^(3*(5-6))").unwrap();
    let direct = 4.0 * 3f64.powf(3.0 * (5.0 - 6.0));
    assert_eq!(value, direct);
    assert!((value - 4.0 / 27.0).abs() < 1e-12);
}

#[test]
fn malformed_inputs_fail_with_their_error() {
    assert_eq!(evaluate("(1+2"), Err(EvalError::UnbalancedParentheses));
    assert_eq!(evaluate("1+"), Err(EvalError::MalformedExpression));
}

#[test]
fn division_by_zero_gives_infinity() {
    let value = evaluate("1/0").unwrap();
    assert_eq!(value, f64::INFINITY);
}

#[test]
fn malformed_literal_surfaces_at_evaluation_time() {
    // "1.2.3" tokenizes as a single number token; only the numeric parse at
    // evaluation time rejects it.
    assert_eq!(tokenize("1.2.3").unwrap().len(), 1);
    assert_eq!(evaluate("1.2.3+1"), Err(EvalError::InvalidNumericLiteral));
}

#[test]
fn nested_expression_evaluates() {
    let value = evaluate("4+ 26/ (8- 2)^  4").unwrap();
    assert_eq!(value, 4.0 + 26.0 / 6f64.powf(4.0));
}
