use math_evaluator::tokens::make_token;
use math_evaluator::tokens::shunting_yard;
use math_evaluator::tokens::tokenize;
use math_evaluator::tokens::Associativity;
use math_evaluator::tokens::Operation;
use math_evaluator::tokens::Token;
use math_evaluator::EvalError;

fn tokens_of(texts: &[&str]) -> Vec<Token> {
    texts.iter().map(|t| make_token(t)).collect()
}

#[test]
fn test_tokenizer() {
    let tokens = tokens_of(&["4", "+", "26", "/", "(", "8", "-", "2", ")", "^", "4"]);

    let test1 = tokenize("4   +  26  /    (8-   2)  ^   4").unwrap();
    let test2 = tokenize("4+ 26/ (8- 2)^  4").unwrap();

    assert_eq!(test1, tokens);
    assert_eq!(test2, tokens);

    let tokens = tokens_of(&[
        "4", "(", "5", "-", "2", ")", "^", "(", "3", "*", "(", "5", "-", "6", ")", ")",
    ]);
    let test1 = tokenize("4(5-2)^(3*(5-6))").unwrap();
    let test2 = tokenize("4 (5-   2   )^(   3 *(    5-  6)  )").unwrap();

    assert_eq!(test1, tokens);
    assert_eq!(test2, tokens);

    let tokens = tokens_of(&["0004.", "+", ".23"]);
    let test1 = tokenize("0004. +   .23").unwrap();
    let test2 = tokenize("0004.+.23").unwrap();

    assert_eq!(test1, tokens);
    assert_eq!(test2, tokens);

    let tokens = tokens_of(&[
        "0004", "^", "(", "0000.5", "/", "(", "3", "-", ".1", ")", "+", "2", ")", "-", ".2", "^",
        ".13", "-", ".23", "+", "23.22",
    ]);
    let test1 = tokenize("0004^(0000.5/(3-.1)+2)-.2^.13-.23+23.22").unwrap();
    let test2 = tokenize("0004^   (  0000.5/(3 -.1)    +2)-   .2 ^ .13 -.23+23.22").unwrap();

    assert_eq!(test1, tokens);
    assert_eq!(test2, tokens);
}

#[test]
fn test_infix_to_postfix() {
    let infix_tokens = tokens_of(&["5"]);
    let postfix_tokens = tokens_of(&["5"]);
    assert_eq!(shunting_yard(infix_tokens).unwrap(), postfix_tokens);

    let infix_tokens = tokens_of(&["5", "+", "3"]);
    let postfix_tokens = tokens_of(&["5", "3", "+"]);
    assert_eq!(shunting_yard(infix_tokens).unwrap(), postfix_tokens);

    let infix_tokens = tokens_of(&["2", "*", "4", "+", "6"]);
    let postfix_tokens = tokens_of(&["2", "4", "*", "6", "+"]);
    assert_eq!(shunting_yard(infix_tokens).unwrap(), postfix_tokens);

    let infix_tokens = tokens_of(&["4", "*", "3", "+", "2", "^", "7"]);
    let postfix_tokens = tokens_of(&["4", "3", "*", "2", "7", "^", "+"]);
    assert_eq!(shunting_yard(infix_tokens).unwrap(), postfix_tokens);

    let infix_tokens = tokens_of(&["2", "^", "(", "3", "+", "4", ")"]);
    let postfix_tokens = tokens_of(&["2", "3", "4", "+", "^"]);
    assert_eq!(shunting_yard(infix_tokens).unwrap(), postfix_tokens);
}

#[test]
fn tokenize_ignores_whitespace() {
    assert_eq!(tokenize("4   +  26").unwrap(), tokenize("4+26").unwrap());
}

#[test]
fn tokenize_rejects_unknown_character() {
    assert_eq!(
        tokenize("4 + a"),
        Err(EvalError::UnrecognizedCharacter { ch: 'a', pos: 4 })
    );
    assert_eq!(
        tokenize("=1"),
        Err(EvalError::UnrecognizedCharacter { ch: '=', pos: 0 })
    );
}

#[test]
fn tokenize_keeps_malformed_literal_as_one_token() {
    assert_eq!(tokenize("1.2.3").unwrap(), tokens_of(&["1.2.3"]));
}

#[test]
fn make_token_covers_every_shape() {
    assert_eq!(
        make_token("+"),
        Token::Operator { op: Operation::Addition }
    );
    assert_eq!(
        make_token("-"),
        Token::Operator { op: Operation::Subtraction }
    );
    assert_eq!(
        make_token("*"),
        Token::Operator { op: Operation::Multiplication }
    );
    assert_eq!(
        make_token("/"),
        Token::Operator { op: Operation::Division }
    );
    assert_eq!(
        make_token("^"),
        Token::Operator { op: Operation::Exponentiation }
    );
    assert_eq!(make_token("("), Token::LSep);
    assert_eq!(make_token(")"), Token::RSep);
    assert_eq!(
        make_token("23.5"),
        Token::Number { val: "23.5".to_string() }
    );
}

#[test]
fn operator_metadata_is_fixed() {
    assert_eq!(Operation::Addition.precedence(), 2);
    assert_eq!(Operation::Subtraction.precedence(), 2);
    assert_eq!(Operation::Multiplication.precedence(), 3);
    assert_eq!(Operation::Division.precedence(), 3);
    assert_eq!(Operation::Exponentiation.precedence(), 4);

    assert_eq!(Operation::Addition.associativity(), Associativity::Left);
    assert_eq!(Operation::Subtraction.associativity(), Associativity::Left);
    assert_eq!(Operation::Multiplication.associativity(), Associativity::Left);
    assert_eq!(Operation::Division.associativity(), Associativity::Left);
    assert_eq!(Operation::Exponentiation.associativity(), Associativity::Right);

    assert_eq!(Operation::Addition.str(), "+");
    assert_eq!(Operation::Subtraction.str(), "-");
    assert_eq!(Operation::Multiplication.str(), "*");
    assert_eq!(Operation::Division.str(), "/");
    assert_eq!(Operation::Exponentiation.str(), "^");
}

#[test]
fn token_accessors_pick_the_right_variant() {
    let num = make_token("12");
    assert_eq!(num.get_number(), Some(&"12".to_string()));
    assert_eq!(num.get_operator(), None);

    let op = make_token("*");
    assert_eq!(op.get_number(), None);
    assert_eq!(op.get_operator(), Some(&Operation::Multiplication));

    assert_eq!(Token::LSep.get_number(), None);
    assert_eq!(Token::RSep.get_operator(), None);
}

#[test]
fn shunting_yard_left_associativity() {
    let infix_tokens = tokens_of(&["5", "-", "3", "-", "2"]);
    let postfix_tokens = tokens_of(&["5", "3", "-", "2", "-"]);
    assert_eq!(shunting_yard(infix_tokens).unwrap(), postfix_tokens);
}

#[test]
fn shunting_yard_right_associativity() {
    let infix_tokens = tokens_of(&["2", "^", "3", "^", "2"]);
    let postfix_tokens = tokens_of(&["2", "3", "2", "^", "^"]);
    assert_eq!(shunting_yard(infix_tokens).unwrap(), postfix_tokens);
}

#[test]
fn shunting_yard_reports_unbalanced_parentheses() {
    let open_only = tokenize("(1+2").unwrap();
    assert_eq!(shunting_yard(open_only), Err(EvalError::UnbalancedParentheses));

    let close_only = tokenize("1+2)").unwrap();
    assert_eq!(shunting_yard(close_only), Err(EvalError::UnbalancedParentheses));
}
