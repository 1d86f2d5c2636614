//! Tokens, operator metadata, the tokenizer, and the infix-to-postfix
//! (shunting-yard) converter.
use vstd::prelude::*;

use crate::EvalError;

verus! {

/// A lexical token: a number's literal text (numeric parsing is deferred to
/// evaluation time), a binary operator, or a parenthesis.
#[derive(Debug, PartialEq)]
pub enum Token {
    Number { val: String },
    Operator { op: Operation },
    LSep,
    RSep,
}

/// Tie-break direction for operators of equal precedence.
#[derive(Debug, PartialEq, Eq, Structural, Clone, Copy)]
pub enum Associativity {
    Left,
    Right,
}

/// The five binary operators of the grammar.
#[derive(Debug, PartialEq, Eq, Structural, Clone, Copy)]
pub enum Operation {
    Addition,
    Subtraction,
    Multiplication,
    Division,
    Exponentiation,
}

/// A token as the specifications see it: a number carries its text as a
/// character sequence.
pub ghost enum TokenModel {
    Number(Seq<char>),
    Operator(Operation),
    LSep,
    RSep,
}

impl View for Token {
    type V = TokenModel;

    open spec fn view(&self) -> TokenModel {
        match self {
            Token::Number { val } => TokenModel::Number(val@),
            Token::Operator { op } => TokenModel::Operator(*op),
            Token::LSep => TokenModel::LSep,
            Token::RSep => TokenModel::RSep,
        }
    }
}

/// The models of a token sequence, element by element.
pub open spec fn token_views(ts: Seq<Token>) -> Seq<TokenModel> {
    ts.map_values(|t: Token| t@)
}

/// Binding strength of an operator: addition and subtraction bind loosest,
/// exponentiation tightest.
pub open spec fn precedence_of(op: Operation) -> int {
    match op {
        Operation::Addition => 2,
        Operation::Subtraction => 2,
        Operation::Multiplication => 3,
        Operation::Division => 3,
        Operation::Exponentiation => 4,
    }
}

/// All four arithmetic operators group to the left; exponentiation groups to
/// the right.
pub open spec fn associativity_of(op: Operation) -> Associativity {
    match op {
        Operation::Exponentiation => Associativity::Right,
        _ => Associativity::Left,
    }
}

/// The character an operator is written as.
pub open spec fn op_char(op: Operation) -> char {
    match op {
        Operation::Addition => '+',
        Operation::Subtraction => '-',
        Operation::Multiplication => '*',
        Operation::Division => '/',
        Operation::Exponentiation => '^',
    }
}

impl Token {
    /// The number text, if this token is a number.
    pub fn get_number(&self) -> (r: Option<&String>)
        ensures
            match r {
                Some(v) => self matches Token::Number { val } && v == val,
                None => !(self matches Token::Number { .. }),
            },
    {
        match self {
            Token::Number { val } => Some(val),
            _ => None,
        }
    }

    /// The operator, if this token is one.
    pub fn get_operator(&self) -> (r: Option<&Operation>)
        ensures
            match r {
                Some(v) => self matches Token::Operator { op } && v == op,
                None => !(self matches Token::Operator { .. }),
            },
    {
        match self {
            Token::Operator { op } => Some(op),
            _ => None,
        }
    }
}

impl Operation {
    /// The operator written as a one-character string.
    pub fn str(&self) -> (r: String)
        ensures
            r@ == seq![op_char(*self)],
    {
        proof {
            reveal_strlit("+");
            reveal_strlit("-");
            reveal_strlit("*");
            reveal_strlit("/");
            reveal_strlit("^");
        }
        let s = match self {
            Operation::Addition => "+",
            Operation::Subtraction => "-",
            Operation::Multiplication => "*",
            Operation::Division => "/",
            Operation::Exponentiation => "^",
        };
        let r = s.to_owned();
        assert(r@ =~= seq![op_char(*self)]);
        r
    }

    /// The operator's precedence as an integer.
    pub fn precedence(&self) -> (r: i32)
        ensures
            r as int == precedence_of(*self),
    {
        match self {
            Operation::Addition | Operation::Subtraction => 2,
            Operation::Multiplication | Operation::Division => 3,
            Operation::Exponentiation => 4,
        }
    }

    /// The operator's associativity.
    pub fn associativity(&self) -> (r: Associativity)
        ensures
            r == associativity_of(*self),
    {
        match self {
            Operation::Exponentiation => Associativity::Right,
            _ => Associativity::Left,
        }
    }
}

/// What `make_token` produces: a one-character operator or separator string
/// becomes that token, anything else is kept as a number's text.
pub open spec fn spec_make_token(s: Seq<char>) -> TokenModel {
    if s.len() == 1 && s[0] == '+' {
        TokenModel::Operator(Operation::Addition)
    } else if s.len() == 1 && s[0] == '-' {
        TokenModel::Operator(Operation::Subtraction)
    } else if s.len() == 1 && s[0] == '*' {
        TokenModel::Operator(Operation::Multiplication)
    } else if s.len() == 1 && s[0] == '/' {
        TokenModel::Operator(Operation::Division)
    } else if s.len() == 1 && s[0] == '^' {
        TokenModel::Operator(Operation::Exponentiation)
    } else if s.len() == 1 && s[0] == '(' {
        TokenModel::LSep
    } else if s.len() == 1 && s[0] == ')' {
        TokenModel::RSep
    } else {
        TokenModel::Number(s)
    }
}

/// An ASCII digit.
pub open spec fn is_digit_char(c: char) -> bool {
    48 <= c as u32 && c as u32 <= 57
}

/// A character that may appear in a number literal's text: a digit or a dot.
pub open spec fn is_number_char(c: char) -> bool {
    is_digit_char(c) || c == '.'
}

/// ASCII whitespace, skipped between tokens.
pub open spec fn is_space_char(c: char) -> bool {
    c == ' ' || c == '\t' || c == '\n' || c == '\r' || c == '\u{b}' || c == '\u{c}'
}

/// The operator a character is written as, if any.
pub open spec fn operator_of_char(c: char) -> Option<Operation> {
    if c == '+' {
        Some(Operation::Addition)
    } else if c == '-' {
        Some(Operation::Subtraction)
    } else if c == '*' {
        Some(Operation::Multiplication)
    } else if c == '/' {
        Some(Operation::Division)
    } else if c == '^' {
        Some(Operation::Exponentiation)
    } else {
        None
    }
}

/// Where the maximal run of number characters that begins at `i` ends.
pub open spec fn number_end(s: Seq<char>, i: int) -> int
    decreases s.len() - i,
{
    if i < 0 || i >= s.len() || !is_number_char(s[i]) {
        i
    } else {
        number_end(s, i + 1)
    }
}

/// The basic facts about `number_end`: it stays within the text, everything
/// before it is a number character, and it is past `i` exactly when a number
/// character stands at `i`.
pub proof fn lemma_number_end(s: Seq<char>, i: int)
    requires
        0 <= i <= s.len(),
    ensures
        i <= number_end(s, i) <= s.len(),
        forall|k: int| i <= k < number_end(s, i) ==> is_number_char(s[k]),
        number_end(s, i) == s.len() || !is_number_char(s[number_end(s, i)]),
        i < s.len() && is_number_char(s[i]) ==> number_end(s, i) > i,
    decreases s.len() - i,
{
    if i < s.len() && is_number_char(s[i]) {
        lemma_number_end(s, i + 1);
    }
}

/// `number_end` is the only position with these properties.
pub proof fn lemma_number_end_is(s: Seq<char>, i: int, j: int)
    requires
        0 <= i <= j <= s.len(),
        forall|k: int| i <= k < j ==> is_number_char(s[k]),
        j == s.len() || !is_number_char(s[j]),
    ensures
        number_end(s, i) == j,
    decreases j - i,
{
    if i < j {
        assert(is_number_char(s[i]));
        lemma_number_end_is(s, i + 1, j);
    }
}

/// The tokens of the text from position `i` on: whitespace is skipped, a
/// maximal run of digits and dots becomes one number token carrying the
/// exact substring, parentheses become separators, the five operator
/// characters become operator tokens, and anything else is rejected with the
/// offending character and its position.
pub open spec fn spec_tokenize_from(s: Seq<char>, i: int) -> Result<Seq<TokenModel>, EvalError>
    decreases s.len() - i,
{
    if i < 0 || i >= s.len() {
        Ok(Seq::empty())
    } else if is_space_char(s[i]) {
        spec_tokenize_from(s, i + 1)
    } else if is_number_char(s[i]) {
        let j = number_end(s, i);
        proof {
            lemma_number_end(s, i);
        }
        match spec_tokenize_from(s, j) {
            Ok(rest) => Ok(seq![TokenModel::Number(s.subrange(i, j))] + rest),
            Err(e) => Err(e),
        }
    } else if s[i] == '(' {
        match spec_tokenize_from(s, i + 1) {
            Ok(rest) => Ok(seq![TokenModel::LSep] + rest),
            Err(e) => Err(e),
        }
    } else if s[i] == ')' {
        match spec_tokenize_from(s, i + 1) {
            Ok(rest) => Ok(seq![TokenModel::RSep] + rest),
            Err(e) => Err(e),
        }
    } else {
        match operator_of_char(s[i]) {
            Some(op) => match spec_tokenize_from(s, i + 1) {
                Ok(rest) => Ok(seq![TokenModel::Operator(op)] + rest),
                Err(e) => Err(e),
            },
            None => Err(EvalError::UnrecognizedCharacter { ch: s[i], pos: i as usize }),
        }
    }
}

/// The tokens of a whole text.
pub open spec fn spec_tokenize(s: Seq<char>) -> Result<Seq<TokenModel>, EvalError> {
    spec_tokenize_from(s, 0)
}

/// Tokenizing all of `s` gives the tokens finished so far followed by
/// whatever tokenizing from position `i` on yields.
spec fn tokenize_decomposes(s: Seq<char>, i: int, done: Seq<TokenModel>) -> bool {
    match spec_tokenize_from(s, i) {
        Ok(rest) => spec_tokenize(s) == Ok::<Seq<TokenModel>, EvalError>(done + rest),
        Err(e) => spec_tokenize(s) == Err::<Seq<TokenModel>, EvalError>(e),
    }
}

proof fn lemma_extend_decomposition(s: Seq<char>, i: int, j: int, done: Seq<TokenModel>, t: TokenModel)
    requires
        tokenize_decomposes(s, i, done),
        spec_tokenize_from(s, i) == (match spec_tokenize_from(s, j) {
            Ok(rest) => Ok::<Seq<TokenModel>, EvalError>(seq![t] + rest),
            Err(e) => Err::<Seq<TokenModel>, EvalError>(e),
        }),
    ensures
        tokenize_decomposes(s, j, done.push(t)),
{
    match spec_tokenize_from(s, j) {
        Ok(rest) => {
            assert(done + (seq![t] + rest) =~= done.push(t) + rest);
        },
        Err(e) => {},
    }
}

pub proof fn lemma_token_views_push(ts: Seq<Token>, t: Token)
    ensures
        token_views(ts.push(t)) == token_views(ts).push(t@),
{
    assert(token_views(ts.push(t)) =~= token_views(ts).push(t@));
}

fn space_char(c: char) -> (r: bool)
    ensures
        r == is_space_char(c),
{
    c == ' ' || c == '\t' || c == '\n' || c == '\r' || c == '\u{b}' || c == '\u{c}'
}

fn number_char(c: char) -> (r: bool)
    ensures
        r == is_number_char(c),
{
    let u = c as u32;
    (48 <= u && u <= 57) || c == '.'
}

fn operator_for(c: char) -> (r: Option<Operation>)
    ensures
        r == operator_of_char(c),
{
    match c {
        '+' => Some(Operation::Addition),
        '-' => Some(Operation::Subtraction),
        '*' => Some(Operation::Multiplication),
        '/' => Some(Operation::Division),
        '^' => Some(Operation::Exponentiation),
        _ => None,
    }
}

/// Scans the text left to right, one pass, and produces its token sequence,
/// or the first unrecognized character together with its position.
pub fn tokenize(string: &str) -> (r: Result<Vec<Token>, EvalError>)
    ensures
        match r {
            Ok(v) => spec_tokenize(string@) == Ok::<Seq<TokenModel>, EvalError>(token_views(v@)),
            Err(e) => spec_tokenize(string@) == Err::<Seq<TokenModel>, EvalError>(e),
        },
{
    let n = string.unicode_len();
    let mut tokens: Vec<Token> = Vec::new();
    let mut i: usize = 0;
    while i < n
        invariant
            n == string@.len(),
            i <= n,
            tokenize_decomposes(string@, i as int, token_views(tokens@)),
        decreases n - i,
    {
        let ghost done = token_views(tokens@);
        let c = string.get_char(i);
        if space_char(c) {
            i = i + 1;
        } else if number_char(c) {
            let mut j = i + 1;
            while j < n && number_char(string.get_char(j))
                invariant
                    n == string@.len(),
                    i < j <= n,
                    forall|k: int| i < k < j ==> is_number_char(string@[k]),
                decreases n - j,
            {
                j = j + 1;
            }
            proof {
                lemma_number_end_is(string@, i as int, j as int);
            }
            let text = string.substring_char(i, j).to_owned();
            let tok = Token::Number { val: text };
            proof {
                lemma_token_views_push(tokens@, tok);
                lemma_extend_decomposition(
                    string@,
                    i as int,
                    j as int,
                    done,
                    TokenModel::Number(string@.subrange(i as int, j as int)),
                );
            }
            tokens.push(tok);
            i = j;
        } else if c == '(' {
            let tok = Token::LSep;
            proof {
                lemma_token_views_push(tokens@, tok);
                lemma_extend_decomposition(string@, i as int, i + 1, done, TokenModel::LSep);
            }
            tokens.push(tok);
            i = i + 1;
        } else if c == ')' {
            let tok = Token::RSep;
            proof {
                lemma_token_views_push(tokens@, tok);
                lemma_extend_decomposition(string@, i as int, i + 1, done, TokenModel::RSep);
            }
            tokens.push(tok);
            i = i + 1;
        } else {
            match operator_for(c) {
                Some(op) => {
                    let tok = Token::Operator { op };
                    proof {
                        lemma_token_views_push(tokens@, tok);
                        lemma_extend_decomposition(
                            string@,
                            i as int,
                            i + 1,
                            done,
                            TokenModel::Operator(op),
                        );
                    }
                    tokens.push(tok);
                    i = i + 1;
                },
                None => {
                    return Err(EvalError::UnrecognizedCharacter { ch: c, pos: i });
                },
            }
        }
    }
    proof {
        assert(token_views(tokens@) + Seq::<TokenModel>::empty() =~= token_views(tokens@));
    }
    Ok(tokens)
}

/// Pops stack entries to the output until a left separator is popped and
/// discarded; fails when the stack runs out before one is found.
pub open spec fn pop_until_lsep(stack: Seq<TokenModel>, out: Seq<TokenModel>) -> Result<
    (Seq<TokenModel>, Seq<TokenModel>),
    EvalError,
>
    decreases stack.len(),
{
    if stack.len() == 0 {
        Err(EvalError::UnbalancedParentheses)
    } else if stack.last() == TokenModel::LSep {
        Ok((stack.drop_last(), out))
    } else {
        pop_until_lsep(stack.drop_last(), out.push(stack.last()))
    }
}

/// Whether the token on top of the stack must move to the output before `op`
/// is pushed: it is an operator that binds tighter, or equally tight while
/// `op` groups to the left.
pub open spec fn spec_should_pop(top: TokenModel, op: Operation) -> bool {
    top matches TokenModel::Operator(t) && (precedence_of(t) > precedence_of(op) || (
    precedence_of(t) == precedence_of(op) && associativity_of(op) == Associativity::Left))
}

/// Pops every operator that must be emitted before `op` can be pushed.
pub open spec fn pop_higher_precedence(
    op: Operation,
    stack: Seq<TokenModel>,
    out: Seq<TokenModel>,
) -> (Seq<TokenModel>, Seq<TokenModel>)
    decreases stack.len(),
{
    if stack.len() > 0 && spec_should_pop(stack.last(), op) {
        pop_higher_precedence(op, stack.drop_last(), out.push(stack.last()))
    } else {
        (stack, out)
    }
}

/// Empties the stack into the output once the input is exhausted; a left
/// separator still on the stack means a parenthesis was never closed.
pub open spec fn drain_stack(stack: Seq<TokenModel>, out: Seq<TokenModel>) -> Result<
    Seq<TokenModel>,
    EvalError,
>
    decreases stack.len(),
{
    if stack.len() == 0 {
        Ok(out)
    } else if stack.last() == TokenModel::LSep {
        Err(EvalError::UnbalancedParentheses)
    } else {
        drain_stack(stack.drop_last(), out.push(stack.last()))
    }
}

/// The classic operator-precedence (shunting-yard) reordering: numbers go
/// straight to the output, separators manage the stack, and an operator
/// first pops everything that binds at least as tight (respecting its own
/// associativity) and then goes onto the stack.
pub open spec fn spec_shunt(
    input: Seq<TokenModel>,
    stack: Seq<TokenModel>,
    out: Seq<TokenModel>,
) -> Result<Seq<TokenModel>, EvalError>
    decreases input.len(),
{
    if input.len() == 0 {
        drain_stack(stack, out)
    } else {
        let t = input.first();
        let rest = input.drop_first();
        match t {
            TokenModel::Number(_) => spec_shunt(rest, stack, out.push(t)),
            TokenModel::LSep => spec_shunt(rest, stack.push(t), out),
            TokenModel::RSep => match pop_until_lsep(stack, out) {
                Ok(so) => spec_shunt(rest, so.0, so.1),
                Err(e) => Err(e),
            },
            TokenModel::Operator(op) => {
                let so = pop_higher_precedence(op, stack, out);
                spec_shunt(rest, so.0.push(t), so.1)
            },
        }
    }
}

/// The state of the conversion while an operator is being shifted: what
/// remains once the operators it pops have moved and it itself is pushed.
spec fn after_op(
    op: Operation,
    input: Seq<TokenModel>,
    stack: Seq<TokenModel>,
    out: Seq<TokenModel>,
) -> Result<Seq<TokenModel>, EvalError> {
    let so = pop_higher_precedence(op, stack, out);
    spec_shunt(input, so.0.push(TokenModel::Operator(op)), so.1)
}

/// The state of the conversion while a right separator is being resolved.
spec fn after_rsep(
    input: Seq<TokenModel>,
    stack: Seq<TokenModel>,
    out: Seq<TokenModel>,
) -> Result<Seq<TokenModel>, EvalError> {
    match pop_until_lsep(stack, out) {
        Ok(so) => spec_shunt(input, so.0, so.1),
        Err(e) => Err(e),
    }
}

pub proof fn lemma_token_views_remove_front(ts: Seq<Token>)
    requires
        ts.len() > 0,
    ensures
        token_views(ts.remove(0)) == token_views(ts).drop_first(),
        token_views(ts).first() == ts[0]@,
{
    assert(token_views(ts.remove(0)) =~= token_views(ts).drop_first());
}

proof fn lemma_token_views_drop_last(ts: Seq<Token>)
    requires
        ts.len() > 0,
    ensures
        token_views(ts.drop_last()) == token_views(ts).drop_last(),
        token_views(ts).last() == ts.last()@,
{
    assert(token_views(ts.drop_last()) =~= token_views(ts).drop_last());
}

fn should_pop(top: &Token, op: Operation) -> (r: bool)
    ensures
        r == spec_should_pop(top@, op),
{
    match top {
        Token::Operator { op: t } => {
            let tp = t.precedence();
            let p = op.precedence();
            tp > p || (tp == p && op.associativity() == Associativity::Left)
        },
        _ => false,
    }
}

/// Reorders an infix token sequence into postfix (Reverse Polish) form,
/// resolving operator precedence and associativity; fails with
/// `UnbalancedParentheses` when a right separator finds no matching left one
/// or a left separator is never closed.
pub fn shunting_yard(infix_tokens: Vec<Token>) -> (r: Result<Vec<Token>, EvalError>)
    ensures
        match r {
            Ok(v) => spec_shunt(token_views(infix_tokens@), Seq::empty(), Seq::empty())
                == Ok::<Seq<TokenModel>, EvalError>(token_views(v@)),
            Err(e) => spec_shunt(token_views(infix_tokens@), Seq::empty(), Seq::empty())
                == Err::<Seq<TokenModel>, EvalError>(e),
        },
{
    let ghost orig = token_views(infix_tokens@);
    let mut input = infix_tokens;
    let mut postfix_tokens: Vec<Token> = Vec::new();
    let mut op_stack: Vec<Token> = Vec::new();
    proof {
        assert(token_views(postfix_tokens@) =~= Seq::<TokenModel>::empty());
        assert(token_views(op_stack@) =~= Seq::<TokenModel>::empty());
    }
    while input.len() > 0
        invariant
            orig == token_views(infix_tokens@),
            spec_shunt(orig, Seq::empty(), Seq::empty()) == spec_shunt(
                token_views(input@),
                token_views(op_stack@),
                token_views(postfix_tokens@),
            ),
        decreases input.len(),
    {
        let ghost pre_input = input@;
        let token = input.remove(0);
        let ghost tv = token@;
        proof {
            lemma_token_views_remove_front(pre_input);
        }
        match token {
            Token::Number { val } => {
                let tok = Token::Number { val };
                proof {
                    lemma_token_views_push(postfix_tokens@, tok);
                }
                postfix_tokens.push(tok);
            },
            Token::LSep => {
                proof {
                    lemma_token_views_push(op_stack@, Token::LSep);
                }
                op_stack.push(Token::LSep);
            },
            Token::RSep => {
                loop
                    invariant_except_break
                        orig == token_views(infix_tokens@),
                        spec_shunt(orig, Seq::empty(), Seq::empty()) == after_rsep(
                            token_views(input@),
                            token_views(op_stack@),
                            token_views(postfix_tokens@),
                        ),
                    ensures
                        spec_shunt(orig, Seq::empty(), Seq::empty()) == spec_shunt(
                            token_views(input@),
                            token_views(op_stack@),
                            token_views(postfix_tokens@),
                        ),
                    decreases op_stack.len(),
                {
                    let ghost pre_stack = op_stack@;
                    match op_stack.pop() {
                        None => {
                            proof {
                                assert(token_views(pre_stack).len() == 0);
                            }
                            return Err(EvalError::UnbalancedParentheses);
                        },
                        Some(cur) => {
                            proof {
                                lemma_token_views_drop_last(pre_stack);
                            }
                            match cur {
                                Token::LSep => {
                                    break;
                                },
                                _ => {
                                    proof {
                                        lemma_token_views_push(postfix_tokens@, cur);
                                    }
                                    postfix_tokens.push(cur);
                                },
                            }
                        },
                    }
                }
            },
            Token::Operator { op } => {
                while op_stack.len() > 0 && should_pop(&op_stack[op_stack.len() - 1], op)
                    invariant
                        spec_shunt(orig, Seq::empty(), Seq::empty()) == after_op(
                            op,
                            token_views(input@),
                            token_views(op_stack@),
                            token_views(postfix_tokens@),
                        ),
                    decreases op_stack.len(),
                {
                    let ghost pre_stack = op_stack@;
                    let popped = op_stack.pop().unwrap();
                    proof {
                        lemma_token_views_drop_last(pre_stack);
                        lemma_token_views_push(postfix_tokens@, popped);
                    }
                    postfix_tokens.push(popped);
                }
                proof {
                    lemma_token_views_push(op_stack@, Token::Operator { op });
                }
                op_stack.push(Token::Operator { op });
            },
        }
    }
    while op_stack.len() > 0
        invariant
            orig == token_views(infix_tokens@),
            spec_shunt(orig, Seq::empty(), Seq::empty()) == drain_stack(
                token_views(op_stack@),
                token_views(postfix_tokens@),
            ),
        decreases op_stack.len(),
    {
        let ghost pre_stack = op_stack@;
        let cur = op_stack.pop().unwrap();
        proof {
            lemma_token_views_drop_last(pre_stack);
        }
        match cur {
            Token::LSep => {
                return Err(EvalError::UnbalancedParentheses);
            },
            _ => {
                proof {
                    lemma_token_views_push(postfix_tokens@, cur);
                }
                postfix_tokens.push(cur);
            },
        }
    }
    Ok(postfix_tokens)
}

proof fn lemma_insert_indexing(s: Seq<char>, i: int, c: char)
    requires
        0 <= i <= s.len(),
    ensures
        (s.take(i) + seq![c] + s.skip(i)).len() == s.len() + 1,
        forall|k: int| 0 <= k < i ==> (s.take(i) + seq![c] + s.skip(i))[k] == s[k],
        (s.take(i) + seq![c] + s.skip(i))[i] == c,
        forall|k: int| i < k <= s.len() ==> (s.take(i) + seq![c] + s.skip(i))[k] == s[k - 1],
{
}

/// Behind the insertion point, every token and the final outcome are the
/// same, just found one position later.
proof fn lemma_tokenize_shifted(s: Seq<char>, i: int, c: char, j: int)
    requires
        0 <= i <= j <= s.len(),
        is_space_char(c),
    ensures
        (match spec_tokenize_from(s, j) {
            Ok(ts) => spec_tokenize_from(s.take(i) + seq![c] + s.skip(i), j + 1) == Ok::<
                Seq<TokenModel>,
                EvalError,
            >(ts),
            Err(_) => true,
        }),
    decreases s.len() - j,
{
    let t = s.take(i) + seq![c] + s.skip(i);
    lemma_insert_indexing(s, i, c);
    if j < s.len() {
        assert(t[j + 1] == s[j]);
        if is_space_char(s[j]) {
            lemma_tokenize_shifted(s, i, c, j + 1);
        } else if is_number_char(s[j]) {
            let ne = number_end(s, j);
            lemma_number_end(s, j);
            assert(forall|k: int| j + 1 <= k < ne + 1 ==> is_number_char(t[k]));
            lemma_number_end_is(t, j + 1, ne + 1);
            assert(t.subrange(j + 1, ne + 1) =~= s.subrange(j, ne));
            lemma_tokenize_shifted(s, i, c, ne);
        } else {
            lemma_tokenize_shifted(s, i, c, j + 1);
        }
    }
}

/// Before the insertion point, nothing changes: the inserted character is
/// only ever reached as inter-token whitespace.
proof fn lemma_tokenize_prefix(s: Seq<char>, i: int, c: char, j: int)
    requires
        0 <= j <= i <= s.len(),
        is_space_char(c),
        !(0 < i < s.len() && is_number_char(s[i - 1]) && is_number_char(s[i])),
    ensures
        (match spec_tokenize_from(s, j) {
            Ok(ts) => spec_tokenize_from(s.take(i) + seq![c] + s.skip(i), j) == Ok::<
                Seq<TokenModel>,
                EvalError,
            >(ts),
            Err(_) => true,
        }),
    decreases i - j,
{
    let t = s.take(i) + seq![c] + s.skip(i);
    lemma_insert_indexing(s, i, c);
    if j == i {
        assert(t[i] == c);
        lemma_tokenize_shifted(s, i, c, i);
    } else {
        assert(t[j] == s[j]);
        if is_space_char(s[j]) {
            lemma_tokenize_prefix(s, i, c, j + 1);
        } else if is_number_char(s[j]) {
            let ne = number_end(s, j);
            lemma_number_end(s, j);
            assert(ne <= i) by {
                if ne > i {
                    assert(is_number_char(s[i - 1]));
                    assert(is_number_char(s[i]));
                }
            }
            assert(forall|k: int| j <= k < ne ==> is_number_char(t[k]));
            if ne == i {
                assert(!is_number_char(t[ne]));
            }
            lemma_number_end_is(t, j, ne);
            assert(t.subrange(j, ne) =~= s.subrange(j, ne));
            lemma_tokenize_prefix(s, i, c, ne);
        } else {
            lemma_tokenize_prefix(s, i, c, j + 1);
        }
    }
}

/// Whitespace-insensitivity: inserting a whitespace character at any
/// position that does not split a number literal's run of digits and dots
/// leaves an accepted input's token sequence exactly as it was.
pub proof fn lemma_whitespace_insensitive(s: Seq<char>, i: int, c: char)
    requires
        0 <= i <= s.len(),
        is_space_char(c),
        !(0 < i < s.len() && is_number_char(s[i - 1]) && is_number_char(s[i])),
        spec_tokenize(s) is Ok,
    ensures
        spec_tokenize(s.take(i) + seq![c] + s.skip(i)) == spec_tokenize(s),
{
    lemma_tokenize_prefix(s, i, c, 0);
}

/// A parenthesis-free expression whose operators all share precedence `p`
/// and group to the left: numbers at even positions, operators at odd ones.
pub open spec fn uniform_left_chain(input: Seq<TokenModel>, p: int) -> bool {
    &&& input.len() % 2 == 1
    &&& forall|k: int| 0 <= k < input.len() && k % 2 == 0 ==> (#[trigger] input[k]) is Number
    &&& forall|k: int|
        0 <= k < input.len() && k % 2 == 1 ==> ((#[trigger] input[k]) matches TokenModel::Operator(
            op,
        ) && precedence_of(op) == p && associativity_of(op) == Associativity::Left)
}

/// Each operator placed directly after its second operand, reading an
/// alternating sequence from its second token on.
pub open spec fn ops_after_operands(input: Seq<TokenModel>) -> Seq<TokenModel>
    decreases input.len(),
{
    if input.len() < 3 {
        Seq::empty()
    } else {
        seq![input[2], input[1]] + ops_after_operands(input.skip(2))
    }
}

proof fn lemma_uniform_chain_step(
    input: Seq<TokenModel>,
    p: int,
    stack: Seq<TokenModel>,
    out: Seq<TokenModel>,
)
    requires
        uniform_left_chain(input, p),
        stack.len() <= 1,
        forall|k: int|
            0 <= k < stack.len() ==> ((#[trigger] stack[k]) matches TokenModel::Operator(op)
                && precedence_of(op) == p),
    ensures
        spec_shunt(input, stack, out) == Ok::<Seq<TokenModel>, EvalError>(
            out + seq![input[0]] + stack + ops_after_operands(input),
        ),
    decreases input.len(),
{
    assert(input[0] is Number);
    let out1 = out.push(input[0]);
    assert(spec_shunt(input, stack, out) == spec_shunt(input.drop_first(), stack, out1));
    if input.len() == 1 {
        if stack.len() == 0 {
            assert(spec_shunt(input.drop_first(), stack, out1) == Ok::<Seq<TokenModel>, EvalError>(
                out1,
            ));
            assert(out1 =~= out + seq![input[0]] + stack + ops_after_operands(input));
        } else {
            assert(stack[0] matches TokenModel::Operator(op) && precedence_of(op) == p);
            assert(stack.last() == stack[0]);
            let out2 = out1.push(stack.last());
            assert(stack.drop_last() =~= Seq::<TokenModel>::empty());
            assert(drain_stack(stack, out1) == drain_stack(Seq::empty(), out2));
            assert(out2 =~= out + seq![input[0]] + stack + ops_after_operands(input));
        }
    } else {
        let rest1 = input.drop_first();
        assert(input[1] matches TokenModel::Operator(op));
        match input[1] {
            TokenModel::Operator(op0) => {
                assert(rest1.first() == input[1]);
                let so = pop_higher_precedence(op0, stack, out1);
                if stack.len() == 0 {
                    assert(so == (stack, out1));
                    assert(so.0.push(input[1]) =~= seq![input[1]]);
                    assert(so.1 =~= out + seq![input[0]] + stack);
                } else {
                    assert(stack[0] matches TokenModel::Operator(t) && precedence_of(t) == p);
                    assert(spec_should_pop(stack.last(), op0));
                    assert(stack.drop_last() =~= Seq::<TokenModel>::empty());
                    assert(so == pop_higher_precedence(op0, stack.drop_last(), out1.push(
                        stack.last(),
                    )));
                    assert(so == (Seq::<TokenModel>::empty(), out1.push(stack.last())));
                    assert(so.0.push(input[1]) =~= seq![input[1]]);
                    assert(so.1 =~= out + seq![input[0]] + stack);
                }
                assert(spec_shunt(rest1, stack, out1) == spec_shunt(
                    rest1.drop_first(),
                    so.0.push(input[1]),
                    so.1,
                ));
                let rest2 = input.skip(2);
                assert(rest1.drop_first() =~= rest2);
                assert(rest2.len() % 2 == 1);
                assert(forall|k: int| 0 <= k < rest2.len() ==> rest2[k] == input[k + 2]);
                assert(uniform_left_chain(rest2, p));
                let stack2 = seq![input[1]];
                assert(stack2[0] == input[1]);
                lemma_uniform_chain_step(rest2, p, stack2, so.1);
                assert(rest2[0] == input[2]);
                assert(so.1 + seq![rest2[0]] + stack2 + ops_after_operands(rest2) =~= out + seq![
                    input[0],
                ] + stack + (seq![input[2], input[1]] + ops_after_operands(rest2)));
            },
            _ => {
                assert(false);
            },
        }
    }
}

/// Postfix order matches left-to-right evaluation order on expressions with
/// no parentheses and uniform operator precedence: for an alternating
/// number/operator sequence whose operators all share one precedence and
/// group to the left, the conversion succeeds, keeps the operands in their
/// original order, and places each operator directly after its second
/// operand.
pub proof fn lemma_uniform_chain_postfix(input: Seq<TokenModel>, p: int)
    requires
        uniform_left_chain(input, p),
    ensures
        spec_shunt(input, Seq::empty(), Seq::empty()) == Ok::<Seq<TokenModel>, EvalError>(
            seq![input[0]] + ops_after_operands(input),
        ),
{
    lemma_uniform_chain_step(input, p, Seq::empty(), Seq::empty());
    assert(Seq::<TokenModel>::empty() + seq![input[0]] + Seq::<TokenModel>::empty()
        + ops_after_operands(input) =~= seq![input[0]] + ops_after_operands(input));
}

/// Builds the token a piece of text denotes, mainly a convenience for tests
/// and callers assembling token sequences by hand.
pub fn make_token(string: &str) -> (t: Token)
    ensures
        t@ == spec_make_token(string@),
{
    let n = string.unicode_len();
    if n == 1 {
        let c = string.get_char(0);
        match c {
            '+' => Token::Operator { op: Operation::Addition },
            '-' => Token::Operator { op: Operation::Subtraction },
            '*' => Token::Operator { op: Operation::Multiplication },
            '/' => Token::Operator { op: Operation::Division },
            '^' => Token::Operator { op: Operation::Exponentiation },
            '(' => Token::LSep,
            ')' => Token::RSep,
            _ => Token::Number { val: string.to_owned() },
        }
    } else {
        Token::Number { val: string.to_owned() }
    }
}

} // verus!
