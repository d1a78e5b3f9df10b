use expr_calc::error::CalcError;
use expr_calc::evaluate;
use expr_calc::lexer::{RPNExp, TokenExp};
use expr_calc::parser::{ExpressionTree, TreeNode};
use expr_calc::token::Token;

fn tokens_of(text: &str) -> Vec<Token> {
    TokenExp::from_str(text).unwrap().tokens().clone()
}

fn postfix_of(text: &str) -> Vec<Token> {
    let exp = TokenExp::from_str(text).unwrap();
    RPNExp::from_exp(&exp).unwrap().tokens
}

fn lit(token: Token) -> TreeNode {
    TreeNode { token, left: None, right: None }
}

#[test]
fn single_literal_forms() {
    assert_eq!(evaluate("42"), Ok(42));
    assert_eq!(evaluate("(42)"), Ok(42));
    assert_eq!(evaluate("-42"), Ok(-42));
    assert_eq!(evaluate("-(42)"), Ok(-42));
    assert_eq!(evaluate("(-42)"), Ok(-42));
    assert_eq!(evaluate("0"), Ok(0));
    assert_eq!(evaluate("  7  "), Ok(7));
}

#[test]
fn precedence_and_parentheses() {
    assert_eq!(evaluate("2+3*4"), Ok(14));
    assert_eq!(evaluate("(2+3)*4"), Ok(20));
}

#[test]
fn unary_minus() {
    assert_eq!(evaluate("-5+2"), Ok(-3));
    assert_eq!(evaluate("--5"), Ok(5));
    assert_eq!(evaluate("---5"), Ok(-5));
    assert_eq!(evaluate("+5"), Ok(5));
    assert_eq!(evaluate("2*-3"), Ok(-6));
    assert_eq!(evaluate("2--3"), Ok(5));
}

#[test]
fn truncating_division() {
    assert_eq!(evaluate("10/3"), Ok(3));
    assert_eq!(evaluate("-7/2"), Ok(-3));
    assert_eq!(evaluate("7/-2"), Ok(-3));
    assert_eq!(evaluate("-7/-2"), Ok(3));
    assert_eq!(evaluate("10/0"), Err(CalcError::DivisionByZero));
}

#[test]
fn left_associativity() {
    assert_eq!(evaluate("8-3-2"), Ok(3));
    assert_eq!(evaluate("100/10/5"), Ok(2));
    assert_eq!(evaluate("8 - 3 + 2"), Ok(7));
}

#[test]
fn operator_cannot_open_expression() {
    assert_eq!(evaluate("*3"), Err(CalcError::InvalidSyntax('*')));
    assert_eq!(evaluate("/3"), Err(CalcError::InvalidSyntax('/')));
    assert_eq!(evaluate("2**3"), Err(CalcError::InvalidSyntax('*')));
    assert_eq!(evaluate("2+/3"), Err(CalcError::InvalidSyntax('/')));
    assert_eq!(evaluate("(*3)"), Err(CalcError::MissingOperand));
    assert_eq!(
        tokens_of("(*3)"),
        vec![Token::ParenOpen, Token::Mul, Token::Literal(3), Token::ParenClose]
    );
}

#[test]
fn mismatched_parentheses_are_refused() {
    assert_eq!(evaluate("2+3)"), Err(CalcError::InvalidSyntax(')')));
    assert_eq!(evaluate(")"), Err(CalcError::InvalidSyntax(')')));
    assert_eq!(evaluate("2)+3"), Err(CalcError::InvalidSyntax(')')));
    assert_eq!(evaluate("(1))+((2)"), Err(CalcError::InvalidSyntax(')')));
    let exp = TokenExp::from_str("2)+3").unwrap();
    assert!(matches!(RPNExp::from_exp(&exp), Err(CalcError::InvalidSyntax(')'))));
    assert_eq!(evaluate("(2+3"), Err(CalcError::InvalidSyntax('(')));
    assert_eq!(evaluate("((1)"), Err(CalcError::InvalidSyntax('(')));
}

#[test]
fn unknown_characters() {
    assert_eq!(evaluate("2 $ 3"), Err(CalcError::InvalidSyntax('$')));
    assert_eq!(evaluate("2\t+3"), Err(CalcError::InvalidSyntax('\t')));
    assert_eq!(evaluate("x"), Err(CalcError::InvalidSyntax('x')));
}

#[test]
fn literal_limits() {
    assert_eq!(evaluate("9223372036854775807"), Ok(i64::MAX));
    assert_eq!(evaluate("9223372036854775808"), Err(CalcError::UnknownToken(0)));
    assert_eq!(evaluate("99999999999999999999999"), Err(CalcError::UnknownToken(0)));
    assert_eq!(evaluate("1 + (92233720368547758070)"), Err(CalcError::UnknownToken(5)));
    assert_eq!(evaluate("7*-00009223372036854775808"), Err(CalcError::UnknownToken(3)));
    assert_eq!(evaluate("-9223372036854775807-1"), Ok(i64::MIN));
}

#[test]
fn overflow_is_reported() {
    assert_eq!(evaluate("9223372036854775807+1"), Err(CalcError::Overflow));
    assert_eq!(evaluate("4611686018427387904*2"), Err(CalcError::Overflow));
    assert_eq!(evaluate("(-9223372036854775807-1)/-1"), Err(CalcError::Overflow));
    assert_eq!(evaluate("-(-9223372036854775807-1)"), Err(CalcError::Overflow));
}

#[test]
fn empty_expressions() {
    assert_eq!(evaluate(""), Err(CalcError::EmptyExpression));
    assert_eq!(evaluate("   "), Err(CalcError::EmptyExpression));
    assert_eq!(evaluate("()"), Err(CalcError::EmptyExpression));
}

#[test]
fn tokenizer_classifies_signs() {
    assert_eq!(tokens_of("2-3"), vec![Token::Literal(2), Token::Sub(2), Token::Literal(3)]);
    assert_eq!(tokens_of("-2"), vec![Token::Sub(1), Token::Literal(2)]);
    assert_eq!(
        tokens_of("(+2)*-3"),
        vec![
            Token::ParenOpen,
            Token::Sum(1),
            Token::Literal(2),
            Token::ParenClose,
            Token::Mul,
            Token::Sub(1),
            Token::Literal(3),
        ]
    );
    assert_eq!(tokens_of("12 34"), vec![Token::Literal(12), Token::Literal(34)]);
    assert_eq!(tokens_of("007"), vec![Token::Literal(7)]);
}

#[test]
fn postfix_order() {
    assert_eq!(
        postfix_of("2+3*4"),
        vec![Token::Literal(2), Token::Literal(3), Token::Literal(4), Token::Mul, Token::Sum(2)]
    );
    assert_eq!(
        postfix_of("(2+3)*4"),
        vec![Token::Literal(2), Token::Literal(3), Token::Sum(2), Token::Literal(4), Token::Mul]
    );
    assert_eq!(
        postfix_of("8-3-2"),
        vec![Token::Literal(8), Token::Literal(3), Token::Sub(2), Token::Literal(2), Token::Sub(2)]
    );
    assert_eq!(postfix_of("--5"), vec![Token::Literal(5), Token::Sub(1), Token::Sub(1)]);
}

#[test]
fn tree_builder_failures() {
    let empty = RPNExp { tokens: vec![] };
    assert!(matches!(TreeNode::from_rpn_exp(&empty), Err(CalcError::EmptyExpression)));
    let lone = RPNExp { tokens: vec![Token::Mul] };
    assert!(matches!(TreeNode::from_rpn_exp(&lone), Err(CalcError::MalformedEquation)));
    let extra = RPNExp { tokens: vec![Token::Literal(2), Token::Literal(3)] };
    assert!(matches!(TreeNode::from_rpn_exp(&extra), Err(CalcError::MalformedEquation)));
}

#[test]
fn leftover_operands_are_refused() {
    assert_eq!(evaluate("2 3"), Err(CalcError::MalformedEquation));
    assert_eq!(evaluate("(1)(2)"), Err(CalcError::MalformedEquation));
    assert_eq!(evaluate("1+2 3"), Err(CalcError::MalformedEquation));
}

#[test]
fn tree_shape() {
    let exp = TokenExp::from_str("1-2*3").unwrap();
    let root = TreeNode::from_exp(&exp).unwrap();
    assert_eq!(root.token, Token::Sub(2));
    assert_eq!(root.left.as_ref().unwrap().token, Token::Literal(1));
    let right = root.right.as_ref().unwrap();
    assert_eq!(right.token, Token::Mul);
    assert_eq!(right.left.as_ref().unwrap().token, Token::Literal(2));
    assert_eq!(right.right.as_ref().unwrap().token, Token::Literal(3));
}

#[test]
fn missing_operand_is_reported() {
    let node = TreeNode { token: Token::Mul, left: None, right: Some(Box::new(lit(Token::Literal(3)))) };
    assert_eq!(node.eval(), Err(CalcError::MissingOperand));
    let sign = TreeNode { token: Token::Sub(1), left: None, right: None };
    assert_eq!(sign.eval(), Err(CalcError::MissingOperand));
    let mut stepped = TreeNode { token: Token::Sum(2), left: None, right: Some(Box::new(lit(Token::Literal(3)))) };
    assert_eq!(stepped.eval_step(), Err(CalcError::MissingOperand));
    assert_eq!(stepped.token, Token::Sum(2));
}

#[test]
fn one_reduction_step() {
    let exp = TokenExp::from_str("(1+2)*(3+4)").unwrap();
    let mut root = TreeNode::from_exp(&exp).unwrap();
    assert_eq!(root.eval_step(), Ok(()));
    assert_eq!(root.left.as_ref().unwrap().token, Token::Literal(3));
    assert_eq!(root.right.as_ref().unwrap().token, Token::Sum(2));
    assert_eq!(root.eval_step(), Ok(()));
    assert_eq!(root.right.as_ref().unwrap().token, Token::Literal(7));
    assert_eq!(root.eval_step(), Ok(()));
    assert_eq!(root.token, Token::Literal(21));
    assert!(root.left.is_none() && root.right.is_none());
    assert_eq!(root.eval_step(), Ok(()));
    assert_eq!(root.token, Token::Literal(21));
}

#[test]
fn stepwise_matches_recursive() {
    for text in ["2+3*4-(6/2)", "-(8-3-2)*--4", "((7))/2+1", "1/0+2", "5-(3*(2+-1))"] {
        let exp = TokenExp::from_str(text).unwrap();
        let mut tree = ExpressionTree::from_exp(&exp).unwrap();
        let direct = tree.root.eval();
        assert_eq!(tree.eval(), direct);
    }
}

#[test]
fn token_predicates() {
    assert!(Token::Sum(1).is_operator());
    assert!(Token::Div.is_operator());
    assert!(!Token::ParenOpen.is_operator());
    assert!(!Token::Literal(3).is_operator());
    assert!(Token::Literal(3).is_literal());
    assert!(!Token::NullOps.is_literal());
}

#[test]
fn precedence_comparison() {
    assert_eq!(Token::Sum(2).check_precedence(&Token::Mul), 1);
    assert_eq!(Token::Mul.check_precedence(&Token::Sum(2)), -1);
    assert_eq!(Token::Sub(2).check_precedence(&Token::Sum(2)), 0);
    assert_eq!(Token::Mul.check_precedence(&Token::Sub(1)), 1);
    assert_eq!(Token::Sum(2).check_precedence(&Token::ParenOpen), -1);
}

#[test]
fn token_text() {
    assert_eq!(Token::Literal(-120).to_string(), "-120");
    assert_eq!(Token::Literal(0).to_string(), "0");
    assert_eq!(Token::Literal(i64::MIN).to_string(), "-9223372036854775808");
    assert_eq!(Token::Sub(1).to_string(), "-");
    assert_eq!(Token::Sum(2).to_string(), "+");
    assert_eq!(Token::NullOps.to_string(), "null");
    assert_eq!(Token::Sum(7).to_string(), "INVALID");
    assert_eq!(Token::ParenClose.to_string(), ")");
}

#[test]
fn printed_tokens_tokenize_back() {
    for text in ["-5+2", "(2+3)*4", "--5", "8-3-2", "12 34", "(-7)/+2*3", "9223372036854775807"] {
        let exp = TokenExp::from_str(text).unwrap();
        let printed = exp.to_text();
        let again = TokenExp::from_str(&printed).unwrap();
        assert_eq!(again.tokens(), exp.tokens());
    }
    assert_eq!(TokenExp::from_str("-5+2").unwrap().to_text(), "- 5 + 2 ");
    assert_eq!(TokenExp::from_str("").unwrap().to_text(), "");
}

#[test]
fn infix_trace_text() {
    let exp = TokenExp::from_str("(1+2)*3").unwrap();
    let mut root = TreeNode::from_exp(&exp).unwrap();
    assert_eq!(root.infix_text(), "1 + 2 * 3 ");
    root.eval_step().unwrap();
    assert_eq!(root.infix_text(), "3 * 3 ");
    let exp = TokenExp::from_str("-4").unwrap();
    let root = TreeNode::from_exp(&exp).unwrap();
    assert_eq!(root.infix_text(), "- 4 ");
}

#[test]
fn tree_drawing() {
    let exp = TokenExp::from_str("1+-2").unwrap();
    let tree = ExpressionTree::from_exp(&exp).unwrap();
    let expected = "(+)\n |-(1)\n |  |-(NULL)\n |  |-(NULL)\n |-(-)\n |  |-(NULL)\n |  |-(2)\n |  |  |-(NULL)\n |  |  |-(NULL)\n";
    assert_eq!(tree.display(), expected);
    assert_eq!(lit(Token::Literal(5)).display(), "(5)\n |-(NULL)\n |-(NULL)\n");
}

#[test]
fn double_negation_of_literal_forms() {
    assert_eq!(evaluate("-(-3)"), Ok(3));
    assert_eq!(evaluate("(((5)))"), Ok(5));
    assert_eq!(evaluate("-(((0042)))"), Ok(-42));
    assert_eq!(evaluate("(-9223372036854775807)"), Ok(-9223372036854775807));
}

#[test]
fn deeply_nested_parentheses() {
    let depth = 10_000;
    let text = format!("{}1+2{}", "(".repeat(depth), ")".repeat(depth));
    assert_eq!(evaluate(&text), Ok(3));
    let unbalanced = format!("{}1{}", "(".repeat(depth), ")".repeat(depth - 1));
    assert_eq!(evaluate(&unbalanced), Err(CalcError::InvalidSyntax('(')));
}

#[test]
fn long_sign_chains() {
    let even = format!("{}5", "-".repeat(1_000));
    assert_eq!(evaluate(&even), Ok(5));
    let odd = format!("{}5", "-".repeat(1_001));
    assert_eq!(evaluate(&odd), Ok(-5));
}

#[test]
fn postfix_text() {
    let exp = TokenExp::from_str("(2+3)*-4").unwrap();
    let rpn = RPNExp::from_exp(&exp).unwrap();
    assert_eq!(rpn.to_text(), "2 3 + 4 - * ");
}

#[test]
fn deeply_nested_right_operands() {
    let depth = 10_000;
    let text = format!("{}1{}", "1-(".repeat(depth), ")".repeat(depth));
    let exp = TokenExp::from_str(&text).unwrap();
    let mut tree = ExpressionTree::from_exp(&exp).unwrap();
    let direct = tree.root.eval();
    assert_eq!(direct, Ok(1));
    assert_eq!(tree.eval(), Ok(1));
    assert_eq!(evaluate(&format!("{}2{}", "1*(".repeat(depth), ")".repeat(depth))), Ok(2));
}
