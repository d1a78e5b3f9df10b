use vstd::prelude::*;
use vstd::string::StringExecFns;

verus! {

/// A lexical symbol of an expression.
///
/// `Sum` and `Sub` carry their arity: 1 for the unary sign, 2 for the binary operator.
#[derive(Debug, Clone, Copy, PartialEq, Eq, Structural)]
pub enum Token {
    NullOps,
    Sum(u8),
    Sub(u8),
    Mul,
    Div,
    ParenOpen,
    ParenClose,
    Literal(i64),
}

impl Token {
    /// `+`, `-`, `*` or `/`, of any arity.
    pub open spec fn spec_is_operator(self) -> bool {
        self is Sum || self is Sub || self is Mul || self is Div
    }

    /// A sign: `+` or `-` of arity 1.
    pub open spec fn spec_is_unary(self) -> bool {
        self == Token::Sum(1) || self == Token::Sub(1)
    }

    /// Binding strength: binary `+ -` 0, `* /` 1, unary `+ -` 2, anything else -1.
    pub open spec fn precedence(self) -> int {
        match self {
            Token::Sum(2) | Token::Sub(2) => 0,
            Token::Mul | Token::Div => 1,
            Token::Sum(1) | Token::Sub(1) => 2,
            _ => -1,
        }
    }

    pub fn is_operator(&self) -> (r: bool)
        ensures
            r == self.spec_is_operator(),
    {
        match self {
            Token::Sum(_) | Token::Sub(_) | Token::Mul | Token::Div => true,
            _ => false,
        }
    }

    pub fn is_literal(&self) -> (r: bool)
        ensures
            r == self is Literal,
    {
        match self {
            Token::Literal(_) => true,
            _ => false,
        }
    }

    fn priority(&self) -> (r: i8)
        ensures
            r == self.precedence(),
    {
        match self {
            Token::Sum(2) | Token::Sub(2) => 0,
            Token::Mul | Token::Div => 1,
            Token::Sum(1) | Token::Sub(1) => 2,
            _ => -1,
        }
    }

    /// How much tighter `op` binds than `self`: not negative when `op`
    /// must leave the operator stack before `self` is pushed.
    pub fn check_precedence(&self, op: &Token) -> (r: i8)
        ensures
            r == op.precedence() - self.precedence(),
    {
        op.priority() - self.priority()
    }
}


/// The decimal digit for `d`, where `d < 10`.
pub open spec fn digit_char(d: nat) -> char {
    if d == 0 { '0' }
    else if d == 1 { '1' }
    else if d == 2 { '2' }
    else if d == 3 { '3' }
    else if d == 4 { '4' }
    else if d == 5 { '5' }
    else if d == 6 { '6' }
    else if d == 7 { '7' }
    else if d == 8 { '8' }
    else { '9' }
}

/// The decimal digits of `n`, most significant first, with no leading zero.
pub open spec fn decimal(n: nat) -> Seq<char>
    decreases n,
{
    if n < 10 {
        seq![digit_char(n)]
    } else {
        decimal(n / 10).push(digit_char(n % 10))
    }
}

/// The text of an integer: its decimal digits, after `-` when it is negative.
pub open spec fn int_text(v: int) -> Seq<char> {
    if v < 0 {
        seq!['-'] + decimal((-v) as nat)
    } else {
        decimal(v as nat)
    }
}

impl Token {
    /// The printed form of a token.
    pub open spec fn text(self) -> Seq<char> {
        match self {
            Token::NullOps => seq!['n', 'u', 'l', 'l'],
            Token::Sum(a) => if a == 1 || a == 2 { seq!['+'] } else { invalid_text() },
            Token::Sub(a) => if a == 1 || a == 2 { seq!['-'] } else { invalid_text() },
            Token::Mul => seq!['*'],
            Token::Div => seq!['/'],
            Token::ParenOpen => seq!['('],
            Token::ParenClose => seq![')'],
            Token::Literal(v) => int_text(v as int),
        }
    }

    /// The printed form of the token.
    pub fn to_string(&self) -> (r: String)
        ensures
            r@ == self.text(),
    {
        proof {
            reveal_strlit("null");
            reveal_strlit("+");
            reveal_strlit("-");
            reveal_strlit("*");
            reveal_strlit("/");
            reveal_strlit("(");
            reveal_strlit(")");
            reveal_strlit("INVALID");
        }
        match self {
            Token::NullOps => String::from_str("null"),
            Token::Sum(1) | Token::Sum(2) => String::from_str("+"),
            Token::Sub(1) | Token::Sub(2) => String::from_str("-"),
            Token::Mul => String::from_str("*"),
            Token::Div => String::from_str("/"),
            Token::ParenOpen => String::from_str("("),
            Token::ParenClose => String::from_str(")"),
            Token::Literal(v) => int_string(*v),
            _ => String::from_str("INVALID"),
        }
    }
}

/// The text of a `+` or `-` whose arity is neither 1 nor 2.
pub open spec fn invalid_text() -> Seq<char> {
    seq!['I', 'N', 'V', 'A', 'L', 'I', 'D']
}

fn digit_str(d: u64) -> (r: &'static str)
    requires
        d < 10,
    ensures
        r@ == seq![digit_char(d as nat)],
{
    proof {
        reveal_strlit("0");
        reveal_strlit("1");
        reveal_strlit("2");
        reveal_strlit("3");
        reveal_strlit("4");
        reveal_strlit("5");
        reveal_strlit("6");
        reveal_strlit("7");
        reveal_strlit("8");
        reveal_strlit("9");
    }
    if d == 0 { "0" }
    else if d == 1 { "1" }
    else if d == 2 { "2" }
    else if d == 3 { "3" }
    else if d == 4 { "4" }
    else if d == 5 { "5" }
    else if d == 6 { "6" }
    else if d == 7 { "7" }
    else if d == 8 { "8" }
    else { "9" }
}

fn decimal_string(n: u64) -> (r: String)
    ensures
        r@ == decimal(n as nat),
    decreases n,
{
    if n < 10 {
        String::from_str(digit_str(n))
    } else {
        let mut s = decimal_string(n / 10);
        s.append(digit_str(n % 10));
        s
    }
}

/// The text of `v` in decimal.
pub fn int_string(v: i64) -> (r: String)
    ensures
        r@ == int_text(v as int),
{
    if v < 0 {
        let m: u64 = (0i128 - v as i128) as u64;
        let digits = decimal_string(m);
        let mut s = String::from_str("-");
        proof { reveal_strlit("-"); }
        s.append(digits.as_str());
        s
    } else {
        decimal_string(v as u64)
    }
}

} // verus!
