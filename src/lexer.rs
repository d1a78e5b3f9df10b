use vstd::prelude::*;

use crate::error::CalcError;
use crate::token::{decimal, digit_char, Token};
use vstd::std_specs::iter::IteratorSpec;
use vstd::string::StringExecFns;

verus! {

broadcast use vstd::string::group_string_axioms;

/// An ASCII decimal digit.
pub open spec fn is_digit(c: char) -> bool {
    '0' <= c && c <= '9'
}

/// The value of a decimal digit.
pub open spec fn digit_value(c: char) -> nat {
    (c as u32 - '0' as u32) as nat
}

/// Whether the next token must be an operand: at the start of the text, after
/// an operator and after an opening parenthesis. There `+` and `-` are signs.
pub open spec fn expects_operand(last: Token) -> bool {
    last.spec_is_operator() || last == Token::ParenOpen || last == Token::NullOps
}

/// Whether `*` and `/` are out of place after `last`: at the start of the
/// text and right after an operator.
pub open spec fn refuses_binary(last: Token) -> bool {
    last.spec_is_operator() || last == Token::NullOps
}

/// The token for a one-character symbol `c` that follows `last`.
pub open spec fn symbol_token(c: char, last: Token) -> Result<Token, CalcError> {
    if c == '(' {
        Ok(Token::ParenOpen)
    } else if c == ')' {
        Ok(Token::ParenClose)
    } else if c == '+' {
        Ok(if expects_operand(last) { Token::Sum(1) } else { Token::Sum(2) })
    } else if c == '-' {
        Ok(if expects_operand(last) { Token::Sub(1) } else { Token::Sub(2) })
    } else if c == '*' || c == '/' {
        if refuses_binary(last) {
            Err(CalcError::InvalidSyntax(c))
        } else if c == '*' {
            Ok(Token::Mul)
        } else {
            Ok(Token::Div)
        }
    } else {
        Err(CalcError::InvalidSyntax(c))
    }
}

/// The tokens before a pending literal `num` is closed: `num` is appended
/// when there is one.
pub open spec fn close_literal(acc: Seq<Token>, num: Option<int>) -> Seq<Token> {
    match num {
        Some(v) => acc.push(Token::Literal(v as i64)),
        None => acc,
    }
}

/// The token last emitted once a pending literal `num` is closed.
pub open spec fn last_after_close(last: Token, num: Option<int>) -> Token {
    match num {
        Some(v) => Token::Literal(v as i64),
        None => last,
    }
}

/// Where the run of digits that ends just before position `i` starts.
pub open spec fn digits_start(s: Seq<char>, i: int) -> int
    decreases i,
{
    if 0 < i <= s.len() && is_digit(s[i - 1]) {
        digits_start(s, i - 1)
    } else {
        i
    }
}

/// Scanning `s` from position `i`: `last` is the last token emitted, `acc`
/// the tokens emitted so far, and `num` the value of a run of digits that is
/// still open. Spaces separate tokens and are otherwise skipped.
pub open spec fn lex_from(
    s: Seq<char>,
    i: nat,
    last: Token,
    acc: Seq<Token>,
    num: Option<int>,
) -> Result<Seq<Token>, CalcError>
    decreases s.len() - i,
{
    if i >= s.len() {
        Ok(close_literal(acc, num))
    } else {
        let c = s[i as int];
        if is_digit(c) {
            let v = match num {
                Some(n) => n * 10 + digit_value(c),
                None => digit_value(c) as int,
            };
            if v > i64::MAX {
                Err(CalcError::UnknownToken(digits_start(s, i as int) as usize))
            } else {
                lex_from(s, i + 1, last, acc, Some(v))
            }
        } else {
            let last2 = last_after_close(last, num);
            let acc2 = close_literal(acc, num);
            if c == ' ' {
                lex_from(s, i + 1, last2, acc2, None)
            } else {
                match symbol_token(c, last2) {
                    Ok(t) => lex_from(s, i + 1, t, acc2.push(t), None),
                    Err(e) => Err(e),
                }
            }
        }
    }
}

/// The token sequence of the text `s`, or the first failure met in it.
pub open spec fn tokenize(s: Seq<char>) -> Result<Seq<Token>, CalcError> {
    lex_from(s, 0, Token::NullOps, Seq::empty(), None)
}

/// An expression as a sequence of tokens in written (infix) order.
pub struct TokenExp {
    tokens: Vec<Token>,
}

impl View for TokenExp {
    type V = Seq<Token>;

    closed spec fn view(&self) -> Seq<Token> {
        self.tokens@
    }
}

fn chars_of(s: &str) -> (r: Vec<char>)
    ensures
        r@ == s@,
{
    let mut it = s.chars();
    let mut out: Vec<char> = Vec::new();
    loop
        invariant
            out@ + it.remaining() == s@,
            it.decrease() is Some,
        decreases it.decrease()->0,
    {
        match it.next() {
            Some(c) => {
                out.push(c);
                assert(out@ + it.remaining() =~= s@);
            },
            None => {
                assert(out@ =~= s@);
                return out;
            },
        }
    }
}

fn symbol(c: char, last: Token) -> (r: Result<Token, CalcError>)
    ensures
        r == symbol_token(c, last),
{
    let refused = last.is_operator() || last == Token::NullOps;
    let operand_next = refused || last == Token::ParenOpen;
    if c == '(' {
        Ok(Token::ParenOpen)
    } else if c == ')' {
        Ok(Token::ParenClose)
    } else if c == '+' {
        Ok(if operand_next { Token::Sum(1) } else { Token::Sum(2) })
    } else if c == '-' {
        Ok(if operand_next { Token::Sub(1) } else { Token::Sub(2) })
    } else if c == '*' || c == '/' {
        if refused {
            Err(CalcError::InvalidSyntax(c))
        } else if c == '*' {
            Ok(Token::Mul)
        } else {
            Ok(Token::Div)
        }
    } else {
        Err(CalcError::InvalidSyntax(c))
    }
}

impl TokenExp {
    /// Splits `text` into tokens, telling signs from binary `+` and `-` by the
    /// token emitted before them. A character that has no place fails with
    /// `InvalidSyntax`, and a run of digits too large for `i64` with
    /// `UnknownToken` at the position where the run starts.
    pub fn from_str(text: &str) -> (r: Result<TokenExp, CalcError>)
        ensures
            match tokenize(text@) {
                Ok(ts) => r is Ok && r->Ok_0@ == ts,
                Err(e) => r == Err::<TokenExp, CalcError>(e),
            },
    {
        let s = chars_of(text);
        let mut tokens: Vec<Token> = Vec::new();
        let mut last = Token::NullOps;
        let mut num: Option<i64> = None;
        let mut start: usize = 0;
        let mut i: usize = 0;
        while i < s.len()
            invariant
                i <= s@.len(),
                s@ == text@,
                lex_from(s@, i as nat, last, tokens@, match num {
                    Some(v) => Some(v as int),
                    None => None,
                }) == tokenize(text@),
                num is Some ==> num->0 >= 0,
                num is Some ==> start as int == digits_start(s@, i as int),
                num is None ==> (i == 0 || !is_digit(s@[i - 1])),
            decreases s@.len() - i,
        {
            let c = s[i];
            let ghost gnum = match num {
                Some(v) => Some(v as int),
                None => None::<int>,
            };
            if '0' <= c && c <= '9' {
                let d: u128 = (c as u32 - '0' as u32) as u128;
                let v: u128 = match num {
                    Some(n) => n as u128 * 10 + d,
                    None => d,
                };
                if num.is_none() {
                    start = i;
                    assert(digits_start(s@, i as int) == i);
                }
                if v > i64::MAX as u128 {
                    return Err(CalcError::UnknownToken(start));
                }
                num = Some(v as i64);
                proof {
                    assert(is_digit(s@[i as int]));
                    assert(digits_start(s@, i + 1) == digits_start(s@, i as int));
                }
            } else {
                if let Some(n) = num {
                    tokens.push(Token::Literal(n));
                    last = Token::Literal(n);
                    num = None;
                }
                if c != ' ' {
                    match symbol(c, last) {
                        Ok(t) => {
                            tokens.push(t);
                            last = t;
                        },
                        Err(e) => {
                            return Err(e);
                        },
                    }
                }
            }
            i = i + 1;
        }
        if let Some(n) = num {
            tokens.push(Token::Literal(n));
        }
        Ok(TokenExp { tokens })
    }

    /// The tokens in written order.
    pub fn tokens(&self) -> (r: &Vec<Token>)
        ensures
            r@ == self@,
    {
        &self.tokens
    }
}


/// Moves operators that bind at least as tightly as `t` from the top of the
/// operator stack to the output, which makes same-precedence operators
/// associate to the left.
pub open spec fn pop_tighter(stack: Seq<Token>, out: Seq<Token>, t: Token) -> (Seq<Token>, Seq<Token>)
    decreases stack.len(),
{
    if stack.len() > 0 && stack.last().precedence() - t.precedence() >= 0 {
        pop_tighter(stack.drop_last(), out.push(stack.last()), t)
    } else {
        (stack, out)
    }
}

/// Moves operators from the top of the stack to the output until the top is
/// an opening parenthesis or the stack is empty.
pub open spec fn pop_to_open(stack: Seq<Token>, out: Seq<Token>) -> (Seq<Token>, Seq<Token>)
    decreases stack.len(),
{
    if stack.len() == 0 || stack.last() == Token::ParenOpen {
        (stack, out)
    } else {
        pop_to_open(stack.drop_last(), out.push(stack.last()))
    }
}

/// The shunting-yard conversion of `toks` from position `i` on, with an
/// operator stack and the output so far. A sign is pushed without popping:
/// it has no left operand, so nothing on the stack is complete when it comes.
/// A closing parenthesis without an opening one, and an opening one that is
/// never closed, are refused.
pub open spec fn shunt(toks: Seq<Token>, i: nat, stack: Seq<Token>, out: Seq<Token>) -> Result<Seq<Token>, CalcError>
    decreases toks.len() - i,
{
    if i >= toks.len() {
        let (s2, o2) = pop_to_open(stack, out);
        if s2.len() == 0 {
            Ok(o2)
        } else {
            Err(CalcError::InvalidSyntax('('))
        }
    } else {
        let t = toks[i as int];
        if t is Literal {
            shunt(toks, i + 1, stack, out.push(t))
        } else if t.spec_is_unary() || t == Token::ParenOpen {
            shunt(toks, i + 1, stack.push(t), out)
        } else if t.spec_is_operator() {
            let (s2, o2) = pop_tighter(stack, out, t);
            shunt(toks, i + 1, s2.push(t), o2)
        } else if t == Token::ParenClose {
            let (s2, o2) = pop_to_open(stack, out);
            if s2.len() == 0 {
                Err(CalcError::InvalidSyntax(')'))
            } else {
                shunt(toks, i + 1, s2.drop_last(), o2)
            }
        } else {
            shunt(toks, i + 1, stack, out)
        }
    }
}

/// The postfix (Reverse Polish) order of the infix sequence `toks`.
pub open spec fn to_postfix(toks: Seq<Token>) -> Result<Seq<Token>, CalcError> {
    shunt(toks, 0, Seq::empty(), Seq::empty())
}

/// An expression in postfix order: each operator follows its operands.
pub struct RPNExp {
    pub tokens: Vec<Token>,
}

impl View for RPNExp {
    type V = Seq<Token>;

    open spec fn view(&self) -> Seq<Token> {
        self.tokens@
    }
}

impl RPNExp {
    /// Converts an infix sequence to postfix order. A closing parenthesis
    /// that closes nothing fails with `InvalidSyntax(')')`, and an opening one
    /// left open with `InvalidSyntax('(')`.
    pub fn from_exp(exp: &TokenExp) -> (r: Result<RPNExp, CalcError>)
        ensures
            match to_postfix(exp@) {
                Ok(ts) => r is Ok && r->Ok_0@ == ts,
                Err(e) => r == Err::<RPNExp, CalcError>(e),
            },
    {
        let toks = exp.tokens();
        let mut stack: Vec<Token> = Vec::new();
        let mut out: Vec<Token> = Vec::new();
        let mut i: usize = 0;
        while i < toks.len()
            invariant
                i <= toks@.len(),
                toks@ == exp@,
                shunt(toks@, i as nat, stack@, out@) == to_postfix(exp@),
            decreases toks@.len() - i,
        {
            let t = toks[i];
            if t.is_literal() {
                out.push(t);
            } else if t == Token::Sum(1) || t == Token::Sub(1) || t == Token::ParenOpen {
                stack.push(t);
            } else if t.is_operator() {
                Self::pop_tighter(&mut stack, &mut out, &t);
                stack.push(t);
            } else if t == Token::ParenClose {
                Self::flush_stack_to_queue(&mut stack, &mut out);
                if stack.len() == 0 {
                    return Err(CalcError::InvalidSyntax(')'));
                }
                stack.pop();
            }
            i = i + 1;
        }
        Self::flush_stack_to_queue(&mut stack, &mut out);
        if stack.len() > 0 {
            return Err(CalcError::InvalidSyntax('('));
        }
        Ok(RPNExp { tokens: out })
    }

    fn pop_tighter(stack: &mut Vec<Token>, queue: &mut Vec<Token>, t: &Token)
        ensures
            (final(stack)@, final(queue)@) == pop_tighter(old(stack)@, old(queue)@, *t),
    {
        while stack.len() > 0
            invariant
                pop_tighter(stack@, queue@, *t) == pop_tighter(old(stack)@, old(queue)@, *t),
            ensures
                pop_tighter(stack@, queue@, *t) == (stack@, queue@),
            decreases stack@.len(),
        {
            let top = stack[stack.len() - 1];
            if t.check_precedence(&top) < 0 {
                break;
            }
            stack.pop();
            queue.push(top);
        }
    }

    /// Moves operators from the stack to the queue until an opening
    /// parenthesis is on top or the stack is empty.
    fn flush_stack_to_queue(stack: &mut Vec<Token>, queue: &mut Vec<Token>)
        ensures
            (final(stack)@, final(queue)@) == pop_to_open(old(stack)@, old(queue)@),
    {
        while stack.len() > 0
            invariant
                pop_to_open(stack@, queue@) == pop_to_open(old(stack)@, old(queue)@),
            ensures
                pop_to_open(stack@, queue@) == (stack@, queue@),
            decreases stack@.len(),
        {
            let top = stack[stack.len() - 1];
            if top == Token::ParenOpen {
                break;
            }
            stack.pop();
            queue.push(top);
        }
    }

    /// The printed form of the postfix sequence.
    pub fn to_text(&self) -> (r: String)
        ensures
            r@ == render(self@),
    {
        render_tokens(&self.tokens)
    }
}

/// Opening minus closing parentheses among the first `i` tokens of `ts`.
pub open spec fn balance(ts: Seq<Token>, i: int) -> int
    decreases i,
{
    if i <= 0 || i > ts.len() {
        0
    } else {
        balance(ts, i - 1) + if ts[i - 1] == Token::ParenOpen {
            1int
        } else if ts[i - 1] == Token::ParenClose {
            -1int
        } else {
            0int
        }
    }
}

/// The number of opening parentheses on an operator stack.
pub open spec fn open_count(stack: Seq<Token>) -> int
    decreases stack.len(),
{
    if stack.len() == 0 {
        0
    } else {
        open_count(stack.drop_last()) + if stack.last() == Token::ParenOpen { 1int } else { 0int }
    }
}

/// Whether every `+` and `-` of `ts` has arity 1 or 2.
pub open spec fn arities_valid(ts: Seq<Token>) -> bool {
    forall|j: int| 0 <= j < ts.len() && (#[trigger] ts[j]).spec_is_operator() ==> ts[j].precedence() >= 0
}

proof fn lemma_open_count_nonneg(stack: Seq<Token>)
    ensures
        open_count(stack) >= 0,
        stack.len() == 0 ==> open_count(stack) == 0,
    decreases stack.len(),
{
    if stack.len() > 0 {
        lemma_open_count_nonneg(stack.drop_last());
    }
}

proof fn lemma_pop_tighter_keeps_opens(stack: Seq<Token>, out: Seq<Token>, t: Token)
    requires
        t.precedence() >= 0,
    ensures
        open_count(pop_tighter(stack, out, t).0) == open_count(stack),
    decreases stack.len(),
{
    if stack.len() > 0 && stack.last().precedence() - t.precedence() >= 0 {
        lemma_pop_tighter_keeps_opens(stack.drop_last(), out.push(stack.last()), t);
    }
}

proof fn lemma_pop_to_open_keeps_opens(stack: Seq<Token>, out: Seq<Token>)
    ensures
        open_count(pop_to_open(stack, out).0) == open_count(stack),
        open_count(stack) > 0 ==> pop_to_open(stack, out).0.len() > 0,
        pop_to_open(stack, out).0.len() > 0 ==> pop_to_open(stack, out).0.last() == Token::ParenOpen,
    decreases stack.len(),
{
    lemma_open_count_nonneg(stack);
    if stack.len() > 0 && stack.last() != Token::ParenOpen {
        lemma_pop_to_open_keeps_opens(stack.drop_last(), out.push(stack.last()));
    }
}

proof fn lemma_shunt_unmatched(ts: Seq<Token>, i: nat, stack: Seq<Token>, out: Seq<Token>, j: int)
    requires
        arities_valid(ts),
        open_count(stack) == balance(ts, i as int),
        i < j <= ts.len(),
        balance(ts, j) < 0,
    ensures
        shunt(ts, i, stack, out) == Err::<Seq<Token>, CalcError>(CalcError::InvalidSyntax(')')),
    decreases ts.len() - i,
{
    let t = ts[i as int];
    lemma_open_count_nonneg(stack);
    assert(balance(ts, i + 1 as int) == balance(ts, i as int) + if t == Token::ParenOpen {
        1int
    } else if t == Token::ParenClose {
        -1int
    } else {
        0int
    });
    if t is Literal {
        lemma_shunt_unmatched(ts, i + 1, stack, out.push(t), j);
    } else if t.spec_is_unary() || t == Token::ParenOpen {
        assert(stack.push(t).drop_last() =~= stack);
        lemma_shunt_unmatched(ts, i + 1, stack.push(t), out, j);
    } else if t.spec_is_operator() {
        let (s2, o2) = pop_tighter(stack, out, t);
        lemma_pop_tighter_keeps_opens(stack, out, t);
        assert(s2.push(t).drop_last() =~= s2);
        lemma_shunt_unmatched(ts, i + 1, s2.push(t), o2, j);
    } else if t == Token::ParenClose {
        let (s2, o2) = pop_to_open(stack, out);
        lemma_pop_to_open_keeps_opens(stack, out);
        if s2.len() > 0 {
            assert(open_count(s2) == open_count(s2.drop_last()) + 1);
            lemma_open_count_nonneg(s2.drop_last());
            lemma_shunt_unmatched(ts, i + 1, s2.drop_last(), o2, j);
        }
    } else {
        lemma_shunt_unmatched(ts, i + 1, stack, out, j);
    }
}

/// A closing parenthesis that closes nothing is refused: where some prefix
/// of `ts` holds more closing parentheses than opening ones, the conversion
/// to postfix fails with `InvalidSyntax(')')`.
pub proof fn lemma_unmatched_close(ts: Seq<Token>, j: int)
    requires
        arities_valid(ts),
        0 <= j <= ts.len(),
        balance(ts, j) < 0,
    ensures
        to_postfix(ts) == Err::<Seq<Token>, CalcError>(CalcError::InvalidSyntax(')')),
{
    lemma_shunt_unmatched(ts, 0, Seq::empty(), Seq::empty(), j);
}

/// The printed form of a token sequence: the text of each token, followed by
/// a space.
pub open spec fn render(ts: Seq<Token>) -> Seq<char>
    decreases ts.len(),
{
    if ts.len() == 0 {
        Seq::empty()
    } else {
        render(ts.drop_last()) + ts.last().text() + seq![' ']
    }
}

/// The token before position `k`, or the start marker at the front.
pub open spec fn before(ts: Seq<Token>, k: int) -> Token {
    if k <= 0 {
        Token::NullOps
    } else {
        ts[k - 1]
    }
}

/// Whether `t` may follow `prev` in a tokenizer's output: a literal is not
/// negative, a `+` or `-` is a sign exactly where an operand is expected, and
/// `*` and `/` neither open the sequence nor follow an operator.
pub open spec fn fits(t: Token, prev: Token) -> bool {
    match t {
        Token::Literal(v) => v >= 0,
        Token::Sum(a) => a == (if expects_operand(prev) { 1u8 } else { 2u8 }),
        Token::Sub(a) => a == (if expects_operand(prev) { 1u8 } else { 2u8 }),
        Token::Mul | Token::Div => !refuses_binary(prev),
        Token::ParenOpen | Token::ParenClose => true,
        Token::NullOps => false,
    }
}

/// Whether every token of `ts` fits the one before it.
pub open spec fn well_formed_tokens(ts: Seq<Token>) -> bool {
    forall|k: int| 0 <= k < ts.len() ==> #[trigger] fits(ts[k], before(ts, k))
}

proof fn lemma_push_well_formed(ts: Seq<Token>, t: Token)
    requires
        well_formed_tokens(ts),
        fits(t, before(ts, ts.len() as int)),
    ensures
        well_formed_tokens(ts.push(t)),
{
    let ts2 = ts.push(t);
    assert forall|k: int| 0 <= k < ts2.len() implies #[trigger] fits(ts2[k], before(ts2, k)) by {
        if k < ts.len() {
            assert(ts2[k] == ts[k]);
            assert(before(ts2, k) == before(ts, k));
        }
    }
}

proof fn lemma_lex_well_formed(s: Seq<char>, i: nat, last: Token, acc: Seq<Token>, num: Option<int>)
    requires
        well_formed_tokens(acc),
        last == before(acc, acc.len() as int),
        num is Some ==> 0 <= num->0 <= i64::MAX,
        lex_from(s, i, last, acc, num) is Ok,
    ensures
        well_formed_tokens(lex_from(s, i, last, acc, num)->Ok_0),
    decreases s.len() - i,
{
    if let Some(v) = num {
        lemma_push_well_formed(acc, Token::Literal(v as i64));
    }
    let last2 = last_after_close(last, num);
    let acc2 = close_literal(acc, num);
    assert(last2 == before(acc2, acc2.len() as int));
    if i < s.len() {
        let c = s[i as int];
        if is_digit(c) {
            let v = match num {
                Some(n) => n * 10 + digit_value(c),
                None => digit_value(c) as int,
            };
            lemma_lex_well_formed(s, i + 1, last, acc, Some(v));
        } else if c == ' ' {
            lemma_lex_well_formed(s, i + 1, last2, acc2, None);
        } else {
            let t = symbol_token(c, last2)->Ok_0;
            lemma_push_well_formed(acc2, t);
            assert(t == before(acc2.push(t), acc2.push(t).len() as int));
            lemma_lex_well_formed(s, i + 1, t, acc2.push(t), None);
        }
    }
}

proof fn lemma_digit_char(d: nat)
    requires
        d < 10,
    ensures
        is_digit(digit_char(d)),
        digit_value(digit_char(d)) == d,
{
}

/// The value of a run of decimal digits.
pub open spec fn digits_value(ds: Seq<char>) -> nat
    decreases ds.len(),
{
    if ds.len() == 0 {
        0
    } else {
        digits_value(ds.drop_last()) * 10 + digit_value(ds.last())
    }
}

/// Whether every character of `ds` is a decimal digit.
pub open spec fn all_digits(ds: Seq<char>) -> bool {
    forall|j: int| 0 <= j < ds.len() ==> is_digit(#[trigger] ds[j])
}

/// Scanning a run of digits whose value fits in `i64` leaves that value as
/// the pending literal.
pub(crate) proof fn lemma_scan_digits(s: Seq<char>, i: nat, ds: Seq<char>, last: Token, acc: Seq<Token>)
    requires
        ds.len() > 0,
        all_digits(ds),
        digits_value(ds) <= i64::MAX,
        i + ds.len() <= s.len(),
        s.subrange(i as int, (i + ds.len()) as int) == ds,
    ensures
        lex_from(s, i, last, acc, None) == lex_from(s, i + ds.len(), last, acc, Some(digits_value(ds) as int)),
    decreases ds.len(),
{
    let m = ds.len() as int;
    let ii = i as int;
    let h = ds.drop_last();
    assert(s[ii + m - 1] == s.subrange(ii, ii + m)[m - 1]);
    assert(is_digit(ds[m - 1]));
    if m == 1 {
        assert(digits_value(h) == 0);
    } else {
        assert(s.subrange(ii, ii + m - 1) =~= h) by {
            assert forall|j: int| 0 <= j < m - 1 implies s.subrange(ii, ii + m - 1)[j] == h[j] by {
                assert(s.subrange(ii, ii + m)[j] == s[ii + j]);
            }
        }
        assert forall|j: int| 0 <= j < h.len() implies is_digit(#[trigger] h[j]) by {
            assert(is_digit(ds[j]));
        }
        lemma_scan_digits(s, i, h, last, acc);
    }
}

/// The decimal digits of `v` are a run of digits whose value is `v`.
proof fn lemma_decimal_digits(v: nat)
    ensures
        decimal(v).len() > 0,
        all_digits(decimal(v)),
        digits_value(decimal(v)) == v,
    decreases v,
{
    let d = decimal(v);
    lemma_digit_char(v % 10);
    if v >= 10 {
        lemma_decimal_digits(v / 10);
        assert(d.drop_last() =~= decimal(v / 10));
        assert forall|j: int| 0 <= j < d.len() implies is_digit(#[trigger] d[j]) by {
            if j < d.len() - 1 {
                assert(d[j] == decimal(v / 10)[j]);
            }
        }
        assert(d.last() == digit_char(v % 10));
        assert(digits_value(d) == digits_value(decimal(v / 10)) * 10 + v % 10);
        assert((v / 10) * 10 + v % 10 == v);
    } else {
        assert(d.drop_last() =~= Seq::<char>::empty());
        assert(digits_value(d.drop_last()) == 0);
        assert(d.last() == digit_char(v));
    }
}

proof fn lemma_render_prefix(ts: Seq<Token>, k: int)
    requires
        0 <= k <= ts.len(),
    ensures
        render(ts.subrange(0, k)).len() <= render(ts).len(),
        render(ts).subrange(0, render(ts.subrange(0, k)).len() as int) == render(ts.subrange(0, k)),
    decreases ts.len(),
{
    if k == ts.len() {
        assert(ts.subrange(0, k) =~= ts);
        assert(render(ts).subrange(0, render(ts).len() as int) =~= render(ts));
    } else {
        let d = ts.drop_last();
        lemma_render_prefix(d, k);
        assert(d.subrange(0, k) =~= ts.subrange(0, k));
        let l = render(ts.subrange(0, k)).len() as int;
        assert(render(ts).subrange(0, l) =~= render(d).subrange(0, l));
    }
}

/// Lexing the printed form of a well-formed sequence from the place where
/// its `k`-th token is printed gives back the whole sequence.
proof fn lemma_relex(ts: Seq<Token>, k: nat)
    requires
        well_formed_tokens(ts),
        k <= ts.len(),
    ensures
        lex_from(render(ts), render(ts.subrange(0, k as int)).len(), before(ts, k as int), ts.subrange(0, k as int), None)
            == Ok::<Seq<Token>, CalcError>(ts),
    decreases ts.len() - k,
{
    let r = render(ts);
    lemma_render_prefix(ts, k as int);
    if k == ts.len() {
        assert(ts.subrange(0, k as int) =~= ts);
    } else {
        let t = ts[k as int];
        let pre = ts.subrange(0, k as int);
        let ki = k as int;
        let pre1 = ts.subrange(0, ki + 1);
        lemma_render_prefix(ts, ki + 1);
        assert(pre1.drop_last() =~= pre);
        assert(pre1.last() == t);
        assert(pre.push(t) =~= pre1);
        let p = render(pre).len() as int;
        let n = t.text().len() as int;
        let l1 = render(pre1).len() as int;
        assert(render(pre1) == render(pre) + t.text() + seq![' ']);
        assert(l1 == p + n + 1);
        assert forall|j: int| 0 <= j < n implies r[p + j] == #[trigger] t.text()[j] by {
            assert(r[p + j] == r.subrange(0, l1)[p + j]);
        }
        assert(r[p + n] == r.subrange(0, l1)[p + n]);
        assert(r[p + n] == ' ');
        assert(fits(t, before(ts, k as int)));
        assert(before(ts, ki + 1) == t);
        lemma_relex(ts, k + 1);
        if let Token::Literal(v) = t {
            assert(r.subrange(p, p + n) =~= decimal(v as nat));
            let prev = before(ts, k as int);
            lemma_decimal_digits(v as nat);
            lemma_scan_digits(r, p as nat, decimal(v as nat), prev, pre);
            assert((v as int) as i64 == v);
            assert(!is_digit(r[p + n]));
            assert(lex_from(r, (p + n) as nat, prev, pre, Some(v as int))
                == lex_from(r, (p + n + 1) as nat, t, pre1, None));
        } else {
            let prev = before(ts, k as int);
            assert(r[p] == t.text()[0]);
            assert(n == 1);
            assert(symbol_token(r[p], prev) == Ok::<Token, CalcError>(t));
            assert(lex_from(r, p as nat, prev, pre, None) == lex_from(r, (p + 1) as nat, t, pre1, None));
            assert(lex_from(r, (p + 1) as nat, t, pre1, None) == lex_from(r, (p + 2) as nat, t, pre1, None));
        }
    }
}

/// Printing a token sequence that came from the tokenizer and tokenizing the
/// printed text gives the same sequence: the same arities, the same literal
/// values.
pub proof fn lemma_round_trip(s: Seq<char>)
    requires
        tokenize(s) is Ok,
    ensures
        tokenize(render(tokenize(s)->Ok_0)) == tokenize(s),
{
    let e = Seq::<Token>::empty();
    assert(well_formed_tokens(e));
    lemma_lex_well_formed(s, 0, Token::NullOps, e, None);
    let ts = tokenize(s)->Ok_0;
    lemma_relex(ts, 0);
    assert(ts.subrange(0, 0) =~= e);
}

fn render_tokens(toks: &Vec<Token>) -> (r: String)
    ensures
        r@ == render(toks@),
{
    let mut out = String::new();
    let mut i: usize = 0;
    while i < toks.len()
        invariant
            i <= toks@.len(),
            out@ == render(toks@.subrange(0, i as int)),
        decreases toks@.len() - i,
    {
        let piece = toks[i].to_string();
        out.append(piece.as_str());
        out.append(" ");
        proof {
            reveal_strlit(" ");
            assert(toks@.subrange(0, i + 1).drop_last() =~= toks@.subrange(0, i as int));
        }
        i = i + 1;
    }
    proof {
        assert(toks@.subrange(0, i as int) =~= toks@);
    }
    out
}

impl TokenExp {
    /// The printed form of the tokens, which tokenizes back to them.
    pub fn to_text(&self) -> (r: String)
        ensures
            r@ == render(self@),
    {
        render_tokens(&self.tokens)
    }
}

} // verus!
