//! Integer arithmetic expressions: tokenizing, conversion to postfix order,
//! tree building and evaluation, each stage with a checked contract.

pub mod error;
pub mod lexer;
pub mod parser;
pub mod token;

use vstd::prelude::*;

use crate::error::CalcError;
use crate::lexer::{
    all_digits, digits_value, is_digit, lemma_scan_digits, lex_from, pop_to_open, shunt, to_postfix, tokenize,
    TokenExp,
};
use crate::parser::{build, tree_of, value, ExpressionTree, TreeNode};
use crate::token::Token;

verus! {

/// The tree of the text `s`: tokens, then postfix order, then the tree.
pub open spec fn parse(s: Seq<char>) -> Result<TreeNode, CalcError> {
    match tokenize(s) {
        Err(e) => Err(e),
        Ok(ts) => match to_postfix(ts) {
            Err(e) => Err(e),
            Ok(ps) => tree_of(ps),
        },
    }
}

/// The value of the text `s`, or the first failure met on the way.
pub open spec fn calc(s: Seq<char>) -> Result<i64, CalcError> {
    match parse(s) {
        Err(e) => Err(e),
        Ok(n) => value(n),
    }
}

/// Evaluates an expression written as text, reducing its tree step by step.
pub fn evaluate(text: &str) -> (r: Result<i64, CalcError>)
    ensures
        r == calc(text@),
{
    let tokens = TokenExp::from_str(text)?;
    let mut tree = ExpressionTree::from_exp(&tokens)?;
    tree.eval()
}

proof fn lemma_lex_paren_neg(d: Seq<char>)
    requires
        d.len() > 0,
        all_digits(d),
        digits_value(d) <= i64::MAX,
    ensures
        tokenize(seq!['(', '-'] + d + seq![')']) == Ok::<Seq<Token>, CalcError>(
            seq![Token::ParenOpen, Token::Sub(1), Token::Literal(digits_value(d) as i64), Token::ParenClose],
        ),
{
    let m = d.len() as int;
    let s = seq!['(', '-'] + d + seq![')'];
    let (neg, open, lv, close) = (Token::Sub(1), Token::ParenOpen, Token::Literal(digits_value(d) as i64), Token::ParenClose);
    let e = Seq::<Token>::empty();
    assert(s.subrange(2, 2 + m) =~= d);
    assert(e.push(open) =~= seq![open]);
    assert(seq![open].push(neg) =~= seq![open, neg]);
    assert(lex_from(s, 0, Token::NullOps, e, None) == lex_from(s, 1, open, seq![open], None));
    assert(lex_from(s, 1, open, seq![open], None) == lex_from(s, 2, neg, seq![open, neg], None));
    lemma_scan_digits(s, 2, d, neg, seq![open, neg]);
    assert(s[2 + m] == ')');
    assert(seq![open, neg].push(lv) =~= seq![open, neg, lv]);
    assert(seq![open, neg, lv].push(close) =~= seq![open, neg, lv, close]);
    assert(lex_from(s, (2 + m) as nat, neg, seq![open, neg], Some(digits_value(d) as int))
        == lex_from(s, (3 + m) as nat, close, seq![open, neg, lv, close], None));
}

proof fn lemma_postfix_paren_neg(lv: Token)
    requires
        lv is Literal,
    ensures
        to_postfix(seq![Token::ParenOpen, Token::Sub(1), lv, Token::ParenClose])
            == Ok::<Seq<Token>, CalcError>(seq![lv, Token::Sub(1)]),
{
    reveal_with_fuel(shunt, 5);
    reveal_with_fuel(pop_to_open, 3);
    let (neg, open) = (Token::Sub(1), Token::ParenOpen);
    let e = Seq::<Token>::empty();
    assert(e.push(lv) =~= seq![lv]);
    assert(e.push(open) =~= seq![open]);
    assert(seq![open].drop_last() =~= e);
    assert(seq![lv].push(neg) =~= seq![lv, neg]);
    assert(seq![open].push(neg) =~= seq![open, neg]);
    assert(seq![open, neg].drop_last() =~= seq![open]);
}

proof fn lemma_value_forms(v: nat)
    requires
        v <= i64::MAX,
    ensures
        tree_of(seq![Token::Literal(v as i64)]) is Ok,
        value(tree_of(seq![Token::Literal(v as i64)])->Ok_0) == Ok::<i64, CalcError>(v as i64),
        tree_of(seq![Token::Literal(v as i64), Token::Sub(1)]) is Ok,
        value(tree_of(seq![Token::Literal(v as i64), Token::Sub(1)])->Ok_0) == Ok::<i64, CalcError>((-v) as i64),
{
    reveal_with_fuel(build, 3);
    reveal_with_fuel(value, 2);
}

/// `k` opening parentheses.
pub open spec fn opens(k: nat) -> Seq<char> {
    Seq::new(k, |_j: int| '(')
}

/// `k` closing parentheses.
pub open spec fn closes(k: nat) -> Seq<char> {
    Seq::new(k, |_j: int| ')')
}

pub open spec fn open_tokens(k: nat) -> Seq<Token> {
    Seq::new(k, |_j: int| Token::ParenOpen)
}

pub open spec fn close_tokens(k: nat) -> Seq<Token> {
    Seq::new(k, |_j: int| Token::ParenClose)
}

proof fn lemma_lex_opens(s: Seq<char>, i: nat, k: nat, last: Token, acc: Seq<Token>)
    requires
        i + k <= s.len(),
        forall|j: int| i <= j < i + k ==> s[j] == '(',
    ensures
        lex_from(s, i, last, acc, None) == lex_from(
            s,
            i + k,
            if k == 0 { last } else { Token::ParenOpen },
            acc + open_tokens(k),
            None,
        ),
    decreases k,
{
    if k == 0 {
        assert(acc + open_tokens(0) =~= acc);
    } else {
        assert(s[i as int] == '(');
        let acc1 = acc.push(Token::ParenOpen);
        assert(lex_from(s, i, last, acc, None) == lex_from(s, i + 1, Token::ParenOpen, acc1, None));
        lemma_lex_opens(s, i + 1, (k - 1) as nat, Token::ParenOpen, acc1);
        assert(acc1 + open_tokens((k - 1) as nat) =~= acc + open_tokens(k));
    }
}

proof fn lemma_lex_closes(s: Seq<char>, j: nat, c: nat, last: Token, acc: Seq<Token>)
    requires
        s.len() == j + c,
        forall|x: int| j <= x < j + c ==> s[x] == ')',
    ensures
        lex_from(s, j, last, acc, None) == Ok::<Seq<Token>, CalcError>(acc + close_tokens(c)),
    decreases c,
{
    if c == 0 {
        assert(acc + close_tokens(0) =~= acc);
    } else {
        assert(s[j as int] == ')');
        let acc1 = acc.push(Token::ParenClose);
        assert(lex_from(s, j, last, acc, None) == lex_from(s, j + 1, Token::ParenClose, acc1, None));
        lemma_lex_closes(s, j + 1, (c - 1) as nat, Token::ParenClose, acc1);
        assert(acc1 + close_tokens((c - 1) as nat) =~= acc + close_tokens(c));
    }
}

/// Lexing `pre` followed by `k` opening parentheses, the digits `d` and `k`
/// closing ones, where `pre` leaves `last` and `acc` behind.
proof fn lemma_lex_nested(s: Seq<char>, p: nat, d: Seq<char>, k: nat, last: Token, acc: Seq<Token>)
    requires
        d.len() > 0,
        all_digits(d),
        digits_value(d) <= i64::MAX,
        s.len() == p + k + d.len() + k,
        forall|j: int| p <= j < p + k ==> s[j] == '(',
        s.subrange((p + k) as int, (p + k + d.len()) as int) == d,
        forall|j: int| p + k + d.len() <= j < s.len() ==> s[j] == ')',
    ensures
        lex_from(s, p, last, acc, None) == Ok::<Seq<Token>, CalcError>(
            acc + open_tokens(k) + seq![Token::Literal(digits_value(d) as i64)] + close_tokens(k),
        ),
{
    let lv = Token::Literal(digits_value(d) as i64);
    let q = p + k + d.len();
    let last1 = if k == 0 { last } else { Token::ParenOpen };
    let acc1 = acc + open_tokens(k);
    lemma_lex_opens(s, p, k, last, acc);
    lemma_scan_digits(s, p + k, d, last1, acc1);
    if k == 0 {
        assert(acc1.push(lv) =~= acc + open_tokens(k) + seq![lv] + close_tokens(k));
    } else {
        assert(s[q as int] == ')');
        assert(!is_digit(s[q as int]));
        let acc2 = acc1.push(lv).push(Token::ParenClose);
        assert(lex_from(s, q as nat, last1, acc1, Some(digits_value(d) as int))
            == lex_from(s, (q + 1) as nat, Token::ParenClose, acc2, None));
        lemma_lex_closes(s, (q + 1) as nat, (k - 1) as nat, Token::ParenClose, acc2);
        assert(acc2 + close_tokens((k - 1) as nat) =~= acc + open_tokens(k) + seq![lv] + close_tokens(k));
    }
}

proof fn lemma_shunt_opens(ts: Seq<Token>, i: nat, k: nat, stack: Seq<Token>, out: Seq<Token>)
    requires
        i + k <= ts.len(),
        forall|j: int| i <= j < i + k ==> ts[j] == Token::ParenOpen,
    ensures
        shunt(ts, i, stack, out) == shunt(ts, i + k, stack + open_tokens(k), out),
    decreases k,
{
    if k == 0 {
        assert(stack + open_tokens(0) =~= stack);
    } else {
        assert(ts[i as int] == Token::ParenOpen);
        lemma_shunt_opens(ts, i + 1, (k - 1) as nat, stack.push(Token::ParenOpen), out);
        assert(stack.push(Token::ParenOpen) + open_tokens((k - 1) as nat) =~= stack + open_tokens(k));
    }
}

proof fn lemma_shunt_closes(ts: Seq<Token>, i: nat, c: nat, base: Seq<Token>, out: Seq<Token>)
    requires
        ts.len() == i + c,
        forall|j: int| i <= j < i + c ==> ts[j] == Token::ParenClose,
    ensures
        shunt(ts, i, base + open_tokens(c), out) == shunt(ts, ts.len(), base, out),
    decreases c,
{
    if c == 0 {
        assert(base + open_tokens(0) =~= base);
    } else {
        let st = base + open_tokens(c);
        assert(ts[i as int] == Token::ParenClose);
        assert(st.last() == Token::ParenOpen);
        assert(pop_to_open(st, out) == (st, out));
        assert(st.drop_last() =~= base + open_tokens((c - 1) as nat));
        lemma_shunt_closes(ts, i + 1, (c - 1) as nat, base, out);
    }
}

/// The postfix order of `pre`, `k` opening parentheses, a literal and `k`
/// closing ones, where `pre` is nothing or a sign `-`.
proof fn lemma_postfix_nested(lv: Token, k: nat, signed: bool)
    requires
        lv is Literal,
    ensures
        ({
            let pre = if signed { seq![Token::Sub(1)] } else { Seq::<Token>::empty() };
            let post = if signed { seq![lv, Token::Sub(1)] } else { seq![lv] };
            to_postfix(pre + open_tokens(k) + seq![lv] + close_tokens(k)) == Ok::<Seq<Token>, CalcError>(post)
        }),
{
    let neg = Token::Sub(1);
    let e = Seq::<Token>::empty();
    let pre = if signed { seq![neg] } else { e };
    let ts = pre + open_tokens(k) + seq![lv] + close_tokens(k);
    let p = pre.len();
    if signed {
        assert(ts[0] == neg);
        assert(e.push(neg) =~= seq![neg]);
        assert(shunt(ts, 0, e, e) == shunt(ts, 1, pre, e));
    } else {
        assert(shunt(ts, 0, e, e) == shunt(ts, 0, pre, e));
    }
    assert forall|j: int| p <= j < p + k implies ts[j] == Token::ParenOpen by {
        assert(ts[j] == open_tokens(k)[j - p]);
    }
    lemma_shunt_opens(ts, p, k, pre, e);
    assert(ts[(p + k) as int] == lv);
    assert(e.push(lv) =~= seq![lv]);
    assert(shunt(ts, p + k, pre + open_tokens(k), e) == shunt(ts, p + k + 1, pre + open_tokens(k), seq![lv]));
    assert forall|j: int| p + k + 1 <= j < ts.len() implies ts[j] == Token::ParenClose by {
        assert(ts[j] == close_tokens(k)[j - (p + k + 1)]);
    }
    lemma_shunt_closes(ts, p + k + 1, k, pre, seq![lv]);
    if signed {
        assert(seq![neg].drop_last() =~= e);
        assert(seq![neg].last() == neg);
        assert(pop_to_open(seq![neg], seq![lv]) == pop_to_open(e, seq![lv].push(neg)));
        assert(seq![lv].push(neg) =~= seq![lv, neg]);
    }
}

/// A literal inside any number of matching parentheses, possibly after a
/// sign `-`, has the value of that literal, negated after the sign; so has a
/// signed literal in parentheses.
pub proof fn lemma_single_literal(d: Seq<char>, k: nat)
    requires
        d.len() > 0,
        all_digits(d),
        digits_value(d) <= i64::MAX,
    ensures
        calc(opens(k) + d + closes(k)) == Ok::<i64, CalcError>(digits_value(d) as i64),
        calc(seq!['-'] + opens(k) + d + closes(k)) == Ok::<i64, CalcError>((-digits_value(d)) as i64),
        calc(seq!['(', '-'] + d + seq![')']) == Ok::<i64, CalcError>((-digits_value(d)) as i64),
{
    lemma_lex_paren_neg(d);
    lemma_postfix_paren_neg(Token::Literal(digits_value(d) as i64));
    let lv = Token::Literal(digits_value(d) as i64);
    let m = d.len() as int;
    let e = Seq::<Token>::empty();
    let neg = Token::Sub(1);
    let s1 = opens(k) + d + closes(k);
    assert(s1.subrange(k as int, k + m) =~= d);
    lemma_lex_nested(s1, 0, d, k, Token::NullOps, e);
    assert(e + open_tokens(k) =~= open_tokens(k));
    lemma_postfix_nested(lv, k, false);
    assert(e + open_tokens(k) + seq![lv] + close_tokens(k) =~= open_tokens(k) + seq![lv] + close_tokens(k));

    let s2 = seq!['-'] + opens(k) + d + closes(k);
    assert(s2.subrange(1 + k as int, 1 + k + m) =~= d);
    assert(s2[0] == '-');
    assert(e.push(neg) =~= seq![neg]);
    assert(lex_from(s2, 0, Token::NullOps, e, None) == lex_from(s2, 1, neg, seq![neg], None));
    lemma_lex_nested(s2, 1, d, k, neg, seq![neg]);
    lemma_postfix_nested(lv, k, true);
    lemma_value_forms(digits_value(d));
}

} // verus!
