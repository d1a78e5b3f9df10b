use vstd::prelude::*;

use crate::error::CalcError;
use crate::lexer::{to_postfix, RPNExp, TokenExp};
use crate::token::Token;
use vstd::string::StringExecFns;

verus! {

/// A node of an expression tree. A literal has no children, a sign has a
/// right child only, and a binary operator has both. Each node owns its
/// children.
pub struct TreeNode {
    pub token: Token,
    pub left: Option<Box<TreeNode>>,
    pub right: Option<Box<TreeNode>>,
}

/// An expression tree, reduced in place by evaluation.
pub struct ExpressionTree {
    pub root: TreeNode,
}

/// A node with no children.
pub open spec fn leaf(t: Token) -> TreeNode {
    TreeNode { token: t, left: None, right: None }
}

/// An optional child, boxed as a node holds it.
pub open spec fn boxed(o: Option<TreeNode>) -> Option<Box<TreeNode>> {
    match o {
        Some(n) => Some(Box::new(n)),
        None => None,
    }
}

/// The tree whose last token lies just before position `end` of the postfix
/// sequence `toks`, built from the end backwards, and the number of tokens
/// that lie before it. An operator takes its right operand first, then its
/// left one; an operator with no operand at all is refused.
pub open spec fn build(toks: Seq<Token>, end: nat) -> Result<(Option<TreeNode>, nat), CalcError>
    decreases end,
{
    if end == 0 || end > toks.len() {
        Ok((None, end))
    } else {
        let t = toks[end - 1];
        if t is Literal {
            Ok((Some(leaf(t)), (end - 1) as nat))
        } else {
            match build(toks, (end - 1) as nat) {
                Err(e) => Err(e),
                Ok((r, re)) => {
                    if t.spec_is_unary() {
                        Ok((Some(TreeNode { token: t, left: None, right: boxed(r) }), re))
                    } else {
                        let re2: nat = if re < end { re } else { (end - 1) as nat };
                        match build(toks, re2) {
                            Err(e) => Err(e),
                            Ok((l, le)) => {
                                if l is None && r is None {
                                    Err(CalcError::MalformedEquation)
                                } else {
                                    Ok((Some(TreeNode { token: t, left: boxed(l), right: boxed(r) }), le))
                                }
                            },
                        }
                    }
                },
            }
        }
    }
}

/// The tree of a postfix sequence: the one that ends at its last token,
/// which must take every token; tokens left before it are refused.
pub open spec fn tree_of(toks: Seq<Token>) -> Result<TreeNode, CalcError> {
    if toks.len() == 0 {
        Err(CalcError::EmptyExpression)
    } else {
        match build(toks, toks.len()) {
            Err(e) => Err(e),
            Ok((Some(n), rest)) => if rest == 0 {
                Ok(n)
            } else {
                Err(CalcError::MalformedEquation)
            },
            Ok((None, _)) => Err(CalcError::EmptyExpression),
        }
    }
}

/// `v` as an `i64`, or an overflow where it does not fit.
pub open spec fn in_range(v: int) -> Result<i64, CalcError> {
    if i64::MIN <= v && v <= i64::MAX {
        Ok(v as i64)
    } else {
        Err(CalcError::Overflow)
    }
}

/// Integer division that rounds toward zero.
pub open spec fn trunc_div(a: int, b: int) -> int {
    let q = (if a < 0 { -a } else { a }) / (if b < 0 { -b } else { b });
    if (a < 0) != (b < 0) { -q } else { q }
}

/// A sign applied to `v`: `+` keeps it, `-` negates it.
pub open spec fn apply_unary(t: Token, v: i64) -> Result<i64, CalcError> {
    if t == Token::Sum(1) {
        Ok(v)
    } else {
        in_range(-v)
    }
}

/// A binary operator applied to `a` and `b`; a token that is none fails.
pub open spec fn apply_binary(t: Token, a: i64, b: i64) -> Result<i64, CalcError> {
    if t == Token::Sum(2) {
        in_range(a + b)
    } else if t == Token::Sub(2) {
        in_range(a - b)
    } else if t == Token::Mul {
        in_range(a * b)
    } else if t == Token::Div {
        if b == 0 {
            Err(CalcError::DivisionByZero)
        } else {
            in_range(trunc_div(a as int, b as int))
        }
    } else {
        Err(CalcError::MalformedEquation)
    }
}

/// The value of a tree, evaluated recursively: a sign reads its right
/// child; any other operator needs both children and evaluates the left one
/// first. A value outside `i64` is an overflow.
pub open spec fn value(n: TreeNode) -> Result<i64, CalcError>
    decreases n,
{
    match n.token {
        Token::Literal(v) => Ok(v),
        Token::NullOps => Ok(0),
        _ => {
            if n.token.spec_is_unary() {
                match n.right {
                    None => Err(CalcError::MissingOperand),
                    Some(r) => match value(*r) {
                        Err(e) => Err(e),
                        Ok(v) => apply_unary(n.token, v),
                    },
                }
            } else {
                match (n.left, n.right) {
                    (Some(l), Some(r)) => match value(*l) {
                        Err(e) => Err(e),
                        Ok(a) => match value(*r) {
                            Err(e) => Err(e),
                            Ok(b) => apply_binary(n.token, a, b),
                        },
                    },
                    _ => Err(CalcError::MissingOperand),
                }
            }
        }
    }
}

/// A node collapsed to the literal of its value.
pub open spec fn collapse(n: TreeNode) -> Result<TreeNode, CalcError> {
    match value(n) {
        Ok(v) => Ok(leaf(Token::Literal(v))),
        Err(e) => Err(e),
    }
}

/// One reduction: the innermost node whose operands are literals, looking
/// into the left operand before the right one, collapses to a literal.
pub open spec fn step(n: TreeNode) -> Result<TreeNode, CalcError>
    decreases n,
{
    if n.token is Literal {
        Ok(n)
    } else if n.token == Token::NullOps {
        collapse(n)
    } else if n.token.spec_is_unary() {
        match n.right {
            None => Err(CalcError::MissingOperand),
            Some(r) => if r.token is Literal {
                collapse(n)
            } else {
                match step(*r) {
                    Err(e) => Err(e),
                    Ok(r2) => Ok(TreeNode { right: Some(Box::new(r2)), ..n }),
                }
            },
        }
    } else {
        match (n.left, n.right) {
            (Some(l), Some(r)) => if l.token is Literal && r.token is Literal {
                collapse(n)
            } else if !(l.token is Literal) {
                match step(*l) {
                    Err(e) => Err(e),
                    Ok(l2) => Ok(TreeNode { left: Some(Box::new(l2)), ..n }),
                }
            } else {
                match step(*r) {
                    Err(e) => Err(e),
                    Ok(r2) => Ok(TreeNode { right: Some(Box::new(r2)), ..n }),
                }
            },
            _ => Err(CalcError::MissingOperand),
        }
    }
}


/// Builds the tree that ends just before position `end` of a postfix
/// sequence, and returns it with the number of tokens left before it.
fn tree_build(toks: &Vec<Token>, end: usize) -> (r: Result<(Option<Box<TreeNode>>, usize), CalcError>)
    requires
        end <= toks@.len(),
    ensures
        match build(toks@, end as nat) {
            Ok((n, e)) => r is Ok && r->Ok_0.0 == boxed(n) && r->Ok_0.1 == e && e <= end,
            Err(e) => r == Err::<(Option<Box<TreeNode>>, usize), CalcError>(e),
        },
    decreases end,
{
    if end == 0 {
        return Ok((None, 0));
    }
    let t = toks[end - 1];
    if t.is_literal() {
        return Ok((Some(Box::new(TreeNode { token: t, left: None, right: None })), end - 1));
    }
    let (right, re) = match tree_build(toks, end - 1) {
        Ok(p) => p,
        Err(e) => {
            return Err(e);
        },
    };
    if t == Token::Sum(1) || t == Token::Sub(1) {
        return Ok((Some(Box::new(TreeNode { token: t, left: None, right })), re));
    }
    let (left, le) = match tree_build(toks, re) {
        Ok(p) => p,
        Err(e) => {
            return Err(e);
        },
    };
    if left.is_none() && right.is_none() {
        return Err(CalcError::MalformedEquation);
    }
    Ok((Some(Box::new(TreeNode { token: t, left, right })), le))
}

fn unary_value(t: Token, v: i64) -> (r: Result<i64, CalcError>)
    ensures
        r == apply_unary(t, v),
{
    if t == Token::Sum(1) {
        Ok(v)
    } else if v == i64::MIN {
        Err(CalcError::Overflow)
    } else {
        Ok(-v)
    }
}

fn binary_value(t: Token, a: i64, b: i64) -> (r: Result<i64, CalcError>)
    ensures
        r == apply_binary(t, a, b),
{
    let (x, y) = (a as i128, b as i128);
    let v: i128 = if t == Token::Sum(2) {
        x + y
    } else if t == Token::Sub(2) {
        x - y
    } else if t == Token::Mul {
        assert(-0x8000_0000_0000_0000 * 0x8000_0000_0000_0000 <= x * y <= 0x8000_0000_0000_0000
            * 0x8000_0000_0000_0000) by (nonlinear_arith)
            requires
                -0x8000_0000_0000_0000 <= x < 0x8000_0000_0000_0000,
                -0x8000_0000_0000_0000 <= y < 0x8000_0000_0000_0000,
        ;
        x * y
    } else if t == Token::Div {
        if b == 0 {
            return Err(CalcError::DivisionByZero);
        }
        let ux: u128 = if x < 0 { (0 - x) as u128 } else { x as u128 };
        let uy: u128 = if y < 0 { (0 - y) as u128 } else { y as u128 };
        let q: u128 = ux / uy;
        assert(q <= ux) by (nonlinear_arith)
            requires
                q == ux / uy,
                uy > 0,
        ;
        if (x < 0) != (y < 0) {
            0 - q as i128
        } else {
            q as i128
        }
    } else {
        return Err(CalcError::MalformedEquation);
    };
    if v < i64::MIN as i128 || v > i64::MAX as i128 {
        Err(CalcError::Overflow)
    } else {
        Ok(v as i64)
    }
}

impl TreeNode {
    /// The tree of an infix sequence, through its postfix order.
    pub fn from_exp(exp: &TokenExp) -> (r: Result<TreeNode, CalcError>)
        ensures
            r == (match to_postfix(exp@) {
                Ok(ts) => tree_of(ts),
                Err(e) => Err(e),
            }),
    {
        let tokens = RPNExp::from_exp(exp)?;
        Self::from_rpn_exp(&tokens)
    }

    /// The tree of a postfix sequence, built from its last token backwards.
    pub fn from_rpn_exp(exp: &RPNExp) -> (r: Result<TreeNode, CalcError>)
        ensures
            r == tree_of(exp@),
    {
        if exp.tokens.len() == 0 {
            return Err(CalcError::EmptyExpression);
        }
        match tree_build(&exp.tokens, exp.tokens.len()) {
            Ok((Some(n), rest)) => {
                if rest == 0 {
                    Ok(*n)
                } else {
                    Err(CalcError::MalformedEquation)
                }
            },
            Ok((None, _)) => Err(CalcError::EmptyExpression),
            Err(e) => Err(e),
        }
    }

    /// The value of the tree, evaluated recursively.
    pub fn eval(&self) -> (r: Result<i64, CalcError>)
        ensures
            r == value(*self),
        decreases self,
    {
        match self.token {
            Token::Literal(v) => {
                return Ok(v);
            },
            Token::NullOps => {
                return Ok(0);
            },
            _ => {},
        }
        if self.token == Token::Sum(1) || self.token == Token::Sub(1) {
            match &self.right {
                None => Err(CalcError::MissingOperand),
                Some(r) => {
                    let v = r.eval()?;
                    unary_value(self.token, v)
                },
            }
        } else {
            match (&self.left, &self.right) {
                (Some(l), Some(r)) => {
                    let a = l.eval()?;
                    let b = r.eval()?;
                    binary_value(self.token, a, b)
                },
                _ => Err(CalcError::MissingOperand),
            }
        }
    }
}


impl TreeNode {
    /// Performs one reduction in place: see `step`. On failure the tree is
    /// left as it was.
    pub fn eval_step(&mut self) -> (r: Result<(), CalcError>)
        ensures
            match step(*old(self)) {
                Ok(m) => r is Ok && *final(self) == m,
                Err(e) => r == Err::<(), CalcError>(e) && *final(self) == *old(self),
            },
        decreases *old(self),
    {
        if self.token.is_literal() {
            return Ok(());
        }
        let unary = self.token == Token::Sum(1) || self.token == Token::Sub(1);
        let ready = if self.token == Token::NullOps {
            true
        } else if unary {
            match &self.right {
                None => {
                    return Err(CalcError::MissingOperand);
                },
                Some(r) => r.token.is_literal(),
            }
        } else {
            match (&self.left, &self.right) {
                (Some(l), Some(r)) => l.token.is_literal() && r.token.is_literal(),
                _ => {
                    return Err(CalcError::MissingOperand);
                },
            }
        };
        if ready {
            let v = self.eval()?;
            self.token = Token::Literal(v);
            self.left = None;
            self.right = None;
            return Ok(());
        }
        let go_left = !unary && match &self.left {
            Some(l) => !l.token.is_literal(),
            None => false,
        };
        if go_left {
            match &mut self.left {
                Some(l) => l.eval_step(),
                None => Ok(()),
            }
        } else {
            match &mut self.right {
                Some(r) => r.eval_step(),
                None => Ok(()),
            }
        }
    }
}


/// The number of nodes in a tree that are not literals yet.
pub open spec fn pending(n: TreeNode) -> nat
    decreases n,
{
    (if n.token is Literal { 0nat } else { 1nat }) + match n.left {
        Some(l) => pending(*l),
        None => 0,
    } + match n.right {
        Some(r) => pending(*r),
        None => 0,
    }
}

/// A reduction step on an operator node leaves fewer operator nodes.
pub proof fn lemma_step_shrinks(n: TreeNode)
    requires
        !(n.token is Literal),
        step(n) is Ok,
    ensures
        pending(step(n)->Ok_0) < pending(n),
    decreases n,
{
    if n.token == Token::NullOps {
    } else if n.token.spec_is_unary() {
        let r = *n.right->0;
        if !(r.token is Literal) {
            lemma_step_shrinks(r);
        }
    } else {
        let l = *n.left->0;
        let r = *n.right->0;
        if l.token is Literal && r.token is Literal {
        } else if !(l.token is Literal) {
            lemma_step_shrinks(l);
        } else {
            lemma_step_shrinks(r);
        }
    }
}

/// Whether a tree has the shape that the builder gives: literals and the
/// start marker have no children, and a sign has no left child.
pub open spec fn well_shaped(n: TreeNode) -> bool
    decreases n,
{
    &&& (n.token is Literal || n.token == Token::NullOps) ==> n.left is None && n.right is None
    &&& n.token.spec_is_unary() ==> n.left is None
    &&& match n.left {
        Some(l) => well_shaped(*l),
        None => true,
    }
    &&& match n.right {
        Some(r) => well_shaped(*r),
        None => true,
    }
}

/// On a well-shaped tree, a reduction step on an operator node collapses
/// exactly one operator node, and the shape is kept.
pub proof fn lemma_step_removes_one(n: TreeNode)
    requires
        well_shaped(n),
        !(n.token is Literal),
        step(n) is Ok,
    ensures
        pending(step(n)->Ok_0) == pending(n) - 1,
        well_shaped(step(n)->Ok_0),
    decreases n,
{
    if n.token == Token::NullOps {
    } else if n.token.spec_is_unary() {
        let r = *n.right->0;
        if !(r.token is Literal) {
            lemma_step_removes_one(r);
        } else {
            assert(well_shaped(r));
            assert(pending(r) == 0);
        }
    } else {
        let l = *n.left->0;
        let r = *n.right->0;
        if l.token is Literal && r.token is Literal {
            assert(well_shaped(l) && well_shaped(r));
            assert(pending(l) == 0 && pending(r) == 0);
        } else if !(l.token is Literal) {
            lemma_step_removes_one(l);
        } else {
            lemma_step_removes_one(r);
        }
    }
}

proof fn lemma_build_well_shaped(toks: Seq<Token>, end: nat)
    requires
        forall|j: int| 0 <= j < toks.len() ==> toks[j] != Token::NullOps,
        build(toks, end) is Ok,
    ensures
        build(toks, end)->Ok_0.0 matches Some(n) ==> well_shaped(n),
    decreases end,
{
    if end > 0 && end <= toks.len() && !(toks[end - 1] is Literal) {
        lemma_build_well_shaped(toks, (end - 1) as nat);
        let (r, re) = build(toks, (end - 1) as nat)->Ok_0;
        if !toks[end - 1].spec_is_unary() {
            let re2: nat = if re < end { re } else { (end - 1) as nat };
            lemma_build_well_shaped(toks, re2);
        }
    }
}

/// A tree built from a postfix sequence without start markers is well
/// shaped, so each reduction step on it collapses exactly one operator.
pub proof fn lemma_built_tree_well_shaped(toks: Seq<Token>)
    requires
        forall|j: int| 0 <= j < toks.len() ==> toks[j] != Token::NullOps,
        tree_of(toks) is Ok,
    ensures
        well_shaped(tree_of(toks)->Ok_0),
{
    lemma_build_well_shaped(toks, toks.len());
}

/// The result of reducing a tree step by step until its root is a literal.
pub open spec fn reduce(n: TreeNode) -> Result<i64, CalcError>
    decreases pending(n) via reduce_decreases
{
    match n.token {
        Token::Literal(v) => Ok(v),
        _ => match step(n) {
            Ok(m) => reduce(m),
            Err(e) => Err(e),
        },
    }
}

#[via_fn]
proof fn reduce_decreases(n: TreeNode) {
    if !(n.token is Literal) && step(n) is Ok {
        lemma_step_shrinks(n);
    }
}

/// A reduction step keeps the value of a tree, and fails exactly with the
/// failure that evaluating the tree meets.
pub proof fn lemma_step_keeps_value(n: TreeNode)
    ensures
        match step(n) {
            Ok(m) => value(m) == value(n),
            Err(e) => value(n) == Err::<i64, CalcError>(e),
        },
    decreases n,
{
    if n.token is Literal || n.token == Token::NullOps {
    } else if n.token.spec_is_unary() {
        if let Some(r) = n.right {
            lemma_step_keeps_value(*r);
        }
    } else {
        if let (Some(l), Some(r)) = (n.left, n.right) {
            lemma_step_keeps_value(*l);
            lemma_step_keeps_value(*r);
        }
    }
}

/// Reducing a tree step by step to a literal gives what evaluating it
/// recursively gives, the same value or the same failure.
pub proof fn lemma_reduce_equals_value(n: TreeNode)
    ensures
        reduce(n) == value(n),
    decreases pending(n),
{
    if !(n.token is Literal) {
        lemma_step_keeps_value(n);
        if let Ok(m) = step(n) {
            lemma_step_shrinks(n);
            lemma_reduce_equals_value(m);
        }
    }
}

impl ExpressionTree {
    /// The tree of an infix sequence.
    pub fn from_exp(exp: &TokenExp) -> (r: Result<ExpressionTree, CalcError>)
        ensures
            match (match to_postfix(exp@) {
                Ok(ts) => tree_of(ts),
                Err(e) => Err(e),
            }) {
                Ok(n) => r is Ok && r->Ok_0.root == n,
                Err(e) => r is Err && r->Err_0 == e,
            },
    {
        let root = TreeNode::from_exp(exp)?;
        Ok(ExpressionTree { root })
    }

    /// Reduces the tree one step at a time until its root is a literal, and
    /// returns that literal: the value of the tree.
    pub fn eval(&mut self) -> (r: Result<i64, CalcError>)
        ensures
            r == value(old(self).root),
            r == reduce(old(self).root),
            r is Ok ==> final(self).root == leaf(Token::Literal(r->Ok_0)),
    {
        proof {
            lemma_reduce_equals_value(self.root);
        }
        while !self.root.token.is_literal()
            invariant
                reduce(self.root) == reduce(old(self).root),
                reduce(old(self).root) == value(old(self).root),
            decreases pending(self.root),
        {
            let ghost before = self.root;
            match self.root.eval_step() {
                Ok(()) => {
                    proof {
                        lemma_step_shrinks(before);
                    }
                },
                Err(e) => {
                    assert(reduce(before) == Err::<i64, CalcError>(e));
                    return Err(e);
                },
            }
        }
        match self.root.token {
            Token::Literal(v) => {
                self.root.left = None;
                self.root.right = None;
                Ok(v)
            },
            _ => Err(CalcError::MissingOperand),
        }
    }
}


/// The tree written in order: left subtree, the node's text and a space,
/// then the right subtree.
pub open spec fn infix(n: TreeNode) -> Seq<char>
    decreases n,
{
    let left = match n.left {
        Some(l) => infix(*l),
        None => Seq::empty(),
    };
    let right = match n.right {
        Some(r) => infix(*r),
        None => Seq::empty(),
    };
    left + n.token.text() + seq![' '] + right
}

/// The drawing of a tree, one line per node: a node below the root is led by
/// `prefix` and ` |-`, its children by one more ` | `, and a missing child
/// shows as `(NULL)`.
pub open spec fn draw(n: TreeNode, prefix: Seq<char>, root: bool) -> Seq<char>
    decreases n,
{
    let inner = inner_prefix(prefix, root);
    let left = match n.left {
        Some(l) => draw(*l, inner, false),
        None => null_line(inner),
    };
    let right = match n.right {
        Some(r) => draw(*r, inner, false),
        None => null_line(inner),
    };
    node_line(n.token, prefix, root) + left + right
}

/// What leads the children of a node drawn after `prefix`.
pub open spec fn inner_prefix(prefix: Seq<char>, root: bool) -> Seq<char> {
    if root { Seq::empty() } else { prefix + seq![' ', '|', ' '] }
}

/// The line of a node drawn after `prefix`.
pub open spec fn node_line(t: Token, prefix: Seq<char>, root: bool) -> Seq<char> {
    let lead = if root { Seq::empty() } else { prefix + seq![' ', '|', '-'] };
    lead + seq!['('] + t.text() + seq![')', '\n']
}

/// The line of a missing child drawn after `inner`.
pub open spec fn null_line(inner: Seq<char>) -> Seq<char> {
    inner + seq![' ', '|', '-', '(', 'N', 'U', 'L', 'L', ')', '\n']
}

impl TreeNode {
    fn write_infix(&self, out: &mut String)
        ensures
            final(out)@ == old(out)@ + infix(*self),
        decreases self,
    {
        let ghost start = out@;
        let ghost left = if self.left is Some { infix(*self.left->0) } else { Seq::empty() };
        let ghost right = if self.right is Some { infix(*self.right->0) } else { Seq::empty() };
        if let Some(l) = &self.left {
            l.write_infix(out);
        }
        assert(out@ == start + left);
        let t = self.token.to_string();
        out.append(t.as_str());
        out.append(" ");
        proof {
            reveal_strlit(" ");
        }
        assert(out@ == start + left + self.token.text() + seq![' ']);
        let ghost mid = out@;
        if let Some(r) = &self.right {
            r.write_infix(out);
        }
        assert(out@ == mid + right);
        assert(out@ =~= start + infix(*self));
    }

    /// The expression written in order, each token followed by a space.
    pub fn infix_text(&self) -> (r: String)
        ensures
            r@ == infix(*self),
    {
        let mut out = String::new();
        self.write_infix(&mut out);
        proof {
            assert(out@ =~= infix(*self));
        }
        out
    }

    fn write_drawing(&self, prefix: &String, root: bool, out: &mut String)
        ensures
            final(out)@ == old(out)@ + draw(*self, prefix@, root),
        decreases self,
    {
        let ghost start = out@;
        let inner = write_node_line(self.token, prefix, root, out);
        let ghost head = out@;
        match &self.left {
            Some(l) => l.write_drawing(&inner, false, out),
            None => write_null_line(&inner, out),
        }
        let ghost mid = out@;
        match &self.right {
            Some(r) => r.write_drawing(&inner, false, out),
            None => write_null_line(&inner, out),
        }
        proof {
            let left = if self.left is Some { draw(*self.left->0, inner@, false) } else { null_line(inner@) };
            let right = if self.right is Some { draw(*self.right->0, inner@, false) } else { null_line(inner@) };
            assert(mid == head + left);
            assert(out@ == mid + right);
            assert(out@ =~= start + draw(*self, prefix@, root));
        }
    }

    /// The drawing of the tree, with this node at the top.
    pub fn display(&self) -> (r: String)
        ensures
            r@ == draw(*self, Seq::empty(), true),
    {
        let mut out = String::new();
        let prefix = String::new();
        self.write_drawing(&prefix, true, &mut out);
        proof {
            assert(out@ =~= draw(*self, Seq::empty(), true));
        }
        out
    }
}

impl ExpressionTree {
    /// The drawing of the whole tree.
    pub fn display(&self) -> (r: String)
        ensures
            r@ == draw(self.root, Seq::empty(), true),
    {
        self.root.display()
    }
}


fn write_null_line(inner: &String, out: &mut String)
    ensures
        final(out)@ == old(out)@ + null_line(inner@),
{
    proof {
        reveal_strlit(" |-(NULL)\n");
    }
    out.append(inner.as_str());
    out.append(" |-(NULL)\n");
    assert(out@ =~= old(out)@ + null_line(inner@));
}

/// Writes the line of a node and returns what leads its children.
fn write_node_line(t: Token, prefix: &String, root: bool, out: &mut String) -> (inner: String)
    ensures
        final(out)@ == old(out)@ + node_line(t, prefix@, root),
        inner@ == inner_prefix(prefix@, root),
{
    proof {
        reveal_strlit(" |-");
        reveal_strlit(" | ");
        reveal_strlit("(");
        reveal_strlit(")\n");
    }
    let mut inner = String::new();
    if !root {
        out.append(prefix.as_str());
        out.append(" |-");
        inner.append(prefix.as_str());
        inner.append(" | ");
    }
    let text = t.to_string();
    out.append("(");
    out.append(text.as_str());
    out.append(")\n");
    assert(inner@ =~= inner_prefix(prefix@, root));
    assert(out@ =~= old(out)@ + node_line(t, prefix@, root));
    inner
}

} // verus!
