//! Builds a syntax tree from tokens, by recursive descent.
use vstd::prelude::*;

use crate::lexer::{Token, TokenKind, TokenType};
use crate::parser::{Numeral, NumeralView};

verus! {

/// A node of the syntax tree.
pub enum Node {
    /// A leaf holding a number.
    Child(Numeral),
    /// An operator applied to two subtrees.
    Parent(TokenType, Box<Node>, Box<Node>),
}

/// The mathematical model of a [`Node`].
pub enum Tree {
    Leaf(NumeralView),
    Op(TokenKind, Box<Tree>, Box<Tree>),
}

impl Node {
    /// The model of this node and of the nodes below it.
    pub open spec fn tree(&self) -> Tree
        decreases self,
    {
        match self {
            Node::Child(n) => Tree::Leaf(n@),
            Node::Parent(op, left, right) => Tree::Op(
                op@,
                Box::new(left.tree()),
                Box::new(right.tree()),
            ),
        }
    }
}

impl View for Node {
    type V = Tree;

    open spec fn view(&self) -> Tree {
        self.tree()
    }
}

/// The types of the tokens `ts`.
pub open spec fn kinds(ts: Seq<Token>) -> Seq<TokenKind> {
    ts.map_values(|t: Token| t.token_type@)
}

/// The number of tokens of `ts` from `pos` on.
pub open spec fn remaining(ts: Seq<TokenKind>, pos: int) -> nat {
    if pos < ts.len() {
        (ts.len() - pos) as nat
    } else {
        0
    }
}

/// Parses a factor at `pos`: a number, or any other token followed by an
/// expression and one more token (the parentheses around the expression).
/// Gives the tree and the position after it; `None` where the tokens run out
/// before a factor.
pub open spec fn factor_spec(ts: Seq<TokenKind>, pos: int) -> Option<(Tree, int)>
    decreases remaining(ts, pos), 0nat,
{
    if 0 <= pos < ts.len() {
        match ts[pos] {
            TokenKind::Number(n) => Some((Tree::Leaf(n), pos + 1)),
            _ => match expr_spec(ts, pos + 1) {
                Some((t, p)) => Some((t, p + 1)),
                None => None,
            },
        }
    } else {
        None
    }
}

/// Parses a term at `pos`: `factor (('*' | '/') factor)*`, grouped to the left.
pub open spec fn term_spec(ts: Seq<TokenKind>, pos: int) -> Option<(Tree, int)>
    decreases remaining(ts, pos), 2nat,
{
    match factor_spec(ts, pos) {
        Some((left, p)) => if pos < p {
            term_tail_spec(ts, p, left)
        } else {
            None
        },
        None => None,
    }
}

/// Continues a term whose part so far is `left`, at `pos`.
pub open spec fn term_tail_spec(ts: Seq<TokenKind>, pos: int, left: Tree) -> Option<(Tree, int)>
    decreases remaining(ts, pos), 1nat,
{
    if 0 <= pos < ts.len() && (ts[pos] is Multiply || ts[pos] is Divide) {
        match factor_spec(ts, pos + 1) {
            Some((right, p)) => if pos < p {
                term_tail_spec(ts, p, Tree::Op(ts[pos], Box::new(left), Box::new(right)))
            } else {
                None
            },
            None => None,
        }
    } else {
        Some((left, pos))
    }
}

/// Parses an expression at `pos`: `term (('+' | '-') term)*`, grouped to the
/// left.
pub open spec fn expr_spec(ts: Seq<TokenKind>, pos: int) -> Option<(Tree, int)>
    decreases remaining(ts, pos), 3nat,
{
    match term_spec(ts, pos) {
        Some((left, p)) => if pos < p {
            expr_tail_spec(ts, p, left)
        } else {
            None
        },
        None => None,
    }
}

/// Continues an expression whose part so far is `left`, at `pos`.
pub open spec fn expr_tail_spec(ts: Seq<TokenKind>, pos: int, left: Tree) -> Option<(Tree, int)>
    decreases remaining(ts, pos), 2nat,
{
    if 0 <= pos < ts.len() && (ts[pos] is Plus || ts[pos] is Minus) {
        match term_spec(ts, pos + 1) {
            Some((right, p)) => if pos < p {
                expr_tail_spec(ts, p, Tree::Op(ts[pos], Box::new(left), Box::new(right)))
            } else {
                None
            },
            None => None,
        }
    } else {
        Some((left, pos))
    }
}

/// The tree that the tokens `ts` build: the expression at their start, with
/// whatever follows it ignored; `None` where the tokens run out first.
pub open spec fn tree_spec(ts: Seq<TokenKind>) -> Option<Tree> {
    match expr_spec(ts, 0) {
        Some((t, _)) => Some(t),
        None => None,
    }
}

/// The end `e` of a parse that starts at `pos`, given `len` tokens.
pub open spec fn end_bound(len: int, pos: int, e: int) -> bool {
    pos < e && (e <= pos || e <= 2 * len - pos)
}

proof fn lemma_factor_progress(ts: Seq<TokenKind>, pos: int)
    requires
        0 <= pos,
    ensures
        factor_spec(ts, pos) matches Some((_, e)) ==> pos < ts.len() && end_bound(ts.len() as int, pos, e),
    decreases remaining(ts, pos), 0nat,
{
    if 0 <= pos < ts.len() {
        match ts[pos] {
            TokenKind::Number(_) => {},
            _ => {
                lemma_expr_progress(ts, pos + 1);
            },
        }
    }
}

proof fn lemma_term_progress(ts: Seq<TokenKind>, pos: int)
    requires
        0 <= pos,
    ensures
        term_spec(ts, pos) matches Some((_, e)) ==> pos < ts.len() && end_bound(ts.len() as int, pos, e),
    decreases remaining(ts, pos), 2nat,
{
    lemma_factor_progress(ts, pos);
    if let Some((left, p)) = factor_spec(ts, pos) {
        lemma_term_tail_progress(ts, p, left);
    }
}

proof fn lemma_term_tail_progress(ts: Seq<TokenKind>, pos: int, left: Tree)
    requires
        0 <= pos,
    ensures
        term_tail_spec(ts, pos, left) matches Some((_, e)) ==> e == pos || (pos < ts.len()
            && end_bound(ts.len() as int, pos, e)),
    decreases remaining(ts, pos), 1nat,
{
    if 0 <= pos < ts.len() && (ts[pos] is Multiply || ts[pos] is Divide) {
        lemma_factor_progress(ts, pos + 1);
        if let Some((right, p)) = factor_spec(ts, pos + 1) {
            lemma_term_tail_progress(ts, p, Tree::Op(ts[pos], Box::new(left), Box::new(right)));
        }
    }
}

proof fn lemma_expr_progress(ts: Seq<TokenKind>, pos: int)
    requires
        0 <= pos,
    ensures
        expr_spec(ts, pos) matches Some((_, e)) ==> pos < ts.len() && end_bound(ts.len() as int, pos, e),
    decreases remaining(ts, pos), 3nat,
{
    lemma_term_progress(ts, pos);
    if let Some((left, p)) = term_spec(ts, pos) {
        lemma_expr_tail_progress(ts, p, left);
    }
}

proof fn lemma_expr_tail_progress(ts: Seq<TokenKind>, pos: int, left: Tree)
    requires
        0 <= pos,
    ensures
        expr_tail_spec(ts, pos, left) matches Some((_, e)) ==> e == pos || (pos < ts.len()
            && end_bound(ts.len() as int, pos, e)),
    decreases remaining(ts, pos), 2nat,
{
    if 0 <= pos < ts.len() && (ts[pos] is Plus || ts[pos] is Minus) {
        lemma_term_progress(ts, pos + 1);
        if let Some((right, p)) = term_spec(ts, pos + 1) {
            lemma_expr_tail_progress(ts, p, Tree::Op(ts[pos], Box::new(left), Box::new(right)));
        }
    }
}

impl Node {
    /// Builds the syntax tree of the expression at the start of `tokens`.
    ///
    /// `*` and `/` bind tighter than `+` and `-`; operators of the same
    /// priority group to the left. A number is a leaf; any other token where
    /// a number may stand opens a group that ends one token after the
    /// expression inside it.
    pub fn build_tree(tokens: &[Token]) -> (node: Node)
        requires
            tree_spec(kinds(tokens@)) is Some,
            tokens@.len() <= usize::MAX / 2,
        ensures
            tree_spec(kinds(tokens@)) == Some(node@),
    {
        Node::try_build_tree(tokens).unwrap()
    }

    /// Does what [`Node::build_tree`] does, and returns `None` exactly where
    /// `build_tree` would read past the last token.
    pub fn try_build_tree(tokens: &[Token]) -> (node: Option<Node>)
        requires
            tokens@.len() <= usize::MAX / 2,
        ensures
            match node {
                Some(n) => tree_spec(kinds(tokens@)) == Some(n@),
                None => tree_spec(kinds(tokens@)) is None,
            },
    {
        let mut pos: usize = 0;
        Node::parse_expr(tokens, &mut pos)
    }

    /// Parses an expression: `term (('+' | '-') term)*`, grouped to the left.
    fn parse_expr(tokens: &[Token], pos: &mut usize) -> (node: Option<Node>)
        requires
            tokens@.len() <= usize::MAX / 2,
        ensures
            match node {
                Some(n) => expr_spec(kinds(tokens@), *old(pos) as int) == Some(
                    (n@, *final(pos) as int),
                ),
                None => expr_spec(kinds(tokens@), *old(pos) as int) is None,
            },
        decreases remaining(kinds(tokens@), *old(pos) as int), 3nat,
    {
        let ghost ts = kinds(tokens@);
        let ghost start = *pos as int;
        let mut left = match Node::parse_term(tokens, pos) {
            Some(n) => n,
            None => {
                return None;
            },
        };
        proof {
            lemma_term_progress(ts, start);
        }
        loop
            invariant
                ts == kinds(tokens@),
                tokens@.len() <= usize::MAX / 2,
                start == *old(pos),
                start < *pos,
                start < ts.len(),
                expr_spec(ts, start) == expr_tail_spec(ts, *pos as int, left@),
            decreases remaining(ts, *pos as int),
        {
            if *pos >= tokens.len() {
                return Some(left);
            }
            let ghost p = *pos as int;
            match &tokens[*pos].token_type {
                TokenType::Plus => {
                    *pos += 1;
                    let right = match Node::parse_term(tokens, pos) {
                        Some(n) => n,
                        None => {
                            return None;
                        },
                    };
                    proof {
                        lemma_term_progress(ts, p + 1);
                    }
                    left = Node::Parent(TokenType::Plus, Box::new(left), Box::new(right));
                },
                TokenType::Minus => {
                    *pos += 1;
                    let right = match Node::parse_term(tokens, pos) {
                        Some(n) => n,
                        None => {
                            return None;
                        },
                    };
                    proof {
                        lemma_term_progress(ts, p + 1);
                    }
                    left = Node::Parent(TokenType::Minus, Box::new(left), Box::new(right));
                },
                _ => {
                    return Some(left);
                },
            }
        }
    }

    /// Parses a term: `factor (('*' | '/') factor)*`, grouped to the left.
    fn parse_term(tokens: &[Token], pos: &mut usize) -> (node: Option<Node>)
        requires
            tokens@.len() <= usize::MAX / 2,
        ensures
            match node {
                Some(n) => term_spec(kinds(tokens@), *old(pos) as int) == Some(
                    (n@, *final(pos) as int),
                ),
                None => term_spec(kinds(tokens@), *old(pos) as int) is None,
            },
        decreases remaining(kinds(tokens@), *old(pos) as int), 2nat,
    {
        let ghost ts = kinds(tokens@);
        let ghost start = *pos as int;
        let mut left = match Node::parse_factor(tokens, pos) {
            Some(n) => n,
            None => {
                return None;
            },
        };
        proof {
            lemma_factor_progress(ts, start);
        }
        loop
            invariant
                ts == kinds(tokens@),
                tokens@.len() <= usize::MAX / 2,
                start == *old(pos),
                start < *pos,
                start < ts.len(),
                term_spec(ts, start) == term_tail_spec(ts, *pos as int, left@),
            decreases remaining(ts, *pos as int),
        {
            if *pos >= tokens.len() {
                return Some(left);
            }
            let ghost p = *pos as int;
            match &tokens[*pos].token_type {
                TokenType::Multiply => {
                    *pos += 1;
                    let right = match Node::parse_factor(tokens, pos) {
                        Some(n) => n,
                        None => {
                            return None;
                        },
                    };
                    proof {
                        lemma_factor_progress(ts, p + 1);
                    }
                    left = Node::Parent(TokenType::Multiply, Box::new(left), Box::new(right));
                },
                TokenType::Divide => {
                    *pos += 1;
                    let right = match Node::parse_factor(tokens, pos) {
                        Some(n) => n,
                        None => {
                            return None;
                        },
                    };
                    proof {
                        lemma_factor_progress(ts, p + 1);
                    }
                    left = Node::Parent(TokenType::Divide, Box::new(left), Box::new(right));
                },
                _ => {
                    return Some(left);
                },
            }
        }
    }

    /// Parses a factor: a number, or a group made of the token at `pos`, an
    /// expression and the token after it.
    fn parse_factor(tokens: &[Token], pos: &mut usize) -> (node: Option<Node>)
        requires
            tokens@.len() <= usize::MAX / 2,
        ensures
            match node {
                Some(n) => factor_spec(kinds(tokens@), *old(pos) as int) == Some(
                    (n@, *final(pos) as int),
                ),
                None => factor_spec(kinds(tokens@), *old(pos) as int) is None,
            },
        decreases remaining(kinds(tokens@), *old(pos) as int), 0nat,
    {
        let ghost ts = kinds(tokens@);
        let ghost start = *pos as int;
        if *pos >= tokens.len() {
            return None;
        }
        match &tokens[*pos].token_type {
            TokenType::Number(n) => {
                let value = n.clone();
                *pos += 1;
                Some(Node::Child(value))
            },
            _ => {
                *pos += 1;
                let node = match Node::parse_expr(tokens, pos) {
                    Some(n) => n,
                    None => {
                        return None;
                    },
                };
                proof {
                    lemma_expr_progress(ts, start + 1);
                }
                *pos += 1;
                Some(node)
            },
        }
    }
}

/// One of the operators `+ - * /`.
pub open spec fn is_operator(k: TokenKind) -> bool {
    k is Plus || k is Minus || k is Multiply || k is Divide
}

/// `b` is empty or starts with a token that is not an operator, so that an
/// expression right before it ends there.
pub open spec fn ends_expression(b: Seq<TokenKind>) -> bool {
    b.len() == 0 || !is_operator(b[0])
}

/// A parse result moved `k` positions further.
pub open spec fn shifted(r: Option<(Tree, int)>, k: int) -> Option<(Tree, int)> {
    match r {
        Some((t, q)) => Some((t, q + k)),
        None => None,
    }
}

/// The parse ends within `e`.
pub open spec fn ends_within(r: Option<(Tree, int)>, e: Seq<TokenKind>) -> bool {
    r matches Some((_, q)) && q <= e.len()
}

proof fn lemma_index_in_context(a: Seq<TokenKind>, e: Seq<TokenKind>, b: Seq<TokenKind>, p: int)
    requires
        0 <= p <= e.len(),
    ensures
        p < e.len() ==> (a + e + b)[p + a.len()] == e[p],
        p == e.len() && b.len() > 0 ==> (a + e + b)[p + a.len()] == b[0],
        p == e.len() && b.len() == 0 ==> p + a.len() == (a + e + b).len(),
        (a + e + b).len() == a.len() + e.len() + b.len(),
{
}

proof fn lemma_factor_in_context(a: Seq<TokenKind>, e: Seq<TokenKind>, b: Seq<TokenKind>, p: int)
    requires
        0 <= p,
        ends_within(factor_spec(e, p), e),
        ends_expression(b),
    ensures
        factor_spec(a + e + b, p + a.len()) == shifted(factor_spec(e, p), a.len() as int),
    decreases remaining(e, p), 0nat,
{
    lemma_index_in_context(a, e, b, p);
    match e[p] {
        TokenKind::Number(_) => {},
        _ => {
            lemma_expr_in_context(a, e, b, p + 1);
        },
    }
}

proof fn lemma_term_in_context(a: Seq<TokenKind>, e: Seq<TokenKind>, b: Seq<TokenKind>, p: int)
    requires
        0 <= p,
        ends_within(term_spec(e, p), e),
        ends_expression(b),
    ensures
        term_spec(a + e + b, p + a.len()) == shifted(term_spec(e, p), a.len() as int),
    decreases remaining(e, p), 2nat,
{
    let (left, p1) = factor_spec(e, p)->Some_0;
    lemma_term_tail_progress(e, p1, left);
    lemma_factor_in_context(a, e, b, p);
    lemma_term_tail_in_context(a, e, b, p1, left);
}

proof fn lemma_term_tail_in_context(
    a: Seq<TokenKind>,
    e: Seq<TokenKind>,
    b: Seq<TokenKind>,
    p: int,
    left: Tree,
)
    requires
        0 <= p,
        ends_within(term_tail_spec(e, p, left), e),
        ends_expression(b),
    ensures
        term_tail_spec(a + e + b, p + a.len(), left) == shifted(
            term_tail_spec(e, p, left),
            a.len() as int,
        ),
    decreases remaining(e, p), 1nat,
{
    lemma_term_tail_progress(e, p, left);
    lemma_index_in_context(a, e, b, p);
    if 0 <= p < e.len() && (e[p] is Multiply || e[p] is Divide) {
        let (right, p2) = factor_spec(e, p + 1)->Some_0;
        let next = Tree::Op(e[p], Box::new(left), Box::new(right));
        lemma_term_tail_progress(e, p2, next);
        lemma_factor_in_context(a, e, b, p + 1);
        lemma_term_tail_in_context(a, e, b, p2, next);
    }
}

proof fn lemma_expr_in_context(a: Seq<TokenKind>, e: Seq<TokenKind>, b: Seq<TokenKind>, p: int)
    requires
        0 <= p,
        ends_within(expr_spec(e, p), e),
        ends_expression(b),
    ensures
        expr_spec(a + e + b, p + a.len()) == shifted(expr_spec(e, p), a.len() as int),
    decreases remaining(e, p), 3nat,
{
    let (left, p1) = term_spec(e, p)->Some_0;
    lemma_expr_tail_progress(e, p1, left);
    lemma_term_in_context(a, e, b, p);
    lemma_expr_tail_in_context(a, e, b, p1, left);
}

proof fn lemma_expr_tail_in_context(
    a: Seq<TokenKind>,
    e: Seq<TokenKind>,
    b: Seq<TokenKind>,
    p: int,
    left: Tree,
)
    requires
        0 <= p,
        ends_within(expr_tail_spec(e, p, left), e),
        ends_expression(b),
    ensures
        expr_tail_spec(a + e + b, p + a.len(), left) == shifted(
            expr_tail_spec(e, p, left),
            a.len() as int,
        ),
    decreases remaining(e, p), 2nat,
{
    lemma_expr_tail_progress(e, p, left);
    lemma_index_in_context(a, e, b, p);
    if 0 <= p < e.len() && (e[p] is Plus || e[p] is Minus) {
        let (right, p2) = term_spec(e, p + 1)->Some_0;
        let next = Tree::Op(e[p], Box::new(left), Box::new(right));
        lemma_expr_tail_progress(e, p2, next);
        lemma_term_in_context(a, e, b, p + 1);
        lemma_expr_tail_in_context(a, e, b, p2, next);
    }
}

/// An expression that the tokens `e` make up completely gives the same tree
/// wherever it stands: after any tokens `a`, and before tokens `b` that do
/// not start with an operator.
pub proof fn lemma_expression_in_context(a: Seq<TokenKind>, e: Seq<TokenKind>, b: Seq<TokenKind>)
    requires
        expr_spec(e, 0) matches Some((_, q)) && q == e.len(),
        ends_expression(b),
    ensures
        expr_spec(a + e + b, a.len() as int) == shifted(expr_spec(e, 0), a.len() as int),
{
    lemma_expr_in_context(a, e, b, 0);
}

/// Putting parentheses around a complete expression does not change its
/// tree.
pub proof fn lemma_parentheses_keep_tree(e: Seq<TokenKind>)
    requires
        expr_spec(e, 0) matches Some((_, q)) && q == e.len(),
    ensures
        tree_spec(seq![TokenKind::OpenParen] + e + seq![TokenKind::CloseParen]) == tree_spec(e),
{
    let a = seq![TokenKind::OpenParen];
    let b = seq![TokenKind::CloseParen];
    let s = a + e + b;
    let t = expr_spec(e, 0)->Some_0.0;
    let n: int = e.len() + 2int;
    lemma_expression_in_context(a, e, b);
    assert(s[0] == TokenKind::OpenParen);
    assert(s.len() == n);
    assert(factor_spec(s, 0) == Some((t, n)));
    assert(term_tail_spec(s, n, t) == Some((t, n)));
    assert(term_spec(s, 0) == Some((t, n)));
    assert(expr_tail_spec(s, n, t) == Some((t, n)));
}

/// `*` and `/` bind tighter than `+` and `-`.
pub open spec fn binds_tighter(inner: TokenKind, outer: TokenKind) -> bool {
    (inner is Multiply || inner is Divide) && (outer is Plus || outer is Minus)
}

/// `op` applied to `l` and `r`.
pub open spec fn op_tree(op: TokenKind, l: Tree, r: Tree) -> Tree {
    Tree::Op(op, Box::new(l), Box::new(r))
}

/// Of two operators between three numbers, the second groups first exactly
/// when it binds tighter than the first; otherwise the two group to the left.
pub proof fn lemma_precedence_and_grouping(
    a: NumeralView,
    op1: TokenKind,
    b: NumeralView,
    op2: TokenKind,
    c: NumeralView,
)
    requires
        is_operator(op1),
        is_operator(op2),
    ensures
        tree_spec(
            seq![TokenKind::Number(a), op1, TokenKind::Number(b), op2, TokenKind::Number(c)],
        ) == Some(
            if binds_tighter(op2, op1) {
                op_tree(op1, Tree::Leaf(a), op_tree(op2, Tree::Leaf(b), Tree::Leaf(c)))
            } else {
                op_tree(op2, op_tree(op1, Tree::Leaf(a), Tree::Leaf(b)), Tree::Leaf(c))
            },
        ),
{
    let ts = seq![TokenKind::Number(a), op1, TokenKind::Number(b), op2, TokenKind::Number(c)];
    let la = Tree::Leaf(a);
    let lb = Tree::Leaf(b);
    let lc = Tree::Leaf(c);
    assert(factor_spec(ts, 0) == Some((la, 1int)));
    assert(factor_spec(ts, 2) == Some((lb, 3int)));
    assert(factor_spec(ts, 4) == Some((lc, 5int)));
    assert(term_tail_spec(ts, 5, lc) == Some((lc, 5int)));
    assert(term_spec(ts, 4) == Some((lc, 5int)));
    if op1 is Multiply || op1 is Divide {
        let ab = op_tree(op1, la, lb);
        if op2 is Multiply || op2 is Divide {
            let abc = op_tree(op2, ab, lc);
            assert(term_tail_spec(ts, 5, abc) == Some((abc, 5int)));
            assert(term_tail_spec(ts, 3, ab) == Some((abc, 5int)));
            assert(term_tail_spec(ts, 1, la) == Some((abc, 5int)));
            assert(term_spec(ts, 0) == Some((abc, 5int)));
            assert(expr_tail_spec(ts, 5, abc) == Some((abc, 5int)));
        } else {
            let abc = op_tree(op2, ab, lc);
            assert(term_tail_spec(ts, 3, ab) == Some((ab, 3int)));
            assert(term_tail_spec(ts, 1, la) == Some((ab, 3int)));
            assert(term_spec(ts, 0) == Some((ab, 3int)));
            assert(expr_tail_spec(ts, 5, abc) == Some((abc, 5int)));
            assert(expr_tail_spec(ts, 3, ab) == Some((abc, 5int)));
        }
    } else {
        assert(term_tail_spec(ts, 1, la) == Some((la, 1int)));
        assert(term_spec(ts, 0) == Some((la, 1int)));
        if op2 is Multiply || op2 is Divide {
            let bc = op_tree(op2, lb, lc);
            let abc = op_tree(op1, la, bc);
            assert(term_tail_spec(ts, 5, bc) == Some((bc, 5int)));
            assert(term_tail_spec(ts, 3, lb) == Some((bc, 5int)));
            assert(term_spec(ts, 2) == Some((bc, 5int)));
            assert(expr_tail_spec(ts, 5, abc) == Some((abc, 5int)));
            assert(expr_tail_spec(ts, 1, la) == Some((abc, 5int)));
        } else {
            let ab = op_tree(op1, la, lb);
            let abc = op_tree(op2, ab, lc);
            assert(term_tail_spec(ts, 3, lb) == Some((lb, 3int)));
            assert(term_spec(ts, 2) == Some((lb, 3int)));
            assert(expr_tail_spec(ts, 5, abc) == Some((abc, 5int)));
            assert(expr_tail_spec(ts, 3, ab) == Some((abc, 5int)));
            assert(expr_tail_spec(ts, 1, la) == Some((abc, 5int)));
        }
    }
}

/// `+` or `-`.
pub open spec fn is_additive(k: TokenKind) -> bool {
    k is Plus || k is Minus
}

/// `*` or `/`.
pub open spec fn is_multiplicative(k: TokenKind) -> bool {
    k is Multiply || k is Divide
}

/// `ts` is a chain of numbers at the even positions with operators between
/// them, all additive or all multiplicative as `additive` says.
pub open spec fn operator_chain(ts: Seq<TokenKind>, additive: bool) -> bool {
    &&& ts.len() % 2 == 1
    &&& forall|j: int|
        0 <= j < ts.len() ==> (j % 2 == 0 ==> (#[trigger] ts[j]) is Number) && (j % 2 == 1 ==> (
        if additive {
            is_additive(ts[j])
        } else {
            is_multiplicative(ts[j])
        }))
}

/// The number of the token `k`, as a leaf.
pub open spec fn leaf_of(k: TokenKind) -> Tree {
    Tree::Leaf(k->Number_0)
}

/// The first `2 * n + 1` tokens of a chain, nested to the left: the left
/// operand of the `n`-th operator is the tree of everything before it, its
/// right operand the number after it.
pub open spec fn nested_left(ts: Seq<TokenKind>, n: nat) -> Tree
    decreases n,
{
    if n == 0 {
        leaf_of(ts[0])
    } else {
        Tree::Op(
            ts[2 * n - 1],
            Box::new(nested_left(ts, (n - 1) as nat)),
            Box::new(leaf_of(ts[2 * n as int])),
        )
    }
}

proof fn lemma_chain_leaf(ts: Seq<TokenKind>, additive: bool, i: int)
    requires
        operator_chain(ts, additive),
        0 <= i < ts.len(),
        i % 2 == 0,
    ensures
        factor_spec(ts, i) == Some((leaf_of(ts[i]), i + 1)),
        i + 1 < ts.len() ==> (i + 1) % 2 == 1 && if additive {
            is_additive(ts[i + 1])
        } else {
            is_multiplicative(ts[i + 1])
        },
{
    assert(ts[i] is Number);
    if i + 1 < ts.len() {
        assert((i + 1) % 2 == 1);
        assert(ts[i + 1] == ts[i + 1]);
    }
}

proof fn lemma_additive_chain(ts: Seq<TokenKind>, n: nat, m: nat)
    requires
        operator_chain(ts, true),
        ts.len() == 2 * n + 1,
        m <= n,
    ensures
        expr_tail_spec(ts, 2 * m as int + 1, nested_left(ts, m)) == Some(
            (nested_left(ts, n), 2 * n as int + 1),
        ),
    decreases n - m,
{
    let p: int = 2 * m as int + 1;
    if m < n {
        lemma_chain_leaf(ts, true, p - 1);
        lemma_chain_leaf(ts, true, p + 1);
        let leaf = leaf_of(ts[p + 1]);
        assert(term_tail_spec(ts, p + 2, leaf) == Some((leaf, p + 2)));
        assert(term_spec(ts, p + 1) == Some((leaf, p + 2)));
        assert(nested_left(ts, m + 1) == Tree::Op(
            ts[p],
            Box::new(nested_left(ts, m)),
            Box::new(leaf),
        ));
        lemma_additive_chain(ts, n, m + 1);
    }
}

proof fn lemma_multiplicative_chain(ts: Seq<TokenKind>, n: nat, m: nat)
    requires
        operator_chain(ts, false),
        ts.len() == 2 * n + 1,
        m <= n,
    ensures
        term_tail_spec(ts, 2 * m as int + 1, nested_left(ts, m)) == Some(
            (nested_left(ts, n), 2 * n as int + 1),
        ),
    decreases n - m,
{
    let p: int = 2 * m as int + 1;
    if m < n {
        lemma_chain_leaf(ts, false, p - 1);
        lemma_chain_leaf(ts, false, p + 1);
        let leaf = leaf_of(ts[p + 1]);
        assert(nested_left(ts, m + 1) == Tree::Op(
            ts[p],
            Box::new(nested_left(ts, m)),
            Box::new(leaf),
        ));
        lemma_multiplicative_chain(ts, n, m + 1);
    }
}

/// Numbers joined by `+` and `-` only, of any length, group to the left:
/// the left operand of each operator is the tree of everything before it and
/// the right operand the number after it.
pub proof fn lemma_additive_chain_groups_left(ts: Seq<TokenKind>)
    requires
        operator_chain(ts, true),
    ensures
        tree_spec(ts) == Some(nested_left(ts, ((ts.len() - 1) / 2) as nat)),
{
    let n = ((ts.len() - 1) / 2) as nat;
    lemma_chain_leaf(ts, true, 0);
    let leaf = leaf_of(ts[0]);
    assert(term_tail_spec(ts, 1, leaf) == Some((leaf, 1int)));
    assert(nested_left(ts, 0) == leaf);
    lemma_additive_chain(ts, n, 0);
}

/// Numbers joined by `*` and `/` only, of any length, group to the left:
/// the left operand of each operator is the tree of everything before it and
/// the right operand the number after it.
pub proof fn lemma_multiplicative_chain_groups_left(ts: Seq<TokenKind>)
    requires
        operator_chain(ts, false),
    ensures
        tree_spec(ts) == Some(nested_left(ts, ((ts.len() - 1) / 2) as nat)),
{
    let n = ((ts.len() - 1) / 2) as nat;
    lemma_product_term(ts);
    let t = nested_left(ts, n);
    assert(expr_tail_spec(ts, ts.len() as int, t) == Some((t, ts.len() as int)));
}

proof fn lemma_product_term(ts: Seq<TokenKind>)
    requires
        operator_chain(ts, false),
    ensures
        term_spec(ts, 0) == Some((nested_left(ts, ((ts.len() - 1) / 2) as nat), ts.len() as int)),
{
    let n = ((ts.len() - 1) / 2) as nat;
    lemma_chain_leaf(ts, false, 0);
    assert(nested_left(ts, 0) == leaf_of(ts[0]));
    lemma_multiplicative_chain(ts, n, 0);
}

/// `ts` alternates numbers, at the even positions, and the operators
/// `+ - * /`, at the odd ones.
pub open spec fn alternating(ts: Seq<TokenKind>) -> bool {
    &&& ts.len() % 2 == 1
    &&& forall|j: int|
        0 <= j < ts.len() ==> (j % 2 == 0 ==> (#[trigger] ts[j]) is Number) && (j % 2 == 1
            ==> is_operator(ts[j]))
}

/// A position where a term of an alternating sequence may end.
pub open spec fn term_end(ts: Seq<TokenKind>, q: int) -> bool {
    &&& 0 < q <= ts.len()
    &&& q % 2 == 1
    &&& q == ts.len() || is_additive(ts[q])
}

proof fn lemma_alternating_at(ts: Seq<TokenKind>, j: int)
    requires
        alternating(ts),
        0 <= j < ts.len(),
    ensures
        j % 2 == 0 ==> ts[j] is Number && factor_spec(ts, j) == Some((leaf_of(ts[j]), j + 1)),
        j % 2 == 1 ==> is_operator(ts[j]),
{
    assert(ts[j] == ts[j]);
}

proof fn lemma_alternating_term_tail(ts: Seq<TokenKind>, p: int, left: Tree)
    requires
        alternating(ts),
        0 < p <= ts.len(),
        p % 2 == 1,
    ensures
        term_tail_spec(ts, p, left) matches Some((_, q)) && p <= q && term_end(ts, q),
    decreases ts.len() - p,
{
    if p < ts.len() {
        lemma_alternating_at(ts, p);
        if is_multiplicative(ts[p]) {
            lemma_alternating_at(ts, p + 1);
            lemma_alternating_term_tail(
                ts,
                p + 2,
                Tree::Op(ts[p], Box::new(left), Box::new(leaf_of(ts[p + 1]))),
            );
        }
    }
}

proof fn lemma_alternating_term(ts: Seq<TokenKind>, p: int)
    requires
        alternating(ts),
        0 <= p < ts.len(),
        p % 2 == 0,
    ensures
        term_spec(ts, p) matches Some((_, q)) && p < q && term_end(ts, q),
{
    lemma_alternating_at(ts, p);
    lemma_alternating_term_tail(ts, p + 1, leaf_of(ts[p]));
}

proof fn lemma_alternating_expr_tail(ts: Seq<TokenKind>, p: int, left: Tree)
    requires
        alternating(ts),
        term_end(ts, p),
    ensures
        expr_tail_spec(ts, p, left) matches Some((_, q)) && q == ts.len(),
    decreases ts.len() - p,
{
    if p < ts.len() {
        lemma_alternating_term(ts, p + 1);
        let (right, p2) = term_spec(ts, p + 1)->Some_0;
        lemma_alternating_expr_tail(
            ts,
            p2,
            Tree::Op(ts[p], Box::new(left), Box::new(right)),
        );
    }
}

/// An alternating sequence is one expression that spans all of it.
proof fn lemma_alternating_complete(ts: Seq<TokenKind>)
    requires
        alternating(ts),
    ensures
        expr_spec(ts, 0) matches Some((_, q)) && q == ts.len(),
{
    lemma_alternating_term(ts, 0);
    let (left, p1) = term_spec(ts, 0)->Some_0;
    lemma_alternating_expr_tail(ts, p1, left);
}

proof fn lemma_extended_index(a: Seq<TokenKind>, op: TokenKind, b: Seq<TokenKind>, i: int)
    requires
        0 <= i <= a.len(),
    ensures
        i < a.len() ==> (a + seq![op] + b)[i] == a[i],
        i == a.len() ==> (a + seq![op] + b)[i] == op,
        (a + seq![op] + b).len() == a.len() + 1 + b.len(),
{
}

proof fn lemma_extended_term_tail(
    a: Seq<TokenKind>,
    op: TokenKind,
    b: Seq<TokenKind>,
    p: int,
    left: Tree,
)
    requires
        alternating(a),
        is_additive(op),
        0 < p <= a.len(),
        p % 2 == 1,
    ensures
        term_tail_spec(a + seq![op] + b, p, left) == term_tail_spec(a, p, left),
    decreases a.len() - p,
{
    let s = a + seq![op] + b;
    lemma_extended_index(a, op, b, p);
    if p < a.len() {
        lemma_alternating_at(a, p);
        if is_multiplicative(a[p]) {
            assert(p + 2 <= a.len());
            lemma_alternating_at(a, p + 1);
            lemma_extended_index(a, op, b, p + 1);
            assert(factor_spec(s, p + 1) == factor_spec(a, p + 1));
            lemma_extended_term_tail(
                a,
                op,
                b,
                p + 2,
                Tree::Op(a[p], Box::new(left), Box::new(leaf_of(a[p + 1]))),
            );
        }
    }
}

proof fn lemma_extended_expr_tail(
    a: Seq<TokenKind>,
    op: TokenKind,
    b: Seq<TokenKind>,
    p: int,
    left: Tree,
)
    requires
        alternating(a),
        is_additive(op),
        term_end(a, p),
    ensures
        expr_tail_spec(a + seq![op] + b, p, left) == expr_tail_spec(
            a + seq![op] + b,
            a.len() as int,
            expr_tail_spec(a, p, left)->Some_0.0,
        ),
    decreases a.len() - p,
{
    let s = a + seq![op] + b;
    lemma_alternating_expr_tail(a, p, left);
    lemma_extended_index(a, op, b, p);
    if p < a.len() {
        assert(p + 2 <= a.len());
        lemma_alternating_term(a, p + 1);
        lemma_alternating_at(a, p + 1);
        lemma_extended_index(a, op, b, p + 1);
        assert(factor_spec(s, p + 1) == factor_spec(a, p + 1));
        lemma_extended_term_tail(a, op, b, p + 2, leaf_of(a[p + 1]));
        assert(term_spec(s, p + 1) == term_spec(a, p + 1));
        let (right, p2) = term_spec(a, p + 1)->Some_0;
        lemma_extended_expr_tail(a, op, b, p2, Tree::Op(a[p], Box::new(left), Box::new(right)));
    }
}

/// In any sequence of numbers joined by `+ - * /`, the last `+` or `-` is
/// the root when only `*` and `/` follow it: its left operand is the tree of
/// everything before it and its right operand the product after it. With the
/// grouping of products to the left, this fixes the tree of every such
/// sequence.
pub proof fn lemma_last_additive_operator_is_root(
    a: Seq<TokenKind>,
    op: TokenKind,
    p: Seq<TokenKind>,
)
    requires
        alternating(a),
        is_additive(op),
        operator_chain(p, false),
    ensures
        tree_spec(a) is Some,
        tree_spec(a + seq![op] + p) == Some(
            Tree::Op(
                op,
                Box::new(tree_spec(a)->Some_0),
                Box::new(nested_left(p, ((p.len() - 1) / 2) as nat)),
            ),
        ),
{
    let s = a + seq![op] + p;
    lemma_alternating_complete(a);
    let ta = expr_spec(a, 0)->Some_0.0;
    lemma_alternating_term(a, 0);
    let (l0, p1) = term_spec(a, 0)->Some_0;
    lemma_alternating_at(a, 0);
    lemma_extended_index(a, op, p, 0);
    lemma_extended_term_tail(a, op, p, 1, leaf_of(a[0]));
    assert(term_spec(s, 0) == term_spec(a, 0));
    lemma_extended_expr_tail(a, op, p, p1, l0);
    assert(expr_spec(s, 0) == expr_tail_spec(s, a.len() as int, ta));
    let pre = a + seq![op];
    lemma_product_term(p);
    let tp = nested_left(p, ((p.len() - 1) / 2) as nat);
    lemma_term_in_context(pre, p, Seq::empty(), 0);
    assert(pre + p + Seq::<TokenKind>::empty() =~= s);
    lemma_extended_index(a, op, p, a.len() as int);
    assert(term_spec(s, a.len() + 1int) == Some((tp, s.len() as int)));
    let whole = Tree::Op(op, Box::new(ta), Box::new(tp));
    assert(expr_tail_spec(s, s.len() as int, whole) == Some((whole, s.len() as int)));
}

} // verus!
