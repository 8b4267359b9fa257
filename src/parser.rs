//! Building expression trees from tokens by precedence climbing.

use vstd::prelude::*;
use crate::lexer::{lemma_lex_parenthesized, tokens_of};
use crate::syntax::{toks, ASTNode, Expr, ExpressionTokens, Tok};

verus! {

/// Left and right binding power of a binary operator; `*` and `/` bind
/// tighter than `+` and `-`.
///
/// The right operand of an operator takes in only the operators whose left
/// power exceeds that operator's own left power, so operators of equal
/// precedence group to the left: `a - b - c` is read as `(a - b) - c`.
pub open spec fn binding_power(c: char) -> Option<(int, int)> {
    if c == '+' || c == '-' {
        Some((10, 9))
    } else if c == '*' || c == '/' {
        Some((20, 19))
    } else {
        None
    }
}

/// The expression at `pos` whose operators all bind tighter than `min_bp`,
/// with the position after it; `None` where the tokens there do not form one.
pub open spec fn parse_expr(ts: Seq<Tok>, pos: int, min_bp: int) -> Option<(Expr, int)>
    decreases ts.len() - pos, 1int,
{
    if 0 <= pos <= ts.len() {
        match parse_primary(ts, pos) {
            Some((left, p)) => if pos < p <= ts.len() {
                parse_loop(ts, left, p, min_bp)
            } else {
                None
            },
            None => None,
        }
    } else {
        None
    }
}

/// The operand at `pos`: a number, a variable, a call `name(expr)` or a
/// parenthesised expression.
pub open spec fn parse_primary(ts: Seq<Tok>, pos: int) -> Option<(Expr, int)>
    decreases ts.len() - pos, 0int,
{
    if 0 <= pos < ts.len() {
        match ts[pos] {
            Tok::Number(n) => Some((Expr::Number(n), pos + 1)),
            Tok::Variable(name) => if pos + 1 < ts.len() && ts[pos + 1] is LeftParenthesis {
                match parse_expr(ts, pos + 2, 0) {
                    Some((arg, q)) => if 0 <= q < ts.len() && ts[q] is RightParenthesis {
                        Some((Expr::Function(name, Box::new(arg)), q + 1))
                    } else {
                        None
                    },
                    None => None,
                }
            } else {
                Some((Expr::Variable(name), pos + 1))
            },
            Tok::LeftParenthesis => match parse_expr(ts, pos + 1, 0) {
                Some((inner, q)) => if 0 <= q < ts.len() && ts[q] is RightParenthesis {
                    Some((inner, q + 1))
                } else {
                    None
                },
                None => None,
            },
            _ => None,
        }
    } else {
        None
    }
}

/// Folds into `left` each following operator that binds tighter than
/// `min_bp`, with its right operand.
pub open spec fn parse_loop(ts: Seq<Tok>, left: Expr, p: int, min_bp: int) -> Option<(Expr, int)>
    decreases ts.len() - p, 2int,
{
    if 0 <= p < ts.len() {
        match ts[p] {
            Tok::Operator(op) => match binding_power(op) {
                Some((lbp, _)) => if lbp > min_bp {
                    match parse_expr(ts, p + 1, lbp) {
                        Some((right, q)) => if p < q <= ts.len() {
                            parse_loop(
                                ts,
                                Expr::Operator(op, Box::new(left), Box::new(right)),
                                q,
                                min_bp,
                            )
                        } else {
                            None
                        },
                        None => None,
                    }
                } else {
                    Some((left, p))
                },
                None => Some((left, p)),
            },
            _ => Some((left, p)),
        }
    } else {
        Some((left, p))
    }
}

/// The tree that a whole token sequence starts with.
pub open spec fn parse_tokens(ts: Seq<Tok>) -> Option<(Expr, int)> {
    parse_expr(ts, 0, 0)
}

/// `u` holds `ts` from position `off` on, followed by a right parenthesis
/// or by nothing.
pub open spec fn embeds(ts: Seq<Tok>, u: Seq<Tok>, off: int) -> bool {
    &&& 0 <= off
    &&& off + ts.len() <= u.len()
    &&& forall|k: int| 0 <= k < ts.len() ==> u[off + k] == #[trigger] ts[k]
    &&& off + ts.len() < u.len() ==> u[off + ts.len()] is RightParenthesis
}

proof fn lemma_embed_expr(ts: Seq<Tok>, u: Seq<Tok>, off: int, pos: int, min_bp: int)
    requires
        embeds(ts, u, off),
        parse_expr(ts, pos, min_bp) is Some,
    ensures
        parse_expr(u, off + pos, min_bp) == Some(
            (parse_expr(ts, pos, min_bp)->Some_0.0, off + parse_expr(ts, pos, min_bp)->Some_0.1),
        ),
    decreases ts.len() - pos, 1int,
{
    let (left, p) = parse_primary(ts, pos)->Some_0;
    lemma_embed_primary(ts, u, off, pos);
    lemma_embed_loop(ts, u, off, left, p, min_bp);
}

proof fn lemma_embed_primary(ts: Seq<Tok>, u: Seq<Tok>, off: int, pos: int)
    requires
        embeds(ts, u, off),
        parse_primary(ts, pos) is Some,
    ensures
        parse_primary(u, off + pos) == Some(
            (parse_primary(ts, pos)->Some_0.0, off + parse_primary(ts, pos)->Some_0.1),
        ),
    decreases ts.len() - pos, 0int,
{
    assert(u[off + pos] == ts[pos]);
    match ts[pos] {
        Tok::Variable(name) => {
            if pos + 1 < ts.len() && ts[pos + 1] is LeftParenthesis {
                assert(u[off + pos + 1] == ts[pos + 1]);
                lemma_embed_expr(ts, u, off, pos + 2, 0);
                let q = parse_expr(ts, pos + 2, 0)->Some_0.1;
                assert(u[off + q] == ts[q]);
            } else if pos + 1 < ts.len() {
                assert(u[off + pos + 1] == ts[pos + 1]);
            }
        },
        Tok::LeftParenthesis => {
            lemma_embed_expr(ts, u, off, pos + 1, 0);
            let q = parse_expr(ts, pos + 1, 0)->Some_0.1;
            assert(u[off + q] == ts[q]);
        },
        _ => {},
    }
}

proof fn lemma_embed_loop(ts: Seq<Tok>, u: Seq<Tok>, off: int, left: Expr, p: int, min_bp: int)
    requires
        embeds(ts, u, off),
        0 <= p <= ts.len(),
        parse_loop(ts, left, p, min_bp) is Some,
    ensures
        parse_loop(u, left, off + p, min_bp) == Some(
            (parse_loop(ts, left, p, min_bp)->Some_0.0, off + parse_loop(ts, left, p, min_bp)->Some_0.1),
        ),
    decreases ts.len() - p, 2int,
{
    if p < ts.len() {
        assert(u[off + p] == ts[p]);
        if let Tok::Operator(op) = ts[p] {
            if let Some((lbp, _)) = binding_power(op) {
                if lbp > min_bp {
                    lemma_embed_expr(ts, u, off, p + 1, lbp);
                    let (right, q) = parse_expr(ts, p + 1, lbp)->Some_0;
                    lemma_embed_loop(
                        ts,
                        u,
                        off,
                        Expr::Operator(op, Box::new(left), Box::new(right)),
                        q,
                        min_bp,
                    );
                }
            }
        }
    }
}

/// Putting parentheses around a token sequence that parses as a whole
/// gives the same tree.
pub proof fn lemma_parenthesized_tokens(ts: Seq<Tok>)
    requires
        parse_tokens(ts) is Some,
        parse_tokens(ts)->Some_0.1 == ts.len(),
    ensures
        parse_tokens(seq![Tok::LeftParenthesis] + ts + seq![Tok::RightParenthesis]) == Some(
            (parse_tokens(ts)->Some_0.0, ts.len() + 2int),
        ),
{
    let u = seq![Tok::LeftParenthesis] + ts + seq![Tok::RightParenthesis];
    assert(embeds(ts, u, 1));
    lemma_embed_expr(ts, u, 1, 0, 0);
    assert(u[ts.len() + 1int] is RightParenthesis);
    assert(u[0] is LeftParenthesis);
}

/// `a` binds tighter than `b`: its left binding power is greater.
pub open spec fn binds_tighter(a: char, b: char) -> bool {
    binding_power(a) is Some && binding_power(b) is Some && binding_power(a)->Some_0.0
        > binding_power(b)->Some_0.0
}

/// No binary operator in `e` has as right operand a binary operator that
/// binds no tighter than itself.
pub open spec fn groups_left(e: Expr) -> bool
    decreases e,
{
    match e {
        Expr::Operator(op, l, r) => groups_left(*l) && groups_left(*r) && match *r {
            Expr::Operator(op2, _, _) => binds_tighter(op2, op),
            _ => true,
        },
        Expr::UnaryOperator(_, x) => groups_left(*x),
        Expr::Function(_, x) => groups_left(*x),
        _ => true,
    }
}

/// `e` is no binary operator, or one whose left power exceeds `min_bp`.
pub open spec fn top_above(e: Expr, min_bp: int) -> bool {
    match e {
        Expr::Operator(op, _, _) => binding_power(op) is Some && binding_power(op)->Some_0.0
            > min_bp,
        _ => true,
    }
}

pub open spec fn no_parentheses(ts: Seq<Tok>) -> bool {
    forall|k: int| 0 <= k < ts.len() ==> !(#[trigger] ts[k] is LeftParenthesis) && !(
    ts[k] is RightParenthesis)
}

proof fn lemma_groups_expr(ts: Seq<Tok>, pos: int, min_bp: int)
    requires
        no_parentheses(ts),
        parse_expr(ts, pos, min_bp) is Some,
    ensures
        groups_left(parse_expr(ts, pos, min_bp)->Some_0.0),
        top_above(parse_expr(ts, pos, min_bp)->Some_0.0, min_bp),
    decreases ts.len() - pos, 1int,
{
    let (left, p) = parse_primary(ts, pos)->Some_0;
    assert(!(ts[pos] is LeftParenthesis));
    if pos + 1 < ts.len() {
        assert(!(ts[pos + 1] is LeftParenthesis));
    }
    lemma_groups_loop(ts, left, p, min_bp);
}

proof fn lemma_groups_loop(ts: Seq<Tok>, left: Expr, p: int, min_bp: int)
    requires
        no_parentheses(ts),
        0 <= p <= ts.len(),
        groups_left(left),
        top_above(left, min_bp),
        parse_loop(ts, left, p, min_bp) is Some,
    ensures
        groups_left(parse_loop(ts, left, p, min_bp)->Some_0.0),
        top_above(parse_loop(ts, left, p, min_bp)->Some_0.0, min_bp),
    decreases ts.len() - p, 2int,
{
    if p < ts.len() {
        if let Tok::Operator(op) = ts[p] {
            if let Some((lbp, _)) = binding_power(op) {
                if lbp > min_bp {
                    lemma_groups_expr(ts, p + 1, lbp);
                    let (right, q) = parse_expr(ts, p + 1, lbp)->Some_0;
                    lemma_groups_loop(
                        ts,
                        Expr::Operator(op, Box::new(left), Box::new(right)),
                        q,
                        min_bp,
                    );
                }
            }
        }
    }
}

/// Without parentheses, operators of equal precedence group to the left:
/// in the tree read from such tokens, no operator has as right operand an
/// operator that binds no tighter than itself.
pub proof fn lemma_groups_to_the_left(ts: Seq<Tok>)
    requires
        no_parentheses(ts),
        parse_tokens(ts) is Some,
    ensures
        groups_left(parse_tokens(ts)->Some_0.0),
{
    lemma_groups_expr(ts, 0, 0);
}

/// Where the text `s` is read and parsed as a whole, the text `(s)` is too,
/// and gives the same tree.
pub proof fn lemma_parenthesized(s: Seq<char>)
    requires
        tokens_of(s) is Ok,
        parse_tokens(tokens_of(s)->Ok_0) is Some,
        parse_tokens(tokens_of(s)->Ok_0)->Some_0.1 == tokens_of(s)->Ok_0.len(),
    ensures
        tokens_of(seq!['('] + s + seq![')']) is Ok,
        parse_tokens(tokens_of(seq!['('] + s + seq![')'])->Ok_0) == Some(
            (
                parse_tokens(tokens_of(s)->Ok_0)->Some_0.0,
                tokens_of(seq!['('] + s + seq![')'])->Ok_0.len() as int,
            ),
        ),
{
    lemma_lex_parenthesized(s);
    lemma_parenthesized_tokens(tokens_of(s)->Ok_0);
}

/// The binding powers of the binary operators.
pub struct BindPower {
    pub operator: char,
    pub lbp: i32,
    pub rbp: i32,
}

impl BindPower {
    /// Left and right binding power of `ch`; `None` for a character that is
    /// no binary operator.
    pub fn get_bind_power(ch: char) -> (r: Option<(i32, i32)>)
        ensures
            match binding_power(ch) {
                Some((l, rb)) => r == Some((l as i32, rb as i32)),
                None => r is None,
            },
    {
        match ch {
            '+' | '-' => Some((10, 9)),
            '*' | '/' => Some((20, 19)),
            _ => None,
        }
    }
}

/// Reads an expression tree from a sequence of tokens.
pub struct Parser {
    position: usize,
    tokens: Vec<ExpressionTokens>,
}

impl Parser {
    /// The models of the tokens.
    pub closed spec fn items(&self) -> Seq<Tok> {
        toks(self.tokens@)
    }

    /// The position of the next token to read.
    pub closed spec fn pos(&self) -> int {
        self.position as int
    }

    pub closed spec fn wf(&self) -> bool {
        self.position <= self.tokens@.len()
    }

    /// A parser at the first of `tokens`.
    pub fn new(tokens: Vec<ExpressionTokens>) -> (r: Parser)
        ensures
            r.wf(),
            r.items() == toks(tokens@),
            r.pos() == 0,
    {
        Parser { position: 0, tokens }
    }

    fn peek(&self) -> (r: Option<&ExpressionTokens>)
        requires
            self.wf(),
        ensures
            match r {
                Some(t) => self.pos() < self.items().len() && t@ == self.items()[self.pos()],
                None => self.pos() == self.items().len(),
            },
    {
        if self.position < self.tokens.len() {
            Some(&self.tokens[self.position])
        } else {
            None
        }
    }

    fn advance(&mut self)
        requires
            old(self).wf(),
            old(self).pos() < old(self).items().len(),
        ensures
            final(self).wf(),
            final(self).items() == old(self).items(),
            final(self).pos() == old(self).pos() + 1,
    {
        let n = self.tokens.len();
        assert(self.position < n);
        self.position += 1;
    }

    fn next_is_left_parenthesis(&self) -> (b: bool)
        requires
            self.wf(),
        ensures
            b == (self.pos() < self.items().len() && self.items()[self.pos()] is LeftParenthesis),
    {
        match self.peek() {
            Some(ExpressionTokens::LeftParenthesis) => true,
            _ => false,
        }
    }

    fn next_is_right_parenthesis(&self) -> (b: bool)
        requires
            self.wf(),
        ensures
            b == (self.pos() < self.items().len() && self.items()[self.pos()] is RightParenthesis),
    {
        match self.peek() {
            Some(ExpressionTokens::RightParenthesis) => true,
            _ => false,
        }
    }

    /// Reads the expression here whose operators all bind tighter than
    /// `min_bp`.
    fn parse_expression(&mut self, min_bp: i32) -> (r: Option<ASTNode>)
        requires
            old(self).wf(),
        ensures
            final(self).wf(),
            final(self).items() == old(self).items(),
            match parse_expr(old(self).items(), old(self).pos(), min_bp as int) {
                Some((t, e)) => r matches Some(a) && a.expr() == t && final(self).pos() == e,
                None => r is None,
            },
            r is Some ==> old(self).pos() < final(self).pos(),
        decreases old(self).items().len() - old(self).pos(),
    {
        let ghost ts = self.items();
        let ghost start = self.pos();
        let mut left = match self.peek() {
            Some(ExpressionTokens::Number(n)) => {
                let v = *n;
                self.advance();
                ASTNode::Number(v)
            },
            Some(ExpressionTokens::Variable(name)) => {
                let name = name.clone();
                self.advance();
                if self.next_is_left_parenthesis() {
                    self.advance();
                    let argument = match self.parse_expression(0) {
                        Some(a) => a,
                        None => {
                            return None;
                        },
                    };
                    if !self.next_is_right_parenthesis() {
                        return None;
                    }
                    self.advance();
                    ASTNode::Function { name, argument: Box::new(argument) }
                } else {
                    ASTNode::Variable(name)
                }
            },
            Some(ExpressionTokens::LeftParenthesis) => {
                self.advance();
                let inner = match self.parse_expression(0) {
                    Some(a) => a,
                    None => {
                        return None;
                    },
                };
                if !self.next_is_right_parenthesis() {
                    return None;
                }
                self.advance();
                inner
            },
            _ => {
                return None;
            },
        };
        assert(parse_primary(ts, start) == Some((left.expr(), self.pos())));
        loop
            invariant
                self.wf(),
                self.items() == ts,
                ts == old(self).items(),
                start == old(self).pos(),
                start < self.pos(),
                parse_expr(ts, start, min_bp as int) == parse_loop(
                    ts,
                    left.expr(),
                    self.pos(),
                    min_bp as int,
                ),
            ensures
                parse_loop(ts, left.expr(), self.pos(), min_bp as int) == Some((left.expr(), self.pos())),
            decreases ts.len() - self.pos(),
        {
            let op = match self.peek() {
                Some(ExpressionTokens::Operator(c)) => *c,
                _ => break,
            };
            let (lbp, _) = match BindPower::get_bind_power(op) {
                Some(bp) => bp,
                None => break,
            };
            if lbp <= min_bp {
                break;
            }
            self.advance();
            let right = match self.parse_expression(lbp) {
                Some(r) => r,
                None => {
                    return None;
                },
            };
            left = ASTNode::Operator { operator: op, left: Box::new(left), right: Box::new(right) };
        }
        Some(left)
    }

    /// Reads one expression from the current position. Tokens after it are
    /// left unread.
    pub fn parse(&mut self) -> (r: Option<ASTNode>)
        requires
            old(self).wf(),
        ensures
            final(self).wf(),
            final(self).items() == old(self).items(),
            match parse_expr(old(self).items(), old(self).pos(), 0) {
                Some((t, e)) => r matches Some(a) && a.expr() == t && final(self).pos() == e,
                None => r is None,
            },
    {
        self.parse_expression(0)
    }
}

} // verus!
