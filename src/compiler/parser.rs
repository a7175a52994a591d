use vstd::prelude::*;
use crate::compiler::lexer::{token_views, Token, TokenView};
use crate::text::str_eq;

verus! {

/// A node of the syntax tree; each node owns its children.
#[derive(Debug, PartialEq)]
pub enum ASTNode {
    VariableDeclaration { mutable: bool, name: String, value: Option<Box<ASTNode>> },
    Assignment { target: String, value: Box<ASTNode> },
    BinaryOp { op: String, left: Box<ASTNode>, right: Box<ASTNode> },
    Identifier(String),
    Number(i32),
    ForLoop {
        variable: String,
        start: Box<ASTNode>,
        end: Box<ASTNode>,
        inclusive: bool,
        body: Vec<ASTNode>,
    },
    Print(Vec<ASTNode>),
}

/// A syntax tree as a mathematical value.
pub enum NodeView {
    VariableDeclaration { mutable: bool, name: Seq<char>, value: Option<Box<NodeView>> },
    Assignment { target: Seq<char>, value: Box<NodeView> },
    BinaryOp { op: Seq<char>, left: Box<NodeView>, right: Box<NodeView> },
    Identifier(Seq<char>),
    Number(i32),
    ForLoop {
        variable: Seq<char>,
        start: Box<NodeView>,
        end: Box<NodeView>,
        inclusive: bool,
        body: Seq<NodeView>,
    },
    Print(Seq<NodeView>),
}

/// The value of a syntax tree.
pub open spec fn node_view(n: ASTNode) -> NodeView
    decreases n,
{
    proof {
        broadcast use vstd::std_specs::vec::axiom_vec_decreases_to_view;
    }
    match n {
        ASTNode::VariableDeclaration { mutable, name, value } => NodeView::VariableDeclaration {
            mutable,
            name: name@,
            value: match value {
                Some(v) => Some(Box::new(node_view(*v))),
                None => None,
            },
        },
        ASTNode::Assignment { target, value } => NodeView::Assignment {
            target: target@,
            value: Box::new(node_view(*value)),
        },
        ASTNode::BinaryOp { op, left, right } => NodeView::BinaryOp {
            op: op@,
            left: Box::new(node_view(*left)),
            right: Box::new(node_view(*right)),
        },
        ASTNode::Identifier(s) => NodeView::Identifier(s@),
        ASTNode::Number(n) => NodeView::Number(n),
        ASTNode::ForLoop { variable, start, end, inclusive, body } => NodeView::ForLoop {
            variable: variable@,
            start: Box::new(node_view(*start)),
            end: Box::new(node_view(*end)),
            inclusive,
            body: node_views(body@),
        },
        ASTNode::Print(args) => NodeView::Print(node_views(args@)),
    }
}

/// The values of a sequence of syntax trees.
pub open spec fn node_views(s: Seq<ASTNode>) -> Seq<NodeView>
    decreases s,
{
    if s.len() == 0 {
        Seq::empty()
    } else {
        proof {
            broadcast use vstd::seq::axiom_seq_index_decreases, vstd::seq::axiom_seq_subrange_decreases;
        }
        node_views(s.subrange(0, s.len() - 1)).push(node_view(s[s.len() - 1]))
    }
}

impl View for ASTNode {
    type V = NodeView;

    open spec fn view(&self) -> NodeView {
        node_view(*self)
    }
}

pub proof fn lemma_node_views_push(s: Seq<ASTNode>, x: ASTNode)
    ensures
        node_views(s.push(x)) == node_views(s).push(x@),
{
    assert(s.push(x).subrange(0, s.len() as int) =~= s);
}

pub open spec fn opt_view(r: Option<ASTNode>) -> Option<NodeView> {
    match r {
        Some(n) => Some(n@),
        None => None,
    }
}

/// A parse result: the node, if one was recognised, and where parsing
/// stopped. A failed rule stops where it gave up.
pub type Parsed = (Option<NodeView>, int);

pub open spec fn op_text(t: TokenView) -> Seq<char> {
    match t {
        TokenView::Operator(op) => op,
        _ => Seq::empty(),
    }
}

pub open spec fn is_op(t: TokenView, a: Seq<char>, b: Seq<char>) -> bool {
    t is Operator && (op_text(t) == a || op_text(t) == b)
}

pub open spec fn primary_spec(t: Seq<TokenView>, p: int) -> Parsed {
    if 0 <= p < t.len() {
        (
            match t[p] {
                TokenView::Number(n) => Some(NodeView::Number(n)),
                TokenView::Identifier(s) => Some(NodeView::Identifier(s)),
                _ => None,
            },
            p + 1,
        )
    } else {
        (None, p)
    }
}

pub open spec fn binary(op: Seq<char>, left: NodeView, right: NodeView) -> NodeView {
    NodeView::BinaryOp { op, left: Box::new(left), right: Box::new(right) }
}

/// `('*' | '/') primary` repeated, folded to the left onto `left`.
pub open spec fn factor_rest(t: Seq<TokenView>, p: int, left: NodeView) -> Parsed
    decreases t.len() - p,
{
    if 0 <= p < t.len() && is_op(t[p], "*"@, "/"@) {
        let (r, q) = primary_spec(t, p + 1);
        match r {
            None => (None, q),
            Some(right) => factor_rest(t, q, binary(op_text(t[p]), left, right)),
        }
    } else {
        (Some(left), p)
    }
}

pub open spec fn factor_spec(t: Seq<TokenView>, p: int) -> Parsed {
    let (r, q) = primary_spec(t, p);
    match r {
        None => (None, q),
        Some(left) => factor_rest(t, q, left),
    }
}

proof fn lemma_factor_rest_advances(t: Seq<TokenView>, p: int, left: NodeView)
    ensures
        factor_rest(t, p, left).1 >= p,
        0 <= p <= t.len() ==> factor_rest(t, p, left).1 <= t.len(),
    decreases t.len() - p,
{
    if 0 <= p < t.len() && is_op(t[p], "*"@, "/"@) {
        let (r, q) = primary_spec(t, p + 1);
        if let Some(right) = r {
            lemma_factor_rest_advances(t, q, binary(op_text(t[p]), left, right));
        }
    }
}

pub proof fn lemma_factor_advances(t: Seq<TokenView>, p: int)
    ensures
        factor_spec(t, p).1 >= p,
        0 <= p <= t.len() ==> factor_spec(t, p).1 <= t.len(),
{
    let (r, q) = primary_spec(t, p);
    if let Some(left) = r {
        lemma_factor_rest_advances(t, q, left);
    }
}

/// `('+' | '-') factor` repeated, folded to the left onto `left`.
pub open spec fn term_rest(t: Seq<TokenView>, p: int, left: NodeView) -> Parsed
    decreases t.len() - p,
{
    if 0 <= p < t.len() && is_op(t[p], "+"@, "-"@) {
        proof {
            lemma_factor_advances(t, p + 1);
        }
        let (r, q) = factor_spec(t, p + 1);
        match r {
            None => (None, q),
            Some(right) => term_rest(t, q, binary(op_text(t[p]), left, right)),
        }
    } else {
        (Some(left), p)
    }
}

/// An expression: `factor (('+' | '-') factor)*`.
pub open spec fn expression_spec(t: Seq<TokenView>, p: int) -> Parsed {
    let (r, q) = factor_spec(t, p);
    match r {
        None => (None, q),
        Some(left) => term_rest(t, q, left),
    }
}

proof fn lemma_term_rest_advances(t: Seq<TokenView>, p: int, left: NodeView)
    ensures
        term_rest(t, p, left).1 >= p,
        0 <= p <= t.len() ==> term_rest(t, p, left).1 <= t.len(),
    decreases t.len() - p,
{
    if 0 <= p < t.len() && is_op(t[p], "+"@, "-"@) {
        lemma_factor_advances(t, p + 1);
        let (r, q) = factor_spec(t, p + 1);
        if let Some(right) = r {
            lemma_term_rest_advances(t, q, binary(op_text(t[p]), left, right));
        }
    }
}

pub proof fn lemma_expression_advances(t: Seq<TokenView>, p: int)
    ensures
        expression_spec(t, p).1 >= p,
        0 <= p <= t.len() ==> expression_spec(t, p).1 <= t.len(),
{
    lemma_factor_advances(t, p);
    let (r, q) = factor_spec(t, p);
    if let Some(left) = r {
        lemma_term_rest_advances(t, q, left);
    }
}

pub open spec fn is_keyword(t: Seq<TokenView>, p: int, kw: Seq<char>) -> bool {
    0 <= p < t.len() && t[p] == TokenView::Keyword(kw)
}

pub open spec fn is_identifier(t: Seq<TokenView>, p: int) -> bool {
    0 <= p < t.len() && t[p] is Identifier
}

pub open spec fn ident_text(t: TokenView) -> Seq<char> {
    match t {
        TokenView::Identifier(s) => s,
        _ => Seq::empty(),
    }
}

pub open spec fn is_token(t: Seq<TokenView>, p: int, x: TokenView) -> bool {
    0 <= p < t.len() && t[p] == x
}

/// `mut name ['=' expression]`, at a `mut` keyword.
pub open spec fn declaration_spec(t: Seq<TokenView>, p: int) -> Parsed {
    if !is_identifier(t, p + 1) {
        (None, p + 1)
    } else if is_token(t, p + 2, TokenView::Operator("="@)) {
        let (r, q) = expression_spec(t, p + 3);
        match r {
            None => (None, q),
            Some(e) => (
                Some(
                    NodeView::VariableDeclaration {
                        mutable: true,
                        name: ident_text(t[p + 1]),
                        value: Some(Box::new(e)),
                    },
                ),
                q,
            ),
        }
    } else {
        (
            Some(NodeView::VariableDeclaration { mutable: true, name: ident_text(t[p + 1]), value: None }),
            p + 2,
        )
    }
}

/// `name '=' expression`, at an identifier.
pub open spec fn assignment_spec(t: Seq<TokenView>, p: int) -> Parsed {
    if !is_token(t, p + 1, TokenView::Operator("="@)) {
        (None, p + 1)
    } else {
        let (r, q) = expression_spec(t, p + 2);
        match r {
            None => (None, q),
            Some(e) => (Some(NodeView::Assignment { target: ident_text(t[p]), value: Box::new(e) }), q),
        }
    }
}

/// `print expression`, at a `print` keyword.
pub open spec fn print_spec(t: Seq<TokenView>, p: int) -> Parsed {
    let (r, q) = expression_spec(t, p + 1);
    match r {
        None => (None, q),
        Some(e) => (Some(NodeView::Print(seq![e])), q),
    }
}

/// One statement at `p`, if a statement starts there.
pub open spec fn statement_spec(t: Seq<TokenView>, p: int) -> Parsed
    decreases t.len() - p, 1int,
{
    if !(0 <= p < t.len()) {
        (None, p)
    } else if t[p] == TokenView::Keyword("mut"@) {
        declaration_spec(t, p)
    } else if t[p] == TokenView::Keyword("for"@) {
        for_spec(t, p)
    } else if t[p] == TokenView::Keyword("print"@) {
        print_spec(t, p)
    } else if t[p] is Identifier {
        assignment_spec(t, p)
    } else {
        (None, p)
    }
}

/// `for name in expression ('..' | '..=') expression ':' Newline` and an
/// indented block, at a `for` keyword.
pub open spec fn for_spec(t: Seq<TokenView>, p: int) -> Parsed
    decreases t.len() - p, 0int,
{
    if !(0 <= p < t.len()) || !is_identifier(t, p + 1) {
        (None, p + 1)
    } else if !is_keyword(t, p + 2, "in"@) {
        (None, p + 2)
    } else {
        proof {
            lemma_expression_advances(t, p + 3);
        }
        let (st, q) = expression_spec(t, p + 3);
        match st {
            None => (None, q),
            Some(start) => if !(is_token(t, q, TokenView::RangeInclusive) || is_token(t, q, TokenView::RangeExclusive)) {
                (None, q)
            } else {
                proof {
                    lemma_expression_advances(t, q + 1);
                }
                let inclusive = t[q] == TokenView::RangeInclusive;
                let (en, q2) = expression_spec(t, q + 1);
                match en {
                    None => (None, q2),
                    Some(end) => if !is_token(t, q2, TokenView::Colon) {
                        (None, q2)
                    } else if !is_token(t, q2 + 1, TokenView::Newline) {
                        (None, q2 + 1)
                    } else if is_token(t, q2 + 2, TokenView::Indent) {
                        let (body, r) = block_spec(t, q2 + 3);
                        let r2 = if is_token(t, r, TokenView::Dedent) {
                            r + 1
                        } else {
                            r
                        };
                        (Some(for_node(ident_text(t[p + 1]), start, end, inclusive, body)), r2)
                    } else {
                        (Some(for_node(ident_text(t[p + 1]), start, end, inclusive, Seq::empty())), q2 + 2)
                    },
                }
            },
        }
    }
}

pub open spec fn for_node(
    variable: Seq<char>,
    start: NodeView,
    end: NodeView,
    inclusive: bool,
    body: Seq<NodeView>,
) -> NodeView {
    NodeView::ForLoop { variable, start: Box::new(start), end: Box::new(end), inclusive, body }
}

/// The statements of an indented block from `p` up to its closing `Dedent`
/// or the end of input; a token that starts no statement is dropped.
pub open spec fn block_spec(t: Seq<TokenView>, p: int) -> (Seq<NodeView>, int)
    decreases t.len() - p, 2int,
{
    if !(0 <= p < t.len()) || t[p] == TokenView::Dedent {
        (Seq::empty(), p)
    } else {
        let (s, q) = statement_spec(t, p);
        match s {
            // A statement that is recognised has consumed tokens, and one
            // that is not has left the position where it was or further on:
            // the guards only bound the recursion.
            Some(n) => if !(p < q <= t.len()) {
                (Seq::empty(), p)
            } else {
                let (rest, r) = block_spec(t, q);
                (seq![n] + rest, r)
            },
            None => if !(p <= q) {
                (Seq::empty(), p)
            } else if q >= t.len() {
                (Seq::empty(), q)
            } else {
                block_spec(t, q + 1)
            },
        }
    }
}

/// The statements of `t` from `p` to the end; a token that starts no
/// statement is dropped.
pub open spec fn program_spec(t: Seq<TokenView>, p: int) -> Seq<NodeView>
    decreases t.len() - p,
{
    if !(0 <= p < t.len()) {
        Seq::empty()
    } else {
        let (s, q) = statement_spec(t, p);
        match s {
            // As in `block_spec`, the guards only bound the recursion.
            Some(n) => if !(p < q <= t.len()) {
                Seq::empty()
            } else {
                seq![n] + program_spec(t, q)
            },
            None => if !(p <= q) || q >= t.len() {
                Seq::empty()
            } else {
                program_spec(t, q + 1)
            },
        }
    }
}

pub struct Parser {
    tokens: Vec<Token>,
    position: usize,
}

impl Parser {
    /// The tokens as values.
    pub closed spec fn input(&self) -> Seq<TokenView> {
        token_views(self.tokens@)
    }

    pub closed spec fn pos(&self) -> int {
        self.position as int
    }

    pub closed spec fn wf(&self) -> bool {
        self.position <= self.tokens@.len()
    }

    pub fn new(tokens: Vec<Token>) -> (r: Self)
        ensures
            r.wf(),
            r.input() == token_views(tokens@),
            r.pos() == 0,
    {
        Parser { tokens, position: 0 }
    }

    /// Parses statements up to the end of the tokens: for a new parser, the
    /// whole program. A token that starts no statement is skipped.
    pub fn parse(&mut self) -> (r: Vec<ASTNode>)
        requires
            old(self).wf(),
        ensures
            node_views(r@) == program_spec(old(self).input(), old(self).pos()),
    {
        let mut statements: Vec<ASTNode> = Vec::new();
        let ghost t = self.input();
        let ghost first = self.pos();
        assert(node_views(statements@) == Seq::<NodeView>::empty());
        assert(node_views(statements@) + program_spec(t, first) =~= program_spec(t, first));
        while !self.is_at_end()
            invariant
                self.wf(),
                self.input() == t,
                t == old(self).input(),
                first == old(self).pos(),
                program_spec(t, first) == node_views(statements@) + program_spec(t, self.pos()),
            decreases self.tokens@.len() - self.position,
        {
            let ghost p = self.pos();
            let ghost before = node_views(statements@);
            if let Some(stmt) = self.statement() {
                let ghost sb = statements@;
                statements.push(stmt);
                proof {
                    lemma_node_views_push(sb, stmt);
                }
                let ghost rest = program_spec(t, self.pos());
                assert(node_views(statements@) + rest =~= before + (seq![stmt@] + rest));
            } else {
                if self.position < self.tokens.len() {
                    self.advance();
                } else {
                    assert(program_spec(t, p) == Seq::<NodeView>::empty());
                    assert(program_spec(t, self.pos()) == Seq::<NodeView>::empty());
                }
            }
        }
        assert(program_spec(t, self.pos()) == Seq::<NodeView>::empty());
        assert(node_views(statements@) + Seq::<NodeView>::empty() =~= node_views(statements@));
        statements
    }

    fn statement(&mut self) -> (r: Option<ASTNode>)
        requires
            old(self).wf(),
        ensures
            final(self).wf(),
            final(self).tokens == old(self).tokens,
            (opt_view(r), final(self).pos()) == statement_spec(old(self).input(), old(self).pos()),
            final(self).pos() >= old(self).pos(),
            r is Some ==> final(self).pos() > old(self).pos(),
        decreases old(self).tokens@.len() - old(self).position, 1int,
    {
        let ghost t = self.input();
        let p = self.position;
        if p >= self.tokens.len() {
            return None;
        }
        assert(t[p as int] == self.tokens@[p as int]@);
        let tok = &self.tokens[p];
        if self.keyword_at(p, "mut") {
            self.variable_declaration()
        } else if self.keyword_at(p, "for") {
            self.for_loop()
        } else if self.keyword_at(p, "print") {
            self.print_statement()
        } else if let Token::Identifier(_) = tok {
            self.assignment()
        } else {
            None
        }
    }

    /// Whether the token at `p` is the keyword `kw`.
    fn keyword_at(&self, p: usize, kw: &str) -> (r: bool)
        requires
            p < self.tokens@.len(),
        ensures
            r == (self.input()[p as int] == TokenView::Keyword(kw@)),
    {
        assert(self.input()[p as int] == self.tokens@[p as int]@);
        match &self.tokens[p] {
            Token::Keyword(k) => str_eq(k.as_str(), kw),
            _ => false,
        }
    }

    fn token_at(&self, p: usize, expected: &Token) -> (r: bool)
        ensures
            r == is_token(self.input(), p as int, expected@),
    {
        if p >= self.tokens.len() {
            return false;
        }
        assert(self.input()[p as int] == self.tokens@[p as int]@);
        match (&self.tokens[p], expected) {
            (Token::Keyword(a), Token::Keyword(b)) => str_eq(a.as_str(), b.as_str()),
            (Token::Identifier(a), Token::Identifier(b)) => str_eq(a.as_str(), b.as_str()),
            (Token::Operator(a), Token::Operator(b)) => str_eq(a.as_str(), b.as_str()),
            (Token::Number(a), Token::Number(b)) => *a == *b,
            (Token::Colon, Token::Colon) => true,
            (Token::RangeExclusive, Token::RangeExclusive) => true,
            (Token::RangeInclusive, Token::RangeInclusive) => true,
            (Token::Newline, Token::Newline) => true,
            (Token::Indent, Token::Indent) => true,
            (Token::Dedent, Token::Dedent) => true,
            (Token::EOF, Token::EOF) => true,
            _ => false,
        }
    }

    fn for_loop(&mut self) -> (r: Option<ASTNode>)
        requires
            old(self).wf(),
            old(self).pos() < old(self).input().len(),
        ensures
            final(self).wf(),
            final(self).tokens == old(self).tokens,
            (opt_view(r), final(self).pos()) == for_spec(old(self).input(), old(self).pos()),
            final(self).pos() >= old(self).pos(),
            r is Some ==> final(self).pos() > old(self).pos(),
        decreases old(self).tokens@.len() - old(self).position, 0int,
    {
        let ghost t = self.input();
        let ghost p = self.pos();
        self.advance();
        let variable = match self.consume_identifier() {
            Some(name) => name,
            None => return None,
        };
        if !self.consume_keyword("in") {
            return None;
        }
        proof {
            lemma_expression_advances(t, p + 3);
        }
        let start = self.expression()?;
        let q = self.position;
        let inclusive = if self.token_at(q, &Token::RangeInclusive) {
            true
        } else if self.token_at(q, &Token::RangeExclusive) {
            false
        } else {
            return None;
        };
        self.advance();
        proof {
            lemma_expression_advances(t, q + 1);
        }
        let end = self.expression()?;
        if !self.consume(&Token::Colon) {
            return None;
        }
        if !self.consume(&Token::Newline) {
            return None;
        }
        let mut body: Vec<ASTNode> = Vec::new();
        let ghost q2 = self.pos() - 2;
        if self.consume(&Token::Indent) {
            let ghost b0 = self.pos();
            assert(node_views(body@) == Seq::<NodeView>::empty());
            assert(node_views(body@) + block_spec(t, b0).0 =~= block_spec(t, b0).0);
            while !self.is_at_end() && !self.token_at(self.position, &Token::Dedent)
                invariant
                    self.wf(),
                    self.tokens == old(self).tokens,
                    t == self.input(),
                    self.pos() >= b0,
                    b0 == q2 + 3,
                    b0 > p,
                    p == old(self).pos(),
                    block_spec(t, b0) == ({
                        let (rest, r) = block_spec(t, self.pos());
                        (node_views(body@) + rest, r)
                    }),
                decreases self.tokens@.len() - self.position,
            {
                let ghost before = node_views(body@);
                let ghost pp = self.pos();
                if let Some(stmt) = self.statement() {
                    let ghost bb = body@;
                    body.push(stmt);
                    proof {
                        lemma_node_views_push(bb, stmt);
                    }
                    let ghost rest = block_spec(t, self.pos()).0;
                    assert(node_views(body@) + rest =~= before + (seq![stmt@] + rest));
                } else {
                    if self.position < self.tokens.len() {
                        self.advance();
                    } else {
                        assert(block_spec(t, self.pos()) == (Seq::<NodeView>::empty(), self.pos()));
                        assert(block_spec(t, pp) == (Seq::<NodeView>::empty(), self.pos()));
                    }
                }
            }
            assert(block_spec(t, self.pos()) == (Seq::<NodeView>::empty(), self.pos()));
            assert(node_views(body@) + Seq::<NodeView>::empty() =~= node_views(body@));
            self.consume(&Token::Dedent);
        }
        let ghost bv = node_views(body@);
        let ghost sv = start@;
        let ghost ev = end@;
        let node = ASTNode::ForLoop {
            variable,
            start: Box::new(start),
            end: Box::new(end),
            inclusive,
            body,
        };
        assert(node@ == for_node(ident_text(t[p + 1]), sv, ev, inclusive, bv));
        Some(node)
    }

    fn advance(&mut self)
        requires
            old(self).wf(),
        ensures
            final(self).wf(),
            final(self).tokens == old(self).tokens,
            final(self).position == if old(self).position < old(self).tokens@.len() {
                old(self).position + 1
            } else {
                old(self).position as int
            },
    {
        if self.position < self.tokens.len() {
            self.position = self.position + 1;
        }
    }

    fn is_at_end(&self) -> (r: bool)
        ensures
            r == (self.position >= self.tokens@.len()),
    {
        self.position >= self.tokens.len()
    }

    /// Moves past the next token if it is `token`.
    fn consume(&mut self, token: &Token) -> (r: bool)
        requires
            old(self).wf(),
        ensures
            final(self).wf(),
            final(self).tokens == old(self).tokens,
            r == is_token(old(self).input(), old(self).pos(), token@),
            final(self).pos() == if r {
                old(self).pos() + 1
            } else {
                old(self).pos()
            },
    {
        if self.position < self.tokens.len() && self.token_at(self.position, token) {
            self.position = self.position + 1;
            true
        } else {
            false
        }
    }

    fn consume_keyword(&mut self, kw: &str) -> (r: bool)
        requires
            old(self).wf(),
        ensures
            final(self).wf(),
            final(self).tokens == old(self).tokens,
            r == is_keyword(old(self).input(), old(self).pos(), kw@),
            final(self).pos() == if r {
                old(self).pos() + 1
            } else {
                old(self).pos()
            },
    {
        if self.position < self.tokens.len() && self.keyword_at(self.position, kw) {
            self.position = self.position + 1;
            true
        } else {
            false
        }
    }

    fn consume_identifier(&mut self) -> (r: Option<String>)
        requires
            old(self).wf(),
        ensures
            final(self).wf(),
            final(self).tokens == old(self).tokens,
            r is Some == is_identifier(old(self).input(), old(self).pos()),
            r matches Some(s) ==> s@ == ident_text(old(self).input()[old(self).pos()]),
            final(self).pos() == if r is Some {
                old(self).pos() + 1
            } else {
                old(self).pos()
            },
    {
        if self.position >= self.tokens.len() {
            return None;
        }
        assert(self.input()[self.pos()] == self.tokens@[self.pos()]@);
        match &self.tokens[self.position] {
            Token::Identifier(name) => {
                let name = name.clone();
                self.position = self.position + 1;
                Some(name)
            },
            _ => None,
        }
    }

    fn variable_declaration(&mut self) -> (r: Option<ASTNode>)
        requires
            old(self).wf(),
            old(self).pos() < old(self).input().len(),
        ensures
            final(self).wf(),
            final(self).tokens == old(self).tokens,
            (opt_view(r), final(self).pos()) == declaration_spec(old(self).input(), old(self).pos()),
            final(self).pos() >= old(self).pos(),
            r is Some ==> final(self).pos() > old(self).pos(),
    {
        let ghost t = self.input();
        let ghost p = self.pos();
        self.advance();
        let name = match self.consume_identifier() {
            Some(name) => name,
            None => return None,
        };
        let value = if self.consume_operator("=") {
            proof {
                lemma_expression_advances(t, p + 3);
            }
            Some(Box::new(self.expression()?))
        } else {
            None
        };
        Some(ASTNode::VariableDeclaration { mutable: true, name, value })
    }

    fn assignment(&mut self) -> (r: Option<ASTNode>)
        requires
            old(self).wf(),
            old(self).pos() < old(self).input().len(),
            old(self).input()[old(self).pos()] is Identifier,
        ensures
            final(self).wf(),
            final(self).tokens == old(self).tokens,
            (opt_view(r), final(self).pos()) == assignment_spec(old(self).input(), old(self).pos()),
            final(self).pos() >= old(self).pos(),
            r is Some ==> final(self).pos() > old(self).pos(),
    {
        let ghost t = self.input();
        let ghost p = self.pos();
        let target = match self.consume_identifier() {
            Some(name) => name,
            None => return None,
        };
        if !self.consume_operator("=") {
            return None;
        }
        proof {
            lemma_expression_advances(t, p + 2);
        }
        let value = Box::new(self.expression()?);
        Some(ASTNode::Assignment { target, value })
    }

    fn print_statement(&mut self) -> (r: Option<ASTNode>)
        requires
            old(self).wf(),
            old(self).pos() < old(self).input().len(),
        ensures
            final(self).wf(),
            final(self).tokens == old(self).tokens,
            (opt_view(r), final(self).pos()) == print_spec(old(self).input(), old(self).pos()),
            final(self).pos() >= old(self).pos(),
            r is Some ==> final(self).pos() > old(self).pos(),
    {
        let ghost t = self.input();
        let ghost p = self.pos();
        self.advance();
        proof {
            lemma_expression_advances(t, p + 1);
        }
        let expr = self.expression()?;
        let ghost ev = expr@;
        let mut args: Vec<ASTNode> = Vec::new();
        proof {
            lemma_node_views_push(args@, expr);
            assert(node_views(args@) == Seq::<NodeView>::empty());
            assert(Seq::<NodeView>::empty().push(ev) =~= seq![ev]);
        }
        args.push(expr);
        let node = ASTNode::Print(args);
        Some(node)
    }

    fn expression(&mut self) -> (r: Option<ASTNode>)
        requires
            old(self).wf(),
        ensures
            final(self).wf(),
            final(self).tokens == old(self).tokens,
            (opt_view(r), final(self).pos()) == expression_spec(old(self).input(), old(self).pos()),
    {
        self.term()
    }

    fn term(&mut self) -> (r: Option<ASTNode>)
        requires
            old(self).wf(),
        ensures
            final(self).wf(),
            final(self).tokens == old(self).tokens,
            (opt_view(r), final(self).pos()) == expression_spec(old(self).input(), old(self).pos()),
    {
        let ghost t = self.input();
        let mut left = self.factor()?;
        loop
            invariant
                self.wf(),
                self.tokens == old(self).tokens,
                t == self.input(),
                expression_spec(t, old(self).pos()) == term_rest(t, self.pos(), left@),
            decreases self.tokens@.len() - self.position,
        {
            let p = self.position;
            if !self.operator_is(p, "+") && !self.operator_is(p, "-") {
                return Some(left);
            }
            let op = self.operator_at(p);
            self.advance();
            proof {
                lemma_factor_advances(t, p + 1);
            }
            let right = self.factor()?;
            left = ASTNode::BinaryOp { op, left: Box::new(left), right: Box::new(right) };
        }
    }

    /// Whether the token at `p` is the operator `op`.
    fn operator_is(&self, p: usize, op: &str) -> (r: bool)
        ensures
            r == is_token(self.input(), p as int, TokenView::Operator(op@)),
    {
        if p >= self.tokens.len() {
            return false;
        }
        assert(self.input()[p as int] == self.tokens@[p as int]@);
        match &self.tokens[p] {
            Token::Operator(o) => str_eq(o.as_str(), op),
            _ => false,
        }
    }

    /// Moves past the next token if it is the operator `op`.
    fn consume_operator(&mut self, op: &str) -> (r: bool)
        requires
            old(self).wf(),
        ensures
            final(self).wf(),
            final(self).tokens == old(self).tokens,
            r == is_token(old(self).input(), old(self).pos(), TokenView::Operator(op@)),
            final(self).pos() == if r {
                old(self).pos() + 1
            } else {
                old(self).pos()
            },
    {
        if self.position < self.tokens.len() && self.operator_is(self.position, op) {
            self.position = self.position + 1;
            true
        } else {
            false
        }
    }

    /// The text of the operator token at `p`.
    fn operator_at(&self, p: usize) -> (r: String)
        requires
            p < self.tokens@.len(),
            self.input()[p as int] is Operator,
        ensures
            r@ == op_text(self.input()[p as int]),
    {
        assert(self.input()[p as int] == self.tokens@[p as int]@);
        match &self.tokens[p] {
            Token::Operator(op) => op.clone(),
            _ => String::new(),
        }
    }

    fn factor(&mut self) -> (r: Option<ASTNode>)
        requires
            old(self).wf(),
        ensures
            final(self).wf(),
            final(self).tokens == old(self).tokens,
            (opt_view(r), final(self).pos()) == factor_spec(old(self).input(), old(self).pos()),
    {
        let ghost t = self.input();
        let mut left = self.primary()?;
        loop
            invariant
                self.wf(),
                self.tokens == old(self).tokens,
                t == self.input(),
                factor_spec(t, old(self).pos()) == factor_rest(t, self.pos(), left@),
            decreases self.tokens@.len() - self.position,
        {
            let p = self.position;
            if !self.operator_is(p, "*") && !self.operator_is(p, "/") {
                return Some(left);
            }
            let op = self.operator_at(p);
            self.advance();
            let right = self.primary()?;
            left = ASTNode::BinaryOp { op, left: Box::new(left), right: Box::new(right) };
        }
    }

    fn primary(&mut self) -> (r: Option<ASTNode>)
        requires
            old(self).wf(),
        ensures
            final(self).wf(),
            final(self).tokens == old(self).tokens,
            (opt_view(r), final(self).pos()) == primary_spec(old(self).input(), old(self).pos()),
    {
        if self.position >= self.tokens.len() {
            return None;
        }
        assert(self.input()[self.pos()] == self.tokens@[self.pos()]@);
        let r = match &self.tokens[self.position] {
            Token::Number(n) => Some(ASTNode::Number(*n)),
            Token::Identifier(name) => Some(ASTNode::Identifier(name.clone())),
            _ => None,
        };
        self.advance();
        r
    }
}

} // verus!
