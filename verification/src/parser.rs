//! The recursive-descent parser: the grammar as spec functions over token
//! sequences, and the parser that follows it.
use vstd::prelude::*;
use crate::ast::{Expr, ExprView, LiteralValue, LiteralView, Stmt, StmtView};
use crate::lexer::{law_tokens_end_with_eof, token_views, tokenize};
use crate::numeral::{is_number_text, reads_as_number};
use crate::text::push_decimal;
use crate::text::decimal;
use crate::token::{Token, TokenType, TokenView};

verus! {

/// A parse error: the token it was found at, and what was expected there.
pub struct ParseError {
    pub token: Token,
    pub message: String,
}

/// A `ParseError` with its parts taken by their views.
pub struct ParseErrorView {
    pub token: TokenView,
    pub message: Seq<char>,
}

impl View for ParseError {
    type V = ParseErrorView;

    open spec fn view(&self) -> ParseErrorView {
        ParseErrorView { token: self.token@, message: self.message@ }
    }
}

/// The levels of binary operators, loosest first.
#[derive(Clone, Copy)]
pub enum BinaryLevel {
    Or,
    And,
    Equality,
    Comparison,
    Term,
    Factor,
}

/// The operators of a level.
pub open spec fn level_ops(level: BinaryLevel) -> Seq<TokenType> {
    match level {
        BinaryLevel::Or => seq![TokenType::Or],
        BinaryLevel::And => seq![TokenType::And],
        BinaryLevel::Equality => seq![TokenType::BangEqual, TokenType::EqualEqual],
        BinaryLevel::Comparison => seq![
            TokenType::Greater,
            TokenType::GreaterEqual,
            TokenType::Less,
            TokenType::LessEqual,
        ],
        BinaryLevel::Term => seq![TokenType::Minus, TokenType::Plus],
        BinaryLevel::Factor => seq![TokenType::Slash, TokenType::Star],
    }
}

/// The level whose expressions are the operands of a level (`Factor` has
/// unary expressions as operands).
pub open spec fn next_level(level: BinaryLevel) -> BinaryLevel {
    match level {
        BinaryLevel::Or => BinaryLevel::And,
        BinaryLevel::And => BinaryLevel::Equality,
        BinaryLevel::Equality => BinaryLevel::Comparison,
        BinaryLevel::Comparison => BinaryLevel::Term,
        BinaryLevel::Term => BinaryLevel::Factor,
        BinaryLevel::Factor => BinaryLevel::Factor,
    }
}

/// The rank of a level in the order of descent.
pub open spec fn level_rank(level: BinaryLevel) -> int {
    match level {
        BinaryLevel::Or => 8,
        BinaryLevel::And => 7,
        BinaryLevel::Equality => 6,
        BinaryLevel::Comparison => 5,
        BinaryLevel::Term => 4,
        BinaryLevel::Factor => 3,
    }
}

/// An operator of a level applied to two operands: `and` and `or` make
/// logical expressions, the others binary ones.
pub open spec fn combine(level: BinaryLevel, left: ExprView, operator: TokenView, right: ExprView) -> ExprView {
    match level {
        BinaryLevel::Or | BinaryLevel::And => ExprView::Logical {
            left: Box::new(left),
            operator,
            right: Box::new(right),
        },
        _ => ExprView::Binary { left: Box::new(left), operator, right: Box::new(right) },
    }
}

/// Whether the token at `p` is of one of the given kinds.
pub open spec fn at_kind_in(t: Seq<TokenView>, p: int, kinds: Seq<TokenType>) -> bool {
    0 <= p < t.len() && kinds.contains(t[p].token_type)
}

/// A token sequence the parser can read: it is closed by the end-of-file token.
pub open spec fn well_formed_tokens(t: Seq<TokenView>) -> bool {
    t.len() > 0 && t.last().token_type == TokenType::Eof
}

/// The parser's reading at `p` has reached the end of the tokens.
pub open spec fn at_end(t: Seq<TokenView>, p: int) -> bool {
    p >= t.len() || t[p].token_type == TokenType::Eof
}

/// Reading a token of a given kind at `p`: the token and the position after
/// it, or an error with `message` at that token and the position unchanged.
pub open spec fn p_expect(t: Seq<TokenView>, p: int, kind: TokenType, message: Seq<char>) -> (
    Result<TokenView, ParseErrorView>,
    int,
) {
    if t[p].token_type == kind {
        (Ok(t[p]), p + 1)
    } else {
        (Err(ParseErrorView { token: t[p], message }), p)
    }
}

/// The outcome of a position that the parser cannot have reached.
pub open spec fn unreachable_outcome<A>(t: Seq<TokenView>, p: int) -> (Result<A, ParseErrorView>, int) {
    (Err(ParseErrorView { token: t[p], message: Seq::empty() }), p)
}

/// expression := assignment
pub open spec fn p_expression(t: Seq<TokenView>, p: int) -> (Result<ExprView, ParseErrorView>, int)
    decreases t.len() - p, 10int,
{
    p_assignment(t, p)
}

/// assignment := or ( "=" assignment )? where the left side must be a variable.
pub open spec fn p_assignment(t: Seq<TokenView>, p: int) -> (Result<ExprView, ParseErrorView>, int)
    decreases t.len() - p, 9int,
{
    let (target, q) = p_binary(t, BinaryLevel::Or, p);
    match target {
        Err(e) => (Err(e), q),
        Ok(expr) => if at_kind_in(t, q, seq![TokenType::Equal]) && p <= q {
            let equals = t[q];
            let (value, q2) = p_assignment(t, q + 1);
            match value {
                Err(e) => (Err(e), q2),
                Ok(v) => match expr {
                    ExprView::Variable(name) => (
                        Ok(ExprView::Assign { left: name, right: Box::new(v) }),
                        q2,
                    ),
                    _ => (
                        Err(ParseErrorView { token: equals, message: "Invalid assignment target."@ }),
                        q2,
                    ),
                },
            }
        } else {
            (Ok(expr), q)
        },
    }
}

/// level := operand ( op operand )*, grouped to the left.
pub open spec fn p_binary(t: Seq<TokenView>, level: BinaryLevel, p: int) -> (
    Result<ExprView, ParseErrorView>,
    int,
)
    decreases t.len() - p, level_rank(level),
{
    let (first, q) = match level {
        BinaryLevel::Factor => p_unary(t, p),
        _ => p_binary(t, next_level(level), p),
    };
    match first {
        Err(e) => (Err(e), q),
        Ok(left) => if p <= q <= t.len() {
            p_binary_tail(t, level, left, q)
        } else {
            unreachable_outcome(t, q)
        },
    }
}

/// The rest of a level after its operand `left` read up to `p`.
pub open spec fn p_binary_tail(t: Seq<TokenView>, level: BinaryLevel, left: ExprView, p: int) -> (
    Result<ExprView, ParseErrorView>,
    int,
)
    decreases t.len() - p, 0int,
{
    if at_kind_in(t, p, level_ops(level)) {
        let operator = t[p];
        let (second, q) = match level {
            BinaryLevel::Factor => p_unary(t, p + 1),
            _ => p_binary(t, next_level(level), p + 1),
        };
        match second {
            Err(e) => (Err(e), q),
            Ok(right) => if p < q <= t.len() {
                p_binary_tail(t, level, combine(level, left, operator, right), q)
            } else {
                unreachable_outcome(t, q)
            },
        }
    } else {
        (Ok(left), p)
    }
}

/// unary := ( "!" | "-" ) unary | primary
pub open spec fn p_unary(t: Seq<TokenView>, p: int) -> (Result<ExprView, ParseErrorView>, int)
    decreases t.len() - p, 2int,
{
    if at_kind_in(t, p, seq![TokenType::Bang, TokenType::Minus]) {
        let operator = t[p];
        let (right, q) = p_unary(t, p + 1);
        match right {
            Err(e) => (Err(e), q),
            Ok(r) => (Ok(ExprView::Unary { operator, right: Box::new(r) }), q),
        }
    } else {
        p_primary(t, p)
    }
}

/// primary := "false" | "true" | "nil" | number | string | "(" expression ")"
///          | identifier
pub open spec fn p_primary(t: Seq<TokenView>, p: int) -> (Result<ExprView, ParseErrorView>, int)
    decreases t.len() - p, 1int,
{
    if !(0 <= p < t.len()) {
        unreachable_outcome(t, p)
    } else {
        let tok = t[p];
        match tok.token_type {
            TokenType::False => (Ok(ExprView::Literal(LiteralView::Bool(false))), p + 1),
            TokenType::True => (Ok(ExprView::Literal(LiteralView::Bool(true))), p + 1),
            TokenType::Nil => (Ok(ExprView::Literal(LiteralView::Nil)), p + 1),
            TokenType::Number => if is_number_text(tok.literal) {
                (Ok(ExprView::Literal(LiteralView::Number(tok.literal))), p + 1)
            } else {
                (Err(ParseErrorView { token: tok, message: "Failed to parse number"@ }), p + 1)
            },
            TokenType::String => (Ok(ExprView::Literal(LiteralView::Str(tok.literal))), p + 1),
            TokenType::LeftParen => {
                let (inner, q) = p_expression(t, p + 1);
                match inner {
                    Err(e) => (Err(e), q),
                    Ok(e) => {
                        let (close, q2) = p_expect(
                            t,
                            q,
                            TokenType::RightParen,
                            "Expected ')' after expression."@,
                        );
                        match close {
                            Err(err) => (Err(err), q2),
                            Ok(_) => (Ok(ExprView::Grouping(Box::new(e))), q2),
                        }
                    },
                }
            },
            TokenType::Identifier => (Ok(ExprView::Variable(tok)), p + 1),
            _ => (Err(ParseErrorView { token: tok, message: "Unexpected token."@ }), p + 1),
        }
    }
}

/// declaration := "var" var_declaration | statement
pub open spec fn p_declaration(t: Seq<TokenView>, p: int) -> (Result<StmtView, ParseErrorView>, int)
    decreases t.len() - p, 13int,
{
    if at_kind_in(t, p, seq![TokenType::Var]) {
        p_var_declaration(t, p + 1)
    } else {
        p_statement(t, p)
    }
}

/// var_declaration := identifier ( "=" expression )? ";"
pub open spec fn p_var_declaration(t: Seq<TokenView>, p: int) -> (Result<StmtView, ParseErrorView>, int)
    decreases t.len() - p, 11int,
{
    if !(0 <= p < t.len()) {
        unreachable_outcome(t, p)
    } else {
        let (name, q) = p_expect(t, p, TokenType::Identifier, "Expect variable name."@);
        match name {
            Err(e) => (Err(e), q),
            Ok(name) => if at_kind_in(t, q, seq![TokenType::Equal]) {
                let (init, q2) = p_expression(t, q + 1);
                match init {
                    Err(e) => (Err(e), q2),
                    Ok(init) => {
                        let (semi, q3) = p_expect(
                            t,
                            q2,
                            TokenType::Semicolon,
                            "Expect ';' after variable declaration."@,
                        );
                        match semi {
                            Err(e) => (Err(e), q3),
                            Ok(_) => (
                                Ok(StmtView::Var { identifier: name.lexeme, expression: Some(init) }),
                                q3,
                            ),
                        }
                    },
                }
            } else {
                let (semi, q3) = p_expect(
                    t,
                    q,
                    TokenType::Semicolon,
                    "Expect ';' after variable declaration."@,
                );
                match semi {
                    Err(e) => (Err(e), q3),
                    Ok(_) => (Ok(StmtView::Var { identifier: name.lexeme, expression: None }), q3),
                }
            },
        }
    }
}

/// statement := "print" print_statement | "{" block | "if" if_statement
///            | "while" while_statement | expression_statement
pub open spec fn p_statement(t: Seq<TokenView>, p: int) -> (Result<StmtView, ParseErrorView>, int)
    decreases t.len() - p, 12int,
{
    if at_kind_in(t, p, seq![TokenType::Print]) {
        p_print_statement(t, p + 1)
    } else if at_kind_in(t, p, seq![TokenType::LeftBrace]) {
        p_block(t, p + 1, Seq::empty())
    } else if at_kind_in(t, p, seq![TokenType::If]) {
        p_if_statement(t, p + 1)
    } else if at_kind_in(t, p, seq![TokenType::While]) {
        p_while_statement(t, p + 1)
    } else {
        p_expression_statement(t, p)
    }
}

/// A statement made of an expression and a closing ";".
pub open spec fn p_terminated(t: Seq<TokenView>, p: int, message: Seq<char>) -> (
    Result<ExprView, ParseErrorView>,
    int,
)
    decreases t.len() - p, 11int,
{
    let (e, q) = p_expression(t, p);
    match e {
        Err(err) => (Err(err), q),
        Ok(e) => {
            let (semi, q2) = p_expect(t, q, TokenType::Semicolon, message);
            match semi {
                Err(err) => (Err(err), q2),
                Ok(_) => (Ok(e), q2),
            }
        },
    }
}

/// print_statement := expression ";"
pub open spec fn p_print_statement(t: Seq<TokenView>, p: int) -> (Result<StmtView, ParseErrorView>, int)
    decreases t.len() - p, 12int,
{
    let (e, q) = p_terminated(t, p, "Expect ';' after value."@);
    match e {
        Err(err) => (Err(err), q),
        Ok(e) => (Ok(StmtView::Print(e)), q),
    }
}

/// expression_statement := expression ";"
pub open spec fn p_expression_statement(t: Seq<TokenView>, p: int) -> (
    Result<StmtView, ParseErrorView>,
    int,
)
    decreases t.len() - p, 11int,
{
    let (e, q) = p_terminated(t, p, "Expect ';' after expression."@);
    match e {
        Err(err) => (Err(err), q),
        Ok(e) => (Ok(StmtView::Expression(e)), q),
    }
}

/// A parenthesized condition: "(" expression ")".
pub open spec fn p_condition(t: Seq<TokenView>, p: int, open_message: Seq<char>, close_message: Seq<char>) -> (
    Result<ExprView, ParseErrorView>,
    int,
)
    decreases t.len() - p, 11int,
{
    if !(0 <= p < t.len()) {
        unreachable_outcome(t, p)
    } else {
        let (open, q) = p_expect(t, p, TokenType::LeftParen, open_message);
        match open {
            Err(e) => (Err(e), q),
            Ok(_) => {
                let (c, q2) = p_expression(t, q);
                match c {
                    Err(e) => (Err(e), q2),
                    Ok(c) => {
                        let (close, q3) = p_expect(t, q2, TokenType::RightParen, close_message);
                        match close {
                            Err(e) => (Err(e), q3),
                            Ok(_) => (Ok(c), q3),
                        }
                    },
                }
            },
        }
    }
}

/// if_statement := "(" expression ")" statement ( "else" statement )?
pub open spec fn p_if_statement(t: Seq<TokenView>, p: int) -> (Result<StmtView, ParseErrorView>, int)
    decreases t.len() - p, 12int,
{
    let (c, q) = p_condition(t, p, "Expect '(' after 'if'."@, "Expect ')' after if condition."@);
    match c {
        Err(e) => (Err(e), q),
        Ok(c) => if p < q <= t.len() {
            let (then_branch, q2) = p_statement(t, q);
            match then_branch {
                Err(e) => (Err(e), q2),
                Ok(th) => if at_kind_in(t, q2, seq![TokenType::Else]) && p < q2 {
                    let (else_branch, q3) = p_statement(t, q2 + 1);
                    match else_branch {
                        Err(e) => (Err(e), q3),
                        Ok(el) => (
                            Ok(StmtView::If {
                                condition: c,
                                then_branch: Box::new(th),
                                else_branch: Some(Box::new(el)),
                            }),
                            q3,
                        ),
                    }
                } else {
                    (
                        Ok(StmtView::If { condition: c, then_branch: Box::new(th), else_branch: None }),
                        q2,
                    )
                },
            }
        } else {
            unreachable_outcome(t, q)
        },
    }
}

/// while_statement := "(" expression ")" statement
pub open spec fn p_while_statement(t: Seq<TokenView>, p: int) -> (Result<StmtView, ParseErrorView>, int)
    decreases t.len() - p, 12int,
{
    let (c, q) = p_condition(t, p, "Expect '(' after 'while'."@, "Expect ')' after condition."@);
    match c {
        Err(e) => (Err(e), q),
        Ok(c) => if p < q <= t.len() {
            let (body, q2) = p_statement(t, q);
            match body {
                Err(e) => (Err(e), q2),
                Ok(b) => (Ok(StmtView::While { condition: c, body: Box::new(b) }), q2),
            }
        } else {
            unreachable_outcome(t, q)
        },
    }
}

/// block := declaration* "}", after the statements `acc` already read.
pub open spec fn p_block(t: Seq<TokenView>, p: int, acc: Seq<StmtView>) -> (
    Result<StmtView, ParseErrorView>,
    int,
)
    decreases t.len() - p, 14int,
{
    if !(0 <= p < t.len()) {
        unreachable_outcome(t, p)
    } else if t[p].token_type == TokenType::RightBrace {
        (Ok(StmtView::Block(acc)), p + 1)
    } else {
        let (s, q) = p_declaration(t, p);
        match s {
            Err(e) => (Err(e), q),
            Ok(s) => if p < q <= t.len() {
                p_block(t, q, acc.push(s))
            } else {
                unreachable_outcome(t, q)
            },
        }
    }
}

/// A program: declarations up to the end of the tokens, after the
/// statements `acc` already read.
pub open spec fn p_program(t: Seq<TokenView>, p: int, acc: Seq<StmtView>) -> (
    Result<Seq<StmtView>, ParseErrorView>,
    int,
)
    decreases t.len() - p,
{
    if at_end(t, p) || p < 0 {
        (Ok(acc), p)
    } else {
        let (s, q) = p_declaration(t, p);
        match s {
            Err(e) => (Err(e), q),
            Ok(s) => if p < q <= t.len() {
                p_program(t, q, acc.push(s))
            } else {
                unreachable_outcome(t, q)
            },
        }
    }
}

/// Where the parser stops after an error at `p`: just past the next ";",
/// or at the next token that starts a statement, or at the end.
pub open spec fn p_synchronize_from(t: Seq<TokenView>, p: int) -> int
    decreases t.len() - p,
{
    if at_end(t, p) || p < 1 {
        p
    } else if t[p - 1].token_type == TokenType::Semicolon {
        p
    } else if seq![
        TokenType::Class,
        TokenType::Fun,
        TokenType::Var,
        TokenType::For,
        TokenType::If,
        TokenType::While,
        TokenType::Print,
        TokenType::Return,
    ].contains(t[p].token_type) {
        p
    } else {
        p_synchronize_from(t, p + 1)
    }
}

/// What a parse of an expression gives, taken by views.
pub open spec fn expr_outcome(r: Result<Expr, ParseError>) -> Result<ExprView, ParseErrorView> {
    match r {
        Ok(e) => Ok(e@),
        Err(e) => Err(e@),
    }
}

/// What a parse of a statement gives, taken by views.
pub open spec fn stmt_outcome(r: Result<Stmt, ParseError>) -> Result<StmtView, ParseErrorView> {
    match r {
        Ok(s) => Ok(s@),
        Err(e) => Err(e@),
    }
}

/// The views of a sequence of statements.
pub open spec fn stmt_views(s: Seq<Stmt>) -> Seq<StmtView> {
    Seq::new(s.len(), |i: int| s[i]@)
}

/// The parser's state: the tokens, the position reached, whether the last
/// parse of an expression failed, and the error it failed with.
pub struct Parser {
    pub tokens: Vec<Token>,
    pub current: usize,
    pub encountered_error: bool,
    pub error: Option<ParseError>,
}

/// A parser that can read on: its tokens are closed by the end-of-file token
/// and its position is on one of them.
pub open spec fn ready(p: Parser) -> bool {
    well_formed_tokens(token_views(p.tokens@)) && p.current < p.tokens@.len()
}

/// `b` is `a` after a parse: nothing but the position has changed, the
/// position has not gone back nor past the tokens, and on success it has moved
/// on and is still before their end.
pub open spec fn moved_on(a: Parser, b: Parser, ok: bool) -> bool {
    &&& b.tokens == a.tokens
    &&& b.encountered_error == a.encountered_error
    &&& b.error == a.error
    &&& a.current <= b.current <= b.tokens@.len()
    &&& ok ==> a.current < b.current < b.tokens@.len()
}

impl Parser {
    /// A parser at the first of `tokens`.
    pub fn new(tokens: Vec<Token>) -> (r: Self)
        ensures
            r.tokens == tokens,
            r.current == 0,
            !r.encountered_error,
            r.error is None,
    {
        Self { tokens, current: 0, encountered_error: false, error: None }
    }

    fn is_at_end(&self) -> (r: bool)
        ensures
            r == at_end(token_views(self.tokens@), self.current as int),
    {
        self.current >= self.tokens.len() || self.peek().token_type == TokenType::Eof
    }

    fn peek(&self) -> (r: &Token)
        requires
            self.current < self.tokens@.len(),
        ensures
            *r == self.tokens@[self.current as int],
            r@ == token_views(self.tokens@)[self.current as int],
    {
        &self.tokens[self.current]
    }

    fn previous(&self) -> (r: &Token)
        requires
            0 < self.current <= self.tokens@.len(),
        ensures
            *r == self.tokens@[self.current - 1],
            r@ == token_views(self.tokens@)[self.current - 1],
    {
        &self.tokens[self.current - 1]
    }

    fn advance(&mut self) -> (r: &Token)
        requires
            old(self).current < old(self).tokens@.len(),
        ensures
            *r == old(self).tokens@[old(self).current as int],
            final(self).current == old(self).current + 1,
            final(self).tokens == old(self).tokens,
            final(self).encountered_error == old(self).encountered_error,
            final(self).error == old(self).error,
    {
        let index = self.current;
        let n = self.tokens.len();
        assert(index < n);
        self.current += 1;
        &self.tokens[index]
    }

    fn expect(&mut self, token_type: TokenType, err_msg: &str) -> (r: Result<Token, ParseError>)
        requires
            old(self).current < old(self).tokens@.len(),
        ensures
            (match r {
                Ok(t) => Ok(t@),
                Err(e) => Err(e@),
            }, final(self).current as int) == p_expect(
                token_views(old(self).tokens@),
                old(self).current as int,
                token_type,
                err_msg@,
            ),
            final(self).tokens == old(self).tokens,
            final(self).encountered_error == old(self).encountered_error,
            final(self).error == old(self).error,
    {
        let token = self.peek().clone();
        if token.token_type == token_type {
            let n = self.tokens.len();
            assert(self.current < n);
            self.current += 1;
            Ok(token)
        } else {
            Err(ParseError { message: String::from_str(err_msg), token })
        }
    }

    fn matches(&mut self, types: &[TokenType]) -> (r: bool)
        requires
            old(self).current < old(self).tokens@.len(),
        ensures
            r == at_kind_in(token_views(old(self).tokens@), old(self).current as int, types@),
            final(self).current == old(self).current + if r {
                1int
            } else {
                0int
            },
            final(self).tokens == old(self).tokens,
            final(self).encountered_error == old(self).encountered_error,
            final(self).error == old(self).error,
    {
        let ghost t = token_views(self.tokens@);
        let mut i: usize = 0;
        while i < types.len()
            invariant
                self == old(self),
                t == token_views(self.tokens@),
                self.current < self.tokens@.len(),
                i <= types@.len(),
                forall|j: int| 0 <= j < i ==> types@[j] != t[self.current as int].token_type,
            decreases types@.len() - i,
        {
            if self.peek().token_type == types[i] {
                self.advance();
                return true;
            }
            i += 1;
        }
        false
    }

    /// Skips tokens after an error, up to the start of what looks like the
    /// next statement.
    fn synchronize(&mut self)
        requires
            old(self).current < old(self).tokens@.len(),
        ensures
            final(self).current == p_synchronize_from(
                token_views(old(self).tokens@),
                old(self).current + 1,
            ),
            final(self).tokens == old(self).tokens,
            final(self).encountered_error == old(self).encountered_error,
            final(self).error == old(self).error,
    {
        let ghost t = token_views(self.tokens@);
        self.advance();
        while !self.is_at_end()
            invariant
                self.tokens == old(self).tokens,
                self.encountered_error == old(self).encountered_error,
                self.error == old(self).error,
                t == token_views(self.tokens@),
                1 <= self.current <= self.tokens@.len(),
                p_synchronize_from(t, self.current as int) == p_synchronize_from(
                    t,
                    old(self).current + 1,
                ),
            decreases self.tokens@.len() - self.current,
        {
            if self.previous().token_type == TokenType::Semicolon {
                return;
            }
            match self.peek().token_type {
                TokenType::Class
                | TokenType::Fun
                | TokenType::Var
                | TokenType::For
                | TokenType::If
                | TokenType::While
                | TokenType::Print
                | TokenType::Return => return,
                _ => {
                    self.advance();
                },
            };
        }
    }

    /// primary := "false" | "true" | "nil" | number | string | "(" expression ")"
    ///          | identifier
    fn primary(&mut self) -> (r: Result<Expr, ParseError>)
        requires
            old(self).current < old(self).tokens@.len(),
            old(self).tokens@[old(self).current as int].token_type == TokenType::LeftParen ==> ready(
                *old(self),
            ),
        ensures
            final(self).tokens == old(self).tokens,
            final(self).encountered_error == old(self).encountered_error,
            final(self).error == old(self).error,
            old(self).current < final(self).current <= final(self).tokens@.len(),
            ready(*old(self)) ==> moved_on(*old(self), *final(self), r is Ok),
            (expr_outcome(r), final(self).current as int) == p_primary(
                token_views(old(self).tokens@),
                old(self).current as int,
            ),
        decreases old(self).tokens@.len() - old(self).current, 1int,
    {
        let typ = self.advance().token_type;
        match typ {
            TokenType::False => Ok(Expr::Literal(LiteralValue::Bool(false))),
            TokenType::True => Ok(Expr::Literal(LiteralValue::Bool(true))),
            TokenType::Nil => Ok(Expr::Literal(LiteralValue::Nil)),
            TokenType::Number => {
                let tok = self.previous();
                if reads_as_number(tok.literal.as_str()) {
                    Ok(Expr::Literal(LiteralValue::Number(tok.literal.clone())))
                } else {
                    Err(ParseError { token: tok.clone(), message: String::from_str("Failed to parse number") })
                }
            },
            TokenType::String => Ok(Expr::Literal(LiteralValue::Str(self.previous().literal.clone()))),
            TokenType::LeftParen => {
                let expr = match self.expression() {
                    Ok(e) => e,
                    Err(e) => return Err(e),
                };
                match self.expect(TokenType::RightParen, "Expected ')' after expression.") {
                    Ok(_) => {},
                    Err(e) => return Err(e),
                }
                Ok(Expr::Grouping(Box::new(expr)))
            },
            TokenType::Identifier => Ok(Expr::Variable(self.previous().clone())),
            _ => Err(
                ParseError {
                    token: self.previous().clone(),
                    message: String::from_str("Unexpected token."),
                },
            ),
        }
    }

    /// unary := ( "!" | "-" ) unary | primary
    fn unary(&mut self) -> (r: Result<Expr, ParseError>)
        requires
            ready(*old(self)),
        ensures
            moved_on(*old(self), *final(self), r is Ok),
            (expr_outcome(r), final(self).current as int) == p_unary(
                token_views(old(self).tokens@),
                old(self).current as int,
            ),
        decreases old(self).tokens@.len() - old(self).current, 2int,
    {
        if self.matches(&[TokenType::Bang, TokenType::Minus]) {
            let operator = self.previous().clone();
            let right = match self.unary() {
                Ok(e) => e,
                Err(e) => return Err(e),
            };
            return Ok(Expr::Unary { operator, right: Box::new(right) });
        }
        self.primary()
    }

    /// logic_or := logic_and ( "or" logic_and )*
    fn or(&mut self) -> (r: Result<Expr, ParseError>)
        requires
            ready(*old(self)),
        ensures
            moved_on(*old(self), *final(self), r is Ok),
            (expr_outcome(r), final(self).current as int) == p_binary(
                token_views(old(self).tokens@),
                BinaryLevel::Or,
                old(self).current as int,
            ),
        decreases old(self).tokens@.len() - old(self).current, 8int,
    {
        let ghost t = token_views(self.tokens@);
        let ghost p0 = self.current as int;
        let mut expr = match self.and() {
            Ok(e) => e,
            Err(e) => return Err(e),
        };
        loop
            invariant
                self.tokens == old(self).tokens,
                self.encountered_error == old(self).encountered_error,
                self.error == old(self).error,
                t == token_views(self.tokens@),
                well_formed_tokens(t),
                p0 == old(self).current,
                p0 < self.current < self.tokens@.len(),
                p_binary_tail(t, BinaryLevel::Or, expr@, self.current as int) == p_binary(
                    t,
                    BinaryLevel::Or,
                    p0,
                ),
            ensures
                self.tokens == old(self).tokens,
                self.encountered_error == old(self).encountered_error,
                self.error == old(self).error,
                p0 < self.current < self.tokens@.len(),
                p_binary(t, BinaryLevel::Or, p0) == (
                    Ok::<ExprView, ParseErrorView>(expr@),
                    self.current as int,
                ),
            decreases self.tokens@.len() - self.current,
        {
            if !self.matches(&[TokenType::Or]) {
                break;
            }
            let operator = self.previous().clone();
            let right = match self.and() {
                Ok(e) => e,
                Err(e) => return Err(e),
            };
            expr = Expr::Logical { left: Box::new(expr), operator, right: Box::new(right) };
        }
        Ok(expr)
    }

    /// logic_and := equality ( "and" equality )*
    fn and(&mut self) -> (r: Result<Expr, ParseError>)
        requires
            ready(*old(self)),
        ensures
            moved_on(*old(self), *final(self), r is Ok),
            (expr_outcome(r), final(self).current as int) == p_binary(
                token_views(old(self).tokens@),
                BinaryLevel::And,
                old(self).current as int,
            ),
        decreases old(self).tokens@.len() - old(self).current, 7int,
    {
        let ghost t = token_views(self.tokens@);
        let ghost p0 = self.current as int;
        let mut expr = match self.equality() {
            Ok(e) => e,
            Err(e) => return Err(e),
        };
        loop
            invariant
                self.tokens == old(self).tokens,
                self.encountered_error == old(self).encountered_error,
                self.error == old(self).error,
                t == token_views(self.tokens@),
                well_formed_tokens(t),
                p0 == old(self).current,
                p0 < self.current < self.tokens@.len(),
                p_binary_tail(t, BinaryLevel::And, expr@, self.current as int) == p_binary(
                    t,
                    BinaryLevel::And,
                    p0,
                ),
            ensures
                self.tokens == old(self).tokens,
                self.encountered_error == old(self).encountered_error,
                self.error == old(self).error,
                p0 < self.current < self.tokens@.len(),
                p_binary(t, BinaryLevel::And, p0) == (
                    Ok::<ExprView, ParseErrorView>(expr@),
                    self.current as int,
                ),
            decreases self.tokens@.len() - self.current,
        {
            if !self.matches(&[TokenType::And]) {
                break;
            }
            let operator = self.previous().clone();
            let right = match self.equality() {
                Ok(e) => e,
                Err(e) => return Err(e),
            };
            expr = Expr::Logical { left: Box::new(expr), operator, right: Box::new(right) };
        }
        Ok(expr)
    }

    /// equality := comparison ( ( "!=" | "==" ) comparison )*
    fn equality(&mut self) -> (r: Result<Expr, ParseError>)
        requires
            ready(*old(self)),
        ensures
            moved_on(*old(self), *final(self), r is Ok),
            (expr_outcome(r), final(self).current as int) == p_binary(
                token_views(old(self).tokens@),
                BinaryLevel::Equality,
                old(self).current as int,
            ),
        decreases old(self).tokens@.len() - old(self).current, 6int,
    {
        let ghost t = token_views(self.tokens@);
        let ghost p0 = self.current as int;
        let mut expr = match self.comparison() {
            Ok(e) => e,
            Err(e) => return Err(e),
        };
        loop
            invariant
                self.tokens == old(self).tokens,
                self.encountered_error == old(self).encountered_error,
                self.error == old(self).error,
                t == token_views(self.tokens@),
                well_formed_tokens(t),
                p0 == old(self).current,
                p0 < self.current < self.tokens@.len(),
                p_binary_tail(t, BinaryLevel::Equality, expr@, self.current as int) == p_binary(
                    t,
                    BinaryLevel::Equality,
                    p0,
                ),
            ensures
                self.tokens == old(self).tokens,
                self.encountered_error == old(self).encountered_error,
                self.error == old(self).error,
                p0 < self.current < self.tokens@.len(),
                p_binary(t, BinaryLevel::Equality, p0) == (
                    Ok::<ExprView, ParseErrorView>(expr@),
                    self.current as int,
                ),
            decreases self.tokens@.len() - self.current,
        {
            if !self.matches(&[TokenType::BangEqual, TokenType::EqualEqual]) {
                break;
            }
            let operator = self.previous().clone();
            let right = match self.comparison() {
                Ok(e) => e,
                Err(e) => return Err(e),
            };
            expr = Expr::Binary { left: Box::new(expr), operator, right: Box::new(right) };
        }
        Ok(expr)
    }

    /// comparison := term ( ( ">" | ">=" | "<" | "<=" ) term )*
    fn comparison(&mut self) -> (r: Result<Expr, ParseError>)
        requires
            ready(*old(self)),
        ensures
            moved_on(*old(self), *final(self), r is Ok),
            (expr_outcome(r), final(self).current as int) == p_binary(
                token_views(old(self).tokens@),
                BinaryLevel::Comparison,
                old(self).current as int,
            ),
        decreases old(self).tokens@.len() - old(self).current, 5int,
    {
        let ghost t = token_views(self.tokens@);
        let ghost p0 = self.current as int;
        let mut expr = match self.term() {
            Ok(e) => e,
            Err(e) => return Err(e),
        };
        loop
            invariant
                self.tokens == old(self).tokens,
                self.encountered_error == old(self).encountered_error,
                self.error == old(self).error,
                t == token_views(self.tokens@),
                well_formed_tokens(t),
                p0 == old(self).current,
                p0 < self.current < self.tokens@.len(),
                p_binary_tail(t, BinaryLevel::Comparison, expr@, self.current as int) == p_binary(
                    t,
                    BinaryLevel::Comparison,
                    p0,
                ),
            ensures
                self.tokens == old(self).tokens,
                self.encountered_error == old(self).encountered_error,
                self.error == old(self).error,
                p0 < self.current < self.tokens@.len(),
                p_binary(t, BinaryLevel::Comparison, p0) == (
                    Ok::<ExprView, ParseErrorView>(expr@),
                    self.current as int,
                ),
            decreases self.tokens@.len() - self.current,
        {
            if !self.matches(&[TokenType::Greater, TokenType::GreaterEqual, TokenType::Less, TokenType::LessEqual]) {
                break;
            }
            let operator = self.previous().clone();
            let right = match self.term() {
                Ok(e) => e,
                Err(e) => return Err(e),
            };
            expr = Expr::Binary { left: Box::new(expr), operator, right: Box::new(right) };
        }
        Ok(expr)
    }

    /// term := factor ( ( "-" | "+" ) factor )*
    fn term(&mut self) -> (r: Result<Expr, ParseError>)
        requires
            ready(*old(self)),
        ensures
            moved_on(*old(self), *final(self), r is Ok),
            (expr_outcome(r), final(self).current as int) == p_binary(
                token_views(old(self).tokens@),
                BinaryLevel::Term,
                old(self).current as int,
            ),
        decreases old(self).tokens@.len() - old(self).current, 4int,
    {
        let ghost t = token_views(self.tokens@);
        let ghost p0 = self.current as int;
        let mut expr = match self.factor() {
            Ok(e) => e,
            Err(e) => return Err(e),
        };
        loop
            invariant
                self.tokens == old(self).tokens,
                self.encountered_error == old(self).encountered_error,
                self.error == old(self).error,
                t == token_views(self.tokens@),
                well_formed_tokens(t),
                p0 == old(self).current,
                p0 < self.current < self.tokens@.len(),
                p_binary_tail(t, BinaryLevel::Term, expr@, self.current as int) == p_binary(
                    t,
                    BinaryLevel::Term,
                    p0,
                ),
            ensures
                self.tokens == old(self).tokens,
                self.encountered_error == old(self).encountered_error,
                self.error == old(self).error,
                p0 < self.current < self.tokens@.len(),
                p_binary(t, BinaryLevel::Term, p0) == (
                    Ok::<ExprView, ParseErrorView>(expr@),
                    self.current as int,
                ),
            decreases self.tokens@.len() - self.current,
        {
            if !self.matches(&[TokenType::Minus, TokenType::Plus]) {
                break;
            }
            let operator = self.previous().clone();
            let right = match self.factor() {
                Ok(e) => e,
                Err(e) => return Err(e),
            };
            expr = Expr::Binary { left: Box::new(expr), operator, right: Box::new(right) };
        }
        Ok(expr)
    }

    /// factor := unary ( ( "/" | "*" ) unary )*
    fn factor(&mut self) -> (r: Result<Expr, ParseError>)
        requires
            ready(*old(self)),
        ensures
            moved_on(*old(self), *final(self), r is Ok),
            (expr_outcome(r), final(self).current as int) == p_binary(
                token_views(old(self).tokens@),
                BinaryLevel::Factor,
                old(self).current as int,
            ),
        decreases old(self).tokens@.len() - old(self).current, 3int,
    {
        let ghost t = token_views(self.tokens@);
        let ghost p0 = self.current as int;
        let mut expr = match self.unary() {
            Ok(e) => e,
            Err(e) => return Err(e),
        };
        loop
            invariant
                self.tokens == old(self).tokens,
                self.encountered_error == old(self).encountered_error,
                self.error == old(self).error,
                t == token_views(self.tokens@),
                well_formed_tokens(t),
                p0 == old(self).current,
                p0 < self.current < self.tokens@.len(),
                p_binary_tail(t, BinaryLevel::Factor, expr@, self.current as int) == p_binary(
                    t,
                    BinaryLevel::Factor,
                    p0,
                ),
            ensures
                self.tokens == old(self).tokens,
                self.encountered_error == old(self).encountered_error,
                self.error == old(self).error,
                p0 < self.current < self.tokens@.len(),
                p_binary(t, BinaryLevel::Factor, p0) == (
                    Ok::<ExprView, ParseErrorView>(expr@),
                    self.current as int,
                ),
            decreases self.tokens@.len() - self.current,
        {
            if !self.matches(&[TokenType::Slash, TokenType::Star]) {
                break;
            }
            let operator = self.previous().clone();
            let right = match self.unary() {
                Ok(e) => e,
                Err(e) => return Err(e),
            };
            expr = Expr::Binary { left: Box::new(expr), operator, right: Box::new(right) };
        }
        Ok(expr)
    }

    /// assignment := logic_or ( "=" assignment )?, where the left side must be
    /// a variable.
    fn assignment(&mut self) -> (r: Result<Expr, ParseError>)
        requires
            ready(*old(self)),
        ensures
            moved_on(*old(self), *final(self), r is Ok),
            (expr_outcome(r), final(self).current as int) == p_assignment(
                token_views(old(self).tokens@),
                old(self).current as int,
            ),
        decreases old(self).tokens@.len() - old(self).current, 9int,
    {
        let expr = match self.or() {
            Ok(e) => e,
            Err(e) => return Err(e),
        };
        let equal = [TokenType::Equal];
        assert(equal@ =~= seq![TokenType::Equal]);
        if self.matches(&equal) {
            let equals = self.previous().clone();
            let value = match self.assignment() {
                Ok(e) => e,
                Err(e) => return Err(e),
            };
            if let Expr::Variable(token) = expr {
                return Ok(Expr::Assign { left: token, right: Box::new(value) });
            }
            return Err(
                ParseError { token: equals, message: String::from_str("Invalid assignment target.") },
            );
        }
        Ok(expr)
    }

    /// expression := assignment
    fn expression(&mut self) -> (r: Result<Expr, ParseError>)
        requires
            ready(*old(self)),
        ensures
            moved_on(*old(self), *final(self), r is Ok),
            (expr_outcome(r), final(self).current as int) == p_expression(
                token_views(old(self).tokens@),
                old(self).current as int,
            ),
        decreases old(self).tokens@.len() - old(self).current, 10int,
    {
        self.assignment()
    }
}

/// The report printed when an expression cannot be parsed.
pub open spec fn expression_report(e: ParseErrorView) -> Seq<char> {
    "[line "@ + decimal(e.token.line as nat) + "] Error at '"@ + e.token.lexeme
        + "': Expect expression."@
}

impl ParseError {
    /// The report printed when an expression cannot be parsed: the line and
    /// the lexeme of the token where it failed.
    pub fn expression_report(&self) -> (r: String)
        ensures
            r@ == expression_report(self@),
    {
        let mut r = String::from_str("[line ");
        push_decimal(&mut r, self.token.line);
        r.append("] Error at '");
        r.append(self.token.lexeme.as_str());
        r.append("': Expect expression.");
        r
    }
}

impl Parser {
    /// print_statement := expression ";"
    fn print_statement(&mut self) -> (r: Result<Stmt, ParseError>)
        requires
            ready(*old(self)),
        ensures
            moved_on(*old(self), *final(self), r is Ok),
            (stmt_outcome(r), final(self).current as int) == p_print_statement(
                token_views(old(self).tokens@),
                old(self).current as int,
            ),
        decreases old(self).tokens@.len() - old(self).current, 11int,
    {
        let expr = match self.expression() {
            Ok(e) => e,
            Err(e) => return Err(e),
        };
        match self.expect(TokenType::Semicolon, "Expect ';' after value.") {
            Ok(_) => {},
            Err(e) => return Err(e),
        }
        Ok(Stmt::Print(expr))
    }

    /// expression_statement := expression ";"
    fn expression_statement(&mut self) -> (r: Result<Stmt, ParseError>)
        requires
            ready(*old(self)),
        ensures
            moved_on(*old(self), *final(self), r is Ok),
            (stmt_outcome(r), final(self).current as int) == p_expression_statement(
                token_views(old(self).tokens@),
                old(self).current as int,
            ),
        decreases old(self).tokens@.len() - old(self).current, 11int,
    {
        let expr = match self.expression() {
            Ok(e) => e,
            Err(e) => return Err(e),
        };
        match self.expect(TokenType::Semicolon, "Expect ';' after expression.") {
            Ok(_) => {},
            Err(e) => return Err(e),
        }
        Ok(Stmt::Expression(expr))
    }

    /// if_statement := "(" expression ")" statement ( "else" statement )?
    fn if_statement(&mut self) -> (r: Result<Stmt, ParseError>)
        requires
            ready(*old(self)),
        ensures
            moved_on(*old(self), *final(self), r is Ok),
            (stmt_outcome(r), final(self).current as int) == p_if_statement(
                token_views(old(self).tokens@),
                old(self).current as int,
            ),
        decreases old(self).tokens@.len() - old(self).current, 11int,
    {
        match self.expect(TokenType::LeftParen, "Expect '(' after 'if'.") {
            Ok(_) => {},
            Err(e) => return Err(e),
        }
        let condition = match self.expression() {
            Ok(e) => e,
            Err(e) => return Err(e),
        };
        match self.expect(TokenType::RightParen, "Expect ')' after if condition.") {
            Ok(_) => {},
            Err(e) => return Err(e),
        }
        let then_branch = match self.statement() {
            Ok(s) => s,
            Err(e) => return Err(e),
        };
        let mut else_branch: Option<Box<Stmt>> = None;
        let kinds = [TokenType::Else];
        assert(kinds@ =~= seq![TokenType::Else]);
        if self.matches(&kinds) {
            let branch = match self.statement() {
                Ok(s) => s,
                Err(e) => return Err(e),
            };
            else_branch = Some(Box::new(branch));
        }
        Ok(Stmt::If { condition, then_branch: Box::new(then_branch), else_branch })
    }

    /// while_statement := "(" expression ")" statement
    fn while_statement(&mut self) -> (r: Result<Stmt, ParseError>)
        requires
            ready(*old(self)),
        ensures
            moved_on(*old(self), *final(self), r is Ok),
            (stmt_outcome(r), final(self).current as int) == p_while_statement(
                token_views(old(self).tokens@),
                old(self).current as int,
            ),
        decreases old(self).tokens@.len() - old(self).current, 11int,
    {
        match self.expect(TokenType::LeftParen, "Expect '(' after 'while'.") {
            Ok(_) => {},
            Err(e) => return Err(e),
        }
        let condition = match self.expression() {
            Ok(e) => e,
            Err(e) => return Err(e),
        };
        match self.expect(TokenType::RightParen, "Expect ')' after condition.") {
            Ok(_) => {},
            Err(e) => return Err(e),
        }
        let body = match self.statement() {
            Ok(s) => s,
            Err(e) => return Err(e),
        };
        Ok(Stmt::While { condition, body: Box::new(body) })
    }

    /// block := declaration* "}"
    fn block(&mut self) -> (r: Result<Stmt, ParseError>)
        requires
            ready(*old(self)),
        ensures
            moved_on(*old(self), *final(self), r is Ok),
            (stmt_outcome(r), final(self).current as int) == p_block(
                token_views(old(self).tokens@),
                old(self).current as int,
                Seq::empty(),
            ),
        decreases old(self).tokens@.len() - old(self).current, 14int,
    {
        let ghost t = token_views(self.tokens@);
        let ghost p0 = self.current as int;
        let mut statements: Vec<Stmt> = Vec::new();
        assert(stmt_views(statements@) =~= Seq::empty());
        loop
            invariant
                self.tokens == old(self).tokens,
                self.encountered_error == old(self).encountered_error,
                self.error == old(self).error,
                t == token_views(self.tokens@),
                well_formed_tokens(t),
                p0 == old(self).current,
                p0 <= self.current < self.tokens@.len(),
                p_block(t, self.current as int, stmt_views(statements@)) == p_block(
                    t,
                    p0,
                    Seq::empty(),
                ),
            ensures
                self.tokens == old(self).tokens,
                self.encountered_error == old(self).encountered_error,
                self.error == old(self).error,
                p0 <= self.current < self.tokens@.len(),
                t[self.current as int].token_type == TokenType::RightBrace,
                p_block(t, p0, Seq::empty()) == (
                    Ok::<StmtView, ParseErrorView>(StmtView::Block(stmt_views(statements@))),
                    self.current + 1,
                ),
            decreases self.tokens@.len() - self.current,
        {
            if self.peek().token_type == TokenType::RightBrace {
                break;
            }
            let s = match self.declaration() {
                Ok(s) => s,
                Err(e) => return Err(e),
            };
            let ghost before = stmt_views(statements@);
            statements.push(s);
            assert(stmt_views(statements@) =~= before.push(s@));
        }
        match self.expect(TokenType::RightBrace, "Expect '}' after block.") {
            Ok(_) => {},
            Err(e) => return Err(e),
        }
        let ghost vv = statements@;
        let r = Stmt::Block(statements);
        assert(r@ == StmtView::Block(stmt_views(vv))) by {
            let inner = match r@ {
                StmtView::Block(s) => s,
                _ => Seq::empty(),
            };
            assert(inner =~= stmt_views(vv));
        }
        Ok(r)
    }

    /// statement := "print" print_statement | "{" block | "if" if_statement
    ///            | "while" while_statement | expression_statement
    fn statement(&mut self) -> (r: Result<Stmt, ParseError>)
        requires
            ready(*old(self)),
        ensures
            moved_on(*old(self), *final(self), r is Ok),
            (stmt_outcome(r), final(self).current as int) == p_statement(
                token_views(old(self).tokens@),
                old(self).current as int,
            ),
        decreases old(self).tokens@.len() - old(self).current, 12int,
    {
        let print = [TokenType::Print];
        assert(print@ =~= seq![TokenType::Print]);
        let left_brace = [TokenType::LeftBrace];
        assert(left_brace@ =~= seq![TokenType::LeftBrace]);
        let if_ = [TokenType::If];
        assert(if_@ =~= seq![TokenType::If]);
        let while_ = [TokenType::While];
        assert(while_@ =~= seq![TokenType::While]);
        if self.matches(&print) {
            self.print_statement()
        } else if self.matches(&left_brace) {
            self.block()
        } else if self.matches(&if_) {
            self.if_statement()
        } else if self.matches(&while_) {
            self.while_statement()
        } else {
            self.expression_statement()
        }
    }

    /// var_declaration := identifier ( "=" expression )? ";"
    fn var_declaration(&mut self) -> (r: Result<Stmt, ParseError>)
        requires
            ready(*old(self)),
        ensures
            moved_on(*old(self), *final(self), r is Ok),
            (stmt_outcome(r), final(self).current as int) == p_var_declaration(
                token_views(old(self).tokens@),
                old(self).current as int,
            ),
        decreases old(self).tokens@.len() - old(self).current, 11int,
    {
        let name_tok = match self.expect(TokenType::Identifier, "Expect variable name.") {
            Ok(t) => t,
            Err(e) => return Err(e),
        };
        let mut init: Option<Expr> = None;
        let kinds = [TokenType::Equal];
        assert(kinds@ =~= seq![TokenType::Equal]);
        if self.matches(&kinds) {
            let e = match self.expression() {
                Ok(e) => e,
                Err(e) => return Err(e),
            };
            init = Some(e);
        }
        match self.expect(TokenType::Semicolon, "Expect ';' after variable declaration.") {
            Ok(_) => {},
            Err(e) => return Err(e),
        }
        Ok(Stmt::Var { identifier: name_tok.lexeme, expression: init })
    }

    /// declaration := "var" var_declaration | statement
    fn declaration(&mut self) -> (r: Result<Stmt, ParseError>)
        requires
            ready(*old(self)),
        ensures
            moved_on(*old(self), *final(self), r is Ok),
            (stmt_outcome(r), final(self).current as int) == p_declaration(
                token_views(old(self).tokens@),
                old(self).current as int,
            ),
        decreases old(self).tokens@.len() - old(self).current, 13int,
    {
        let kinds = [TokenType::Var];
        assert(kinds@ =~= seq![TokenType::Var]);
        if self.matches(&kinds) {
            self.var_declaration()
        } else {
            self.statement()
        }
    }

    /// Parses one expression from the current position. On failure, records
    /// the error and that there was one, and gives nothing.
    pub fn parse(&mut self) -> (r: Option<Expr>)
        requires
            ready(*old(self)),
        ensures
            ({
                let (outcome, q) = p_expression(token_views(old(self).tokens@), old(self).current as int);
                &&& final(self).current == q
                &&& match outcome {
                    Ok(e) => {
                        &&& r matches Some(x) && x@ == e
                        &&& !final(self).encountered_error
                        &&& final(self).error is None
                    },
                    Err(e) => {
                        &&& r is None
                        &&& final(self).encountered_error
                        &&& final(self).error matches Some(x) && x@ == e
                    },
                }
            }),
            final(self).tokens == old(self).tokens,
    {
        self.encountered_error = false;
        self.error = None;
        match self.expression() {
            Ok(expr) => Some(expr),
            Err(e) => {
                self.error = Some(e);
                self.encountered_error = true;
                None
            },
        }
    }

    /// Parses declarations from the current position to the end of the
    /// tokens, stopping at the first error.
    pub fn parse_stmts(&mut self) -> (r: Result<Vec<Stmt>, ParseError>)
        requires
            old(self).current >= old(self).tokens@.len() || well_formed_tokens(
                token_views(old(self).tokens@),
            ),
        ensures
            ({
                let (outcome, q) = p_program(
                    token_views(old(self).tokens@),
                    old(self).current as int,
                    Seq::empty(),
                );
                &&& final(self).current == q
                &&& match outcome {
                    Ok(s) => r matches Ok(v) && stmt_views(v@) == s,
                    Err(e) => r matches Err(x) && x@ == e,
                }
            }),
            final(self).tokens == old(self).tokens,
            final(self).encountered_error == old(self).encountered_error,
            final(self).error == old(self).error,
    {
        let ghost t = token_views(self.tokens@);
        let mut statements: Vec<Stmt> = Vec::new();
        assert(stmt_views(statements@) =~= Seq::empty());
        while !self.is_at_end()
            invariant
                self.tokens == old(self).tokens,
                self.encountered_error == old(self).encountered_error,
                self.error == old(self).error,
                t == token_views(self.tokens@),
                old(self).current < self.tokens@.len() ==> well_formed_tokens(t),
                old(self).current <= self.current,
                p_program(t, self.current as int, stmt_views(statements@)) == p_program(
                    t,
                    old(self).current as int,
                    Seq::empty(),
                ),
            decreases self.tokens@.len() - self.current,
        {
            let s = match self.declaration() {
                Ok(s) => s,
                Err(e) => return Err(e),
            };
            let ghost before = stmt_views(statements@);
            statements.push(s);
            assert(stmt_views(statements@) =~= before.push(s@));
        }
        Ok(statements)
    }
}

/// Whatever text the lexer reads, the parser can read its tokens: they are
/// closed by the end-of-file token.
pub proof fn law_lexer_output_is_parseable(src: Seq<char>)
    ensures
        well_formed_tokens(tokenize(src)),
{
    law_tokens_end_with_eof(src);
}

/// A program that parses is read up to the end of its tokens, and its
/// statements follow those already read.
pub proof fn law_program_reads_to_end(t: Seq<TokenView>, p: int, acc: Seq<StmtView>)
    requires
        0 <= p,
        p_program(t, p, acc).0 is Ok,
    ensures
        at_end(t, p_program(t, p, acc).1),
        p_program(t, p, acc).0->Ok_0.len() >= acc.len(),
        p_program(t, p, acc).0->Ok_0.take(acc.len() as int) == acc,
    decreases t.len() - p,
{
    if at_end(t, p) || p < 0 {
        assert(acc.take(acc.len() as int) =~= acc);
    } else {
        let (s, q) = p_declaration(t, p);
        if let Ok(st) = s {
            if p < q <= t.len() {
                law_program_reads_to_end(t, q, acc.push(st));
                let out = p_program(t, p, acc).0->Ok_0;
                assert(out.take(acc.len() + 1int) == acc.push(st));
                assert(out.take(acc.len() as int) =~= acc.push(st).take(acc.len() as int));
                assert(acc.push(st).take(acc.len() as int) =~= acc);
            }
        }
    }
}

/// After an error, the parser skips to a statement boundary: just past a
/// ";", or onto a token that starts a statement, or to the end; and never
/// backwards.
pub proof fn law_synchronize_stops_at_boundary(t: Seq<TokenView>, p: int)
    requires
        1 <= p,
    ensures
        ({
            let q = p_synchronize_from(t, p);
            &&& p <= q
            &&& at_end(t, q) || t[q - 1].token_type == TokenType::Semicolon || seq![
                TokenType::Class,
                TokenType::Fun,
                TokenType::Var,
                TokenType::For,
                TokenType::If,
                TokenType::While,
                TokenType::Print,
                TokenType::Return,
            ].contains(t[q].token_type)
        }),
    decreases t.len() - p,
{
    if !at_end(t, p) && t[p - 1].token_type != TokenType::Semicolon && !seq![
        TokenType::Class,
        TokenType::Fun,
        TokenType::Var,
        TokenType::For,
        TokenType::If,
        TokenType::While,
        TokenType::Print,
        TokenType::Return,
    ].contains(t[p].token_type) {
        law_synchronize_stops_at_boundary(t, p + 1);
    }
}


/// The operators that join two operands.
pub open spec fn is_binary_operator(k: TokenType) -> bool {
    ||| k == TokenType::Or
    ||| k == TokenType::And
    ||| k == TokenType::BangEqual
    ||| k == TokenType::EqualEqual
    ||| k == TokenType::Greater
    ||| k == TokenType::GreaterEqual
    ||| k == TokenType::Less
    ||| k == TokenType::LessEqual
    ||| k == TokenType::Minus
    ||| k == TokenType::Plus
    ||| k == TokenType::Slash
    ||| k == TokenType::Star
}

/// The literal a number token reads as.
pub open spec fn number_literal(tok: TokenView) -> ExprView {
    ExprView::Literal(LiteralView::Number(tok.literal))
}

proof fn lemma_level_ops_contains(level: BinaryLevel, k: TokenType)
    ensures
        level_ops(level).contains(k) <==> match level {
            BinaryLevel::Or => k == TokenType::Or,
            BinaryLevel::And => k == TokenType::And,
            BinaryLevel::Equality => k == TokenType::BangEqual || k == TokenType::EqualEqual,
            BinaryLevel::Comparison => k == TokenType::Greater || k == TokenType::GreaterEqual
                || k == TokenType::Less || k == TokenType::LessEqual,
            BinaryLevel::Term => k == TokenType::Minus || k == TokenType::Plus,
            BinaryLevel::Factor => k == TokenType::Slash || k == TokenType::Star,
        },
{
    let ops = level_ops(level);
    if ops.contains(k) {
        let i = choose|i: int| 0 <= i < ops.len() && ops[i] == k;
        assert(ops[i] == k);
    } else {
        match level {
            BinaryLevel::Comparison => {
                assert(ops[0] == TokenType::Greater && ops[1] == TokenType::GreaterEqual);
                assert(ops[2] == TokenType::Less && ops[3] == TokenType::LessEqual);
            },
            BinaryLevel::Equality | BinaryLevel::Term | BinaryLevel::Factor => {
                assert(ops[0] != k && ops[1] != k);
            },
            _ => {
                assert(ops[0] != k);
            },
        }
    }
}

/// No operator of `level` or of a level below it is at `q`.
pub open spec fn no_ops_from(t: Seq<TokenView>, q: int, level: BinaryLevel) -> bool {
    forall|m: BinaryLevel|
        level_rank(m) <= level_rank(level) ==> !at_kind_in(t, q, #[trigger] level_ops(m))
}

proof fn lemma_number_unary(t: Seq<TokenView>, p: int)
    requires
        0 <= p < t.len(),
        t[p].token_type == TokenType::Number,
        is_number_text(t[p].literal),
    ensures
        p_unary(t, p) == (Ok::<ExprView, ParseErrorView>(number_literal(t[p])), p + 1),
{
    assert(!at_kind_in(t, p, seq![TokenType::Bang, TokenType::Minus])) by {
        if seq![TokenType::Bang, TokenType::Minus].contains(t[p].token_type) {
            let i = choose|i: int|
                0 <= i < 2 && seq![TokenType::Bang, TokenType::Minus][i] == t[p].token_type;
        }
    }
    assert(p_unary(t, p) == p_primary(t, p));
    assert(p_primary(t, p) == (Ok::<ExprView, ParseErrorView>(number_literal(t[p])), p + 1));
}

/// A number followed by no operator of `level` or below is an operand of
/// `level` by itself.
proof fn lemma_number_operand(t: Seq<TokenView>, p: int, level: BinaryLevel)
    requires
        0 <= p,
        p + 1 < t.len(),
        t[p].token_type == TokenType::Number,
        is_number_text(t[p].literal),
        no_ops_from(t, p + 1, level),
    ensures
        p_binary(t, level, p) == (Ok::<ExprView, ParseErrorView>(number_literal(t[p])), p + 1),
    decreases level_rank(level),
{
    assert(!at_kind_in(t, p + 1, level_ops(level)));
    let lit = number_literal(t[p]);
    assert(p_binary_tail(t, level, lit, p + 1) == (Ok::<ExprView, ParseErrorView>(lit), p + 1));
    match level {
        BinaryLevel::Factor => lemma_number_unary(t, p),
        _ => lemma_number_operand(t, p, next_level(level)),
    }
}

/// The level just above `level` (`Or` has none).
pub open spec fn level_above(level: BinaryLevel) -> BinaryLevel {
    match level {
        BinaryLevel::Factor => BinaryLevel::Term,
        BinaryLevel::Term => BinaryLevel::Comparison,
        BinaryLevel::Comparison => BinaryLevel::Equality,
        BinaryLevel::Equality => BinaryLevel::And,
        BinaryLevel::And => BinaryLevel::Or,
        BinaryLevel::Or => BinaryLevel::Or,
    }
}

/// An expression read at one level, followed by no operator at all, is read
/// the same at every level above it.
proof fn lemma_lift_to_or(t: Seq<TokenView>, p: int, level: BinaryLevel, e: ExprView, q: int)
    requires
        0 <= p <= q < t.len(),
        p_binary(t, level, p) == (Ok::<ExprView, ParseErrorView>(e), q),
        no_ops_from(t, q, BinaryLevel::Or),
    ensures
        p_binary(t, BinaryLevel::Or, p) == (Ok::<ExprView, ParseErrorView>(e), q),
    decreases 8 - level_rank(level),
{
    if level != BinaryLevel::Or {
        let up = level_above(level);
        assert(next_level(up) == level && up != BinaryLevel::Factor);
        assert(!at_kind_in(t, q, level_ops(up)));
        assert(p_binary_tail(t, up, e, q) == (Ok::<ExprView, ParseErrorView>(e), q));
        lemma_lift_to_or(t, p, up, e, q);
    }
}

/// Between two numbers and before the end, each binary operator joins the
/// two numbers into one expression that reads up to the end: `and` and `or`
/// into a logical one, every other operator into a binary one.
pub proof fn law_operator_between_numbers(t: Seq<TokenView>, p: int)
    requires
        0 <= p,
        p + 3 < t.len(),
        t[p].token_type == TokenType::Number,
        is_number_text(t[p].literal),
        is_binary_operator(t[p + 1].token_type),
        t[p + 2].token_type == TokenType::Number,
        is_number_text(t[p + 2].literal),
        t[p + 3].token_type == TokenType::Eof,
    ensures
        p_expression(t, p) == (
            Ok::<ExprView, ParseErrorView>(
                if t[p + 1].token_type == TokenType::And || t[p + 1].token_type == TokenType::Or {
                    ExprView::Logical {
                        left: Box::new(number_literal(t[p])),
                        operator: t[p + 1],
                        right: Box::new(number_literal(t[p + 2])),
                    }
                } else {
                    ExprView::Binary {
                        left: Box::new(number_literal(t[p])),
                        operator: t[p + 1],
                        right: Box::new(number_literal(t[p + 2])),
                    }
                },
            ),
            p + 3,
        ),
{
    let k = t[p + 1].token_type;
    let level = if k == TokenType::Or {
        BinaryLevel::Or
    } else if k == TokenType::And {
        BinaryLevel::And
    } else if k == TokenType::BangEqual || k == TokenType::EqualEqual {
        BinaryLevel::Equality
    } else if k == TokenType::Minus || k == TokenType::Plus {
        BinaryLevel::Term
    } else if k == TokenType::Slash || k == TokenType::Star {
        BinaryLevel::Factor
    } else {
        BinaryLevel::Comparison
    };
    assert forall|m: BinaryLevel| level_rank(m) <= level_rank(BinaryLevel::Or) implies !at_kind_in(
        t,
        p + 3,
        #[trigger] level_ops(m),
    ) by {
        lemma_level_ops_contains(m, TokenType::Eof);
    }
    assert forall|m: BinaryLevel| level_rank(m) < level_rank(level) implies !at_kind_in(
        t,
        p + 1,
        #[trigger] level_ops(m),
    ) by {
        lemma_level_ops_contains(m, k);
    }
    lemma_level_ops_contains(level, k);
    assert(at_kind_in(t, p + 1, level_ops(level)));
    let e = combine(level, number_literal(t[p]), t[p + 1], number_literal(t[p + 2]));
    if level == BinaryLevel::Factor {
        lemma_number_unary(t, p);
        lemma_number_unary(t, p + 2);
    } else {
        assert(no_ops_from(t, p + 1, next_level(level)));
        lemma_number_operand(t, p, next_level(level));
        lemma_number_operand(t, p + 2, next_level(level));
    }
    assert(!at_kind_in(t, p + 3, level_ops(level)));
    assert(p_binary_tail(t, level, e, p + 3) == (Ok::<ExprView, ParseErrorView>(e), p + 3));
    assert(p_binary_tail(t, level, number_literal(t[p]), p + 1) == (
        Ok::<ExprView, ParseErrorView>(e),
        p + 3,
    ));
    assert(p_binary(t, level, p) == (Ok::<ExprView, ParseErrorView>(e), p + 3));
    lemma_lift_to_or(t, p, level, e, p + 3);
    assert(!at_kind_in(t, p + 3, seq![TokenType::Equal])) by {
        if seq![TokenType::Equal].contains(t[p + 3].token_type) {
            let i = choose|i: int| 0 <= i < 1 && seq![TokenType::Equal][i] == t[p + 3].token_type;
        }
    }
}

} // verus!
