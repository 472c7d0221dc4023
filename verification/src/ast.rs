//! The syntax tree: expressions, statements, and the printed form of an expression.
use vstd::prelude::*;
use crate::token::{Token, TokenView};

verus! {

/// A literal value. A number keeps its literal text.
pub enum LiteralValue {
    Number(String),
    Str(String),
    Bool(bool),
    Nil,
}

/// An expression.
#[allow(inconsistent_fields)]
pub enum Expr {
    Unary { operator: Token, right: Box<Expr> },
    Binary { left: Box<Expr>, operator: Token, right: Box<Expr> },
    Logical { left: Box<Expr>, operator: Token, right: Box<Expr> },
    Grouping(Box<Expr>),
    Literal(LiteralValue),
    Variable(Token),
    Assign { left: Token, right: Box<Expr> },
}

/// A statement.
pub enum Stmt {
    Expression(Expr),
    Print(Expr),
    Var { identifier: String, expression: Option<Expr> },
    Block(Vec<Stmt>),
    If { condition: Expr, then_branch: Box<Stmt>, else_branch: Option<Box<Stmt>> },
    While { condition: Expr, body: Box<Stmt> },
}

/// A literal value with its text taken as a character sequence.
pub enum LiteralView {
    Number(Seq<char>),
    Str(Seq<char>),
    Bool(bool),
    Nil,
}

/// An expression with its tokens and texts taken by their views.
#[allow(inconsistent_fields)]
pub enum ExprView {
    Unary { operator: TokenView, right: Box<ExprView> },
    Binary { left: Box<ExprView>, operator: TokenView, right: Box<ExprView> },
    Logical { left: Box<ExprView>, operator: TokenView, right: Box<ExprView> },
    Grouping(Box<ExprView>),
    Literal(LiteralView),
    Variable(TokenView),
    Assign { left: TokenView, right: Box<ExprView> },
}

/// A statement with its parts taken by their views.
pub enum StmtView {
    Expression(ExprView),
    Print(ExprView),
    Var { identifier: Seq<char>, expression: Option<ExprView> },
    Block(Seq<StmtView>),
    If { condition: ExprView, then_branch: Box<StmtView>, else_branch: Option<Box<StmtView>> },
    While { condition: ExprView, body: Box<StmtView> },
}

impl View for LiteralValue {
    type V = LiteralView;

    open spec fn view(&self) -> LiteralView {
        match self {
            LiteralValue::Number(s) => LiteralView::Number(s@),
            LiteralValue::Str(s) => LiteralView::Str(s@),
            LiteralValue::Bool(b) => LiteralView::Bool(*b),
            LiteralValue::Nil => LiteralView::Nil,
        }
    }
}

impl Expr {
    pub open spec fn spec_view(&self) -> ExprView
        decreases self,
    {
        match self {
            Expr::Unary { operator, right } => ExprView::Unary {
                operator: operator@,
                right: Box::new(right.spec_view()),
            },
            Expr::Binary { left, operator, right } => ExprView::Binary {
                left: Box::new(left.spec_view()),
                operator: operator@,
                right: Box::new(right.spec_view()),
            },
            Expr::Logical { left, operator, right } => ExprView::Logical {
                left: Box::new(left.spec_view()),
                operator: operator@,
                right: Box::new(right.spec_view()),
            },
            Expr::Grouping(e) => ExprView::Grouping(Box::new(e.spec_view())),
            Expr::Literal(l) => ExprView::Literal(l@),
            Expr::Variable(t) => ExprView::Variable(t@),
            Expr::Assign { left, right } => ExprView::Assign {
                left: left@,
                right: Box::new(right.spec_view()),
            },
        }
    }
}

impl View for Expr {
    type V = ExprView;

    open spec fn view(&self) -> ExprView {
        self.spec_view()
    }
}

impl Stmt {
    pub open spec fn spec_view(&self) -> StmtView
        decreases self,
    {
        match self {
            Stmt::Expression(e) => StmtView::Expression(e@),
            Stmt::Print(e) => StmtView::Print(e@),
            Stmt::Var { identifier, expression } => StmtView::Var {
                identifier: identifier@,
                expression: match expression {
                    Some(e) => Some(e@),
                    None => None,
                },
            },
            Stmt::Block(stmts) => StmtView::Block(
                Seq::new(
                    stmts@.len(),
                    |i: int|
                        if 0 <= i < stmts@.len() {
                            stmts@[i].spec_view()
                        } else {
                            StmtView::Block(Seq::empty())
                        },
                ),
            ),
            Stmt::If { condition, then_branch, else_branch } => StmtView::If {
                condition: condition@,
                then_branch: Box::new(then_branch.spec_view()),
                else_branch: match else_branch {
                    Some(b) => Some(Box::new(b.spec_view())),
                    None => None,
                },
            },
            Stmt::While { condition, body } => StmtView::While {
                condition: condition@,
                body: Box::new(body.spec_view()),
            },
        }
    }
}

impl View for Stmt {
    type V = StmtView;

    open spec fn view(&self) -> StmtView {
        self.spec_view()
    }
}

/// The printed form of a literal value.
pub open spec fn literal_text(l: LiteralView) -> Seq<char> {
    match l {
        LiteralView::Number(s) => s,
        LiteralView::Str(s) => s,
        LiteralView::Bool(b) => if b {
            "true"@
        } else {
            "false"@
        },
        LiteralView::Nil => "nil"@,
    }
}

/// The printed form of an expression: operators in prefix position, every
/// compound in parentheses.
pub open spec fn expr_text(e: ExprView) -> Seq<char>
    decreases e,
{
    match e {
        ExprView::Unary { operator, right } => "("@ + operator.lexeme + " "@ + expr_text(*right)
            + ")"@,
        ExprView::Binary { left, operator, right } => "("@ + operator.lexeme + " "@ + expr_text(
            *left,
        ) + " "@ + expr_text(*right) + ")"@,
        ExprView::Logical { left, operator, right } => "("@ + operator.lexeme + " "@ + expr_text(
            *left,
        ) + " "@ + expr_text(*right) + ")"@,
        ExprView::Grouping(inner) => "(group "@ + expr_text(*inner) + ")"@,
        ExprView::Literal(l) => literal_text(l),
        ExprView::Variable(t) => t.lexeme,
        ExprView::Assign { left, right } => "(assign "@ + left.lexeme + " "@ + expr_text(*right)
            + ")"@,
    }
}

impl LiteralValue {
    /// The printed form of this value.
    pub fn to_string(&self) -> (r: String)
        ensures
            r@ == literal_text(self@),
    {
        match self {
            LiteralValue::Number(s) => s.clone(),
            LiteralValue::Str(s) => s.clone(),
            LiteralValue::Bool(b) => if *b {
                String::from_str("true")
            } else {
                String::from_str("false")
            },
            LiteralValue::Nil => String::from_str("nil"),
        }
    }
}

impl Expr {
    /// The printed form of this expression.
    pub fn to_string(&self) -> (r: String)
        ensures
            r@ == expr_text(self@),
        decreases self,
    {
        match self {
            Expr::Unary { operator, right } => {
                let mut r = String::from_str("(");
                r.append(operator.lexeme.as_str());
                r.append(" ");
                let inner = right.to_string();
                r.append(inner.as_str());
                r.append(")");
                r
            },
            Expr::Binary { left, operator, right } => {
                let mut r = String::from_str("(");
                r.append(operator.lexeme.as_str());
                r.append(" ");
                let l = left.to_string();
                r.append(l.as_str());
                r.append(" ");
                let rt = right.to_string();
                r.append(rt.as_str());
                r.append(")");
                r
            },
            Expr::Logical { left, operator, right } => {
                let mut r = String::from_str("(");
                r.append(operator.lexeme.as_str());
                r.append(" ");
                let l = left.to_string();
                r.append(l.as_str());
                r.append(" ");
                let rt = right.to_string();
                r.append(rt.as_str());
                r.append(")");
                r
            },
            Expr::Grouping(e) => {
                let mut r = String::from_str("(group ");
                let inner = e.to_string();
                r.append(inner.as_str());
                r.append(")");
                r
            },
            Expr::Literal(l) => l.to_string(),
            Expr::Variable(t) => t.lexeme.clone(),
            Expr::Assign { left, right } => {
                let mut r = String::from_str("(assign ");
                r.append(left.lexeme.as_str());
                r.append(" ");
                let inner = right.to_string();
                r.append(inner.as_str());
                r.append(")");
                r
            },
        }
    }
}

impl Clone for LiteralValue {
    fn clone(&self) -> (r: Self)
        ensures
            r@ == self@,
    {
        match self {
            LiteralValue::Number(s) => LiteralValue::Number(s.clone()),
            LiteralValue::Str(s) => LiteralValue::Str(s.clone()),
            LiteralValue::Bool(b) => LiteralValue::Bool(*b),
            LiteralValue::Nil => LiteralValue::Nil,
        }
    }
}

impl Clone for Expr {
    fn clone(&self) -> (r: Self)
        ensures
            r@ == self@,
        decreases self,
    {
        match self {
            Expr::Unary { operator, right } => Expr::Unary {
                operator: operator.clone(),
                right: Box::new((**right).clone()),
            },
            Expr::Binary { left, operator, right } => Expr::Binary {
                left: Box::new((**left).clone()),
                operator: operator.clone(),
                right: Box::new((**right).clone()),
            },
            Expr::Logical { left, operator, right } => Expr::Logical {
                left: Box::new((**left).clone()),
                operator: operator.clone(),
                right: Box::new((**right).clone()),
            },
            Expr::Grouping(e) => Expr::Grouping(Box::new((**e).clone())),
            Expr::Literal(l) => Expr::Literal(l.clone()),
            Expr::Variable(t) => Expr::Variable(t.clone()),
            Expr::Assign { left, right } => Expr::Assign {
                left: left.clone(),
                right: Box::new((**right).clone()),
            },
        }
    }
}

/// Whether two tokens hold the same kind, texts and line.
pub fn same_token(a: &Token, b: &Token) -> (r: bool)
    ensures
        r == (a@ == b@),
{
    a.token_type == b.token_type && a.lexeme == b.lexeme && a.literal == b.literal && a.line == b.line
}

/// Whether two literal values are the same.
pub fn same_literal(a: &LiteralValue, b: &LiteralValue) -> (r: bool)
    ensures
        r == (a@ == b@),
{
    match (a, b) {
        (LiteralValue::Number(x), LiteralValue::Number(y)) => *x == *y,
        (LiteralValue::Str(x), LiteralValue::Str(y)) => *x == *y,
        (LiteralValue::Bool(x), LiteralValue::Bool(y)) => *x == *y,
        (LiteralValue::Nil, LiteralValue::Nil) => true,
        _ => false,
    }
}

/// Whether two expressions are the same tree with the same tokens.
pub fn same_expr(a: &Expr, b: &Expr) -> (r: bool)
    ensures
        r == (a@ == b@),
    decreases a,
{
    match (a, b) {
        (Expr::Unary { operator: o1, right: r1 }, Expr::Unary { operator: o2, right: r2 }) => {
            same_token(o1, o2) && same_expr(r1, r2)
        },
        (
            Expr::Binary { left: l1, operator: o1, right: r1 },
            Expr::Binary { left: l2, operator: o2, right: r2 },
        ) => same_expr(l1, l2) && same_token(o1, o2) && same_expr(r1, r2),
        (
            Expr::Logical { left: l1, operator: o1, right: r1 },
            Expr::Logical { left: l2, operator: o2, right: r2 },
        ) => same_expr(l1, l2) && same_token(o1, o2) && same_expr(r1, r2),
        (Expr::Grouping(e1), Expr::Grouping(e2)) => same_expr(e1, e2),
        (Expr::Literal(x), Expr::Literal(y)) => same_literal(x, y),
        (Expr::Variable(x), Expr::Variable(y)) => same_token(x, y),
        (Expr::Assign { left: t1, right: r1 }, Expr::Assign { left: t2, right: r2 }) => {
            same_token(t1, t2) && same_expr(r1, r2)
        },
        _ => false,
    }
}

} // verus!
