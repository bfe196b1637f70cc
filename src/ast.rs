use vstd::prelude::*;

verus! {

/// One of the seven action commands.
#[derive(Debug, Clone, Copy, PartialEq, Eq, Structural)]
pub enum Command {
    MoveUp,
    MoveDown,
    MoveLeft,
    MoveRight,
    Jump,
    Attack,
    Defend,
}

#[derive(Debug, Clone, Copy, PartialEq, Eq, Structural)]
pub enum BinaryOp {
    Add,
    Sub,
}

/// An arithmetic expression.
#[derive(Debug, PartialEq)]
pub enum Expression {
    Identifier(String),
    Number(i64),
    Binary { left: Box<Expression>, op: BinaryOp, right: Box<Expression> },
}

/// A statement; the bodies of `if`, `while` and `for` are blocks.
#[derive(Debug, PartialEq)]
pub enum Statement {
    Command(Command),
    If { condition: Expression, then_branch: Box<Statement>, else_branch: Box<Statement> },
    While { condition: Expression, body: Box<Statement> },
    For { init: Expression, condition: Expression, update: Expression, body: Box<Statement> },
    Block(Vec<Statement>),
}

/// The mathematical model of an expression.
pub ghost enum ExprView {
    Identifier(Seq<char>),
    Number(i64),
    Binary { left: Box<ExprView>, op: BinaryOp, right: Box<ExprView> },
}

/// The mathematical model of a statement.
pub ghost enum StmtView {
    Command(Command),
    If { condition: ExprView, then_branch: Box<StmtView>, else_branch: Box<StmtView> },
    While { condition: ExprView, body: Box<StmtView> },
    For { init: ExprView, condition: ExprView, update: ExprView, body: Box<StmtView> },
    Block(Seq<StmtView>),
}

pub open spec fn expr_view(e: Expression) -> ExprView
    decreases e,
{
    match e {
        Expression::Identifier(s) => ExprView::Identifier(s@),
        Expression::Number(n) => ExprView::Number(n),
        Expression::Binary { left, op, right } => ExprView::Binary {
            left: Box::new(expr_view(*left)),
            op,
            right: Box::new(expr_view(*right)),
        },
    }
}

pub open spec fn stmt_view(s: Statement) -> StmtView
    decreases s, 0int,
{
    match s {
        Statement::Command(c) => StmtView::Command(c),
        Statement::If { condition, then_branch, else_branch } => StmtView::If {
            condition: expr_view(condition),
            then_branch: Box::new(stmt_view(*then_branch)),
            else_branch: Box::new(stmt_view(*else_branch)),
        },
        Statement::While { condition, body } => StmtView::While {
            condition: expr_view(condition),
            body: Box::new(stmt_view(*body)),
        },
        Statement::For { init, condition, update, body } => StmtView::For {
            init: expr_view(init),
            condition: expr_view(condition),
            update: expr_view(update),
            body: Box::new(stmt_view(*body)),
        },
        Statement::Block(v) => StmtView::Block(vec_prefix_view(v, v.len() as int)),
    }
}

/// The models of the first `n` statements of `v`.
pub open spec fn vec_prefix_view(v: Vec<Statement>, n: int) -> Seq<StmtView>
    decreases v, n,
{
    if n <= 0 || n > v.len() {
        Seq::empty()
    } else {
        vec_prefix_view(v, n - 1).push(stmt_view(v[n - 1]))
    }
}

/// The models of a sequence of statements.
pub open spec fn stmts_view(v: Seq<Statement>) -> Seq<StmtView> {
    v.map_values(|s: Statement| stmt_view(s))
}

/// The prefix view of a whole vector is the view of its contents.
pub proof fn lemma_vec_view(v: Vec<Statement>, n: int)
    requires
        0 <= n <= v.len(),
    ensures
        vec_prefix_view(v, n) == stmts_view(v@.subrange(0, n)),
    decreases n,
{
    if n > 0 {
        lemma_vec_view(v, n - 1);
        assert(stmts_view(v@.subrange(0, n)) =~= stmts_view(v@.subrange(0, n - 1)).push(
            stmt_view(v[n - 1]),
        ));
    } else {
        assert(stmts_view(v@.subrange(0, n)) =~= Seq::empty());
    }
}

} // verus!
