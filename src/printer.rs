use vstd::prelude::*;
use crate::ast::{BinaryOp, Command, ExprView, StmtView};
use crate::parser::{
    additive_op, block, command_of, expr, expr_tail, for_stmt, if_stmt, items, kind_at,
    parse_tokens, program, shifted, statement, term, visible, while_stmt,
};
use crate::parser::ParseError;
use crate::token::{TokenKind, TokenView};

verus! {

// Printing a syntax tree back to tokens. Parsing printed tokens gives the tree
// back, which shows that every well-formed program is accepted.

pub open spec fn command_kind(c: Command) -> TokenKind {
    match c {
        Command::MoveUp => TokenKind::MoveUp,
        Command::MoveDown => TokenKind::MoveDown,
        Command::MoveLeft => TokenKind::MoveLeft,
        Command::MoveRight => TokenKind::MoveRight,
        Command::Jump => TokenKind::Jump,
        Command::Attack => TokenKind::Attack,
        Command::Defend => TokenKind::Defend,
    }
}

pub open spec fn op_kind(op: BinaryOp) -> TokenKind {
    match op {
        BinaryOp::Add => TokenKind::Plus,
        BinaryOp::Sub => TokenKind::Minus,
    }
}

pub open spec fn simple(k: TokenKind) -> Seq<TokenView> {
    seq![TokenView::Simple(k)]
}

/// The tokens of an expression; a binary right operand is put in parentheses,
/// since the operators group to the left.
pub open spec fn expr_tokens(e: ExprView) -> Seq<TokenView>
    decreases e, 0int,
{
    match e {
        ExprView::Identifier(w) => seq![TokenView::Identifier(w)],
        ExprView::Number(n) => seq![TokenView::Number(n)],
        ExprView::Binary { left, op, right } => expr_tokens(*left) + simple(op_kind(op))
            + operand_tokens(*right),
    }
}

/// The tokens of an expression that stands as a right operand.
pub open spec fn operand_tokens(e: ExprView) -> Seq<TokenView>
    decreases e, 1int,
{
    if e is Binary {
        simple(TokenKind::LParen) + expr_tokens(e) + simple(TokenKind::RParen)
    } else {
        expr_tokens(e)
    }
}

/// The tokens of a statement.
pub open spec fn stmt_tokens(s: StmtView) -> Seq<TokenView>
    decreases s,
{
    match s {
        StmtView::Command(c) => simple(command_kind(c)),
        StmtView::If { condition, then_branch, else_branch } => simple(TokenKind::If) + simple(
            TokenKind::LParen,
        ) + expr_tokens(condition) + simple(TokenKind::RParen) + stmt_tokens(*then_branch)
            + simple(TokenKind::Else) + stmt_tokens(*else_branch),
        StmtView::While { condition, body } => simple(TokenKind::While) + simple(TokenKind::LParen)
            + expr_tokens(condition) + simple(TokenKind::RParen) + stmt_tokens(*body),
        StmtView::For { init, condition, update, body } => simple(TokenKind::For) + simple(
            TokenKind::LParen,
        ) + expr_tokens(init) + simple(TokenKind::Semicolon) + expr_tokens(condition) + simple(
            TokenKind::Semicolon,
        ) + expr_tokens(update) + simple(TokenKind::RParen) + stmt_tokens(*body),
        StmtView::Block(ss) => simple(TokenKind::LBrace) + stmts_tokens(ss) + simple(
            TokenKind::RBrace,
        ),
    }
}

/// The tokens of a sequence of statements, one after the other.
pub open spec fn stmts_tokens(ss: Seq<StmtView>) -> Seq<TokenView>
    decreases ss,
{
    if ss.len() == 0 {
        Seq::empty()
    } else {
        stmt_tokens(ss[0]) + stmts_tokens(ss.subrange(1, ss.len() as int))
    }
}

/// A statement of the grammar: the bodies of `if`, `else`, `while` and `for` are blocks.
pub open spec fn stmt_wf(s: StmtView) -> bool
    decreases s,
{
    match s {
        StmtView::Command(_) => true,
        StmtView::If { condition, then_branch, else_branch } => *then_branch is Block
            && *else_branch is Block && stmt_wf(*then_branch) && stmt_wf(*else_branch),
        StmtView::While { condition, body } => *body is Block && stmt_wf(*body),
        StmtView::For { init, condition, update, body } => *body is Block && stmt_wf(*body),
        StmtView::Block(ss) => stmts_wf(ss),
    }
}

pub open spec fn stmts_wf(ss: Seq<StmtView>) -> bool
    decreases ss,
{
    if ss.len() == 0 {
        true
    } else {
        stmt_wf(ss[0]) && stmts_wf(ss.subrange(1, ss.len() as int))
    }
}

/// `x` stands in `toks` from index `i` on.
pub open spec fn occurs_at(toks: Seq<TokenView>, i: int, x: Seq<TokenView>) -> bool {
    &&& 0 <= i
    &&& i + x.len() <= toks.len()
    &&& forall|k: int| #![trigger x[k]] 0 <= k < x.len() ==> toks[i + k] == x[k]
}

proof fn lemma_occurs_split(toks: Seq<TokenView>, i: int, a: Seq<TokenView>, b: Seq<TokenView>)
    requires
        occurs_at(toks, i, a + b),
    ensures
        occurs_at(toks, i, a),
        occurs_at(toks, i + a.len(), b),
{
    assert forall|k: int| 0 <= k < a.len() implies toks[i + k] == a[k] by {
        assert((a + b)[k] == a[k]);
    }
    assert forall|k: int| 0 <= k < b.len() implies toks[i + a.len() + k] == b[k] by {
        assert((a + b)[a.len() + k] == b[k]);
    }
}

proof fn lemma_occurs_single(toks: Seq<TokenView>, i: int, k: TokenKind)
    requires
        occurs_at(toks, i, simple(k)),
    ensures
        kind_at(toks, i) == Some(k),
        toks[i] == TokenView::Simple(k),
{
    assert(simple(k)[0] == TokenView::Simple(k));
    assert(toks[i + 0] == simple(k)[0]);
}

/// Read from its start, an expression's tokens leave the parser in the
/// middle of the operator chain, with the whole expression read.
proof fn lemma_expr_prefix(toks: Seq<TokenView>, i: int, e: ExprView)
    requires
        occurs_at(toks, i, expr_tokens(e)),
    ensures
        expr(toks, i) == shifted(
            expr_tail(toks, i + expr_tokens(e).len(), e),
            expr_tokens(e).len() as int,
        ),
    decreases e, 0int,
{
    match e {
        ExprView::Binary { left, op, right } => {
            let l = expr_tokens(*left);
            let o = operand_tokens(*right);
            assert(expr_tokens(e) == l + simple(op_kind(op)) + o);
            lemma_occurs_split(toks, i, l + simple(op_kind(op)), o);
            lemma_occurs_split(toks, i, l, simple(op_kind(op)));
            lemma_occurs_single(toks, i + l.len(), op_kind(op));
            lemma_expr_prefix(toks, i, *left);
            lemma_operand(toks, i + l.len() + 1, *right);
            assert(additive_op(kind_at(toks, i + l.len())) == Some(op));
            assert(e == ExprView::Binary { left: Box::new(*left), op, right: Box::new(*right) });
        },
        _ => {
            assert(toks[i + 0] == expr_tokens(e)[0]);
        },
    }
}

/// An operand's tokens are read as one term.
proof fn lemma_operand(toks: Seq<TokenView>, i: int, e: ExprView)
    requires
        occurs_at(toks, i, operand_tokens(e)),
    ensures
        term(toks, i) == Ok::<(ExprView, nat), ParseError>((e, operand_tokens(e).len())),
    decreases e, 1int,
{
    if e is Binary {
        let x = expr_tokens(e);
        lemma_occurs_split(toks, i, simple(TokenKind::LParen) + x, simple(TokenKind::RParen));
        lemma_occurs_split(toks, i, simple(TokenKind::LParen), x);
        lemma_occurs_single(toks, i, TokenKind::LParen);
        lemma_occurs_single(toks, i + 1 + x.len(), TokenKind::RParen);
        lemma_expr_prefix(toks, i + 1, e);
        assert(expr_tail(toks, i + 1 + x.len(), e) == Ok::<(ExprView, nat), ParseError>((e, 0)));
    } else {
        assert(toks[i + 0] == expr_tokens(e)[0]);
    }
}

/// An expression followed by a token that is no `+` or `-` is read whole.
proof fn lemma_expr(toks: Seq<TokenView>, i: int, e: ExprView)
    requires
        occurs_at(toks, i, expr_tokens(e)),
        additive_op(kind_at(toks, i + expr_tokens(e).len())) is None,
    ensures
        expr(toks, i) == Ok::<(ExprView, nat), ParseError>((e, expr_tokens(e).len())),
{
    lemma_expr_prefix(toks, i, e);
}

/// A statement's first token is the one that selects its rule.
proof fn lemma_first_token(s: StmtView)
    ensures
        stmt_tokens(s).len() > 0,
        stmt_tokens(s)[0] == TokenView::Simple(first_kind(s)),
{
    match s {
        StmtView::Command(c) => {},
        StmtView::If { .. } => {},
        StmtView::While { .. } => {},
        StmtView::For { .. } => {},
        StmtView::Block(ss) => {},
    }
}

pub open spec fn first_kind(s: StmtView) -> TokenKind {
    match s {
        StmtView::Command(c) => command_kind(c),
        StmtView::If { .. } => TokenKind::If,
        StmtView::While { .. } => TokenKind::While,
        StmtView::For { .. } => TokenKind::For,
        StmtView::Block(_) => TokenKind::LBrace,
    }
}

/// A well-formed statement's tokens are read back as that statement.
proof fn lemma_stmt(toks: Seq<TokenView>, i: int, s: StmtView)
    requires
        stmt_wf(s),
        occurs_at(toks, i, stmt_tokens(s)),
    ensures
        statement(toks, i) == Ok::<(StmtView, nat), ParseError>((s, stmt_tokens(s).len())),
    decreases s, 2int,
{
    lemma_first_token(s);
    assert(toks[i + 0] == stmt_tokens(s)[0]);
    match s {
        StmtView::Command(c) => {
            assert(command_of(command_kind(c)) == Some(c));
        },
        StmtView::Block(_) => lemma_block(toks, i, s),
        StmtView::If { .. } => lemma_if(toks, i, s),
        StmtView::While { .. } => lemma_while(toks, i, s),
        StmtView::For { .. } => lemma_for(toks, i, s),
    }
}

/// An `if` statement's tokens are read back by its rule.
#[verifier::rlimit(50)]
proof fn lemma_if(toks: Seq<TokenView>, i: int, s: StmtView)
    requires
        s is If,
        stmt_wf(s),
        occurs_at(toks, i, stmt_tokens(s)),
    ensures
        if_stmt(toks, i) == Ok::<(StmtView, nat), ParseError>((s, stmt_tokens(s).len())),
    decreases s, 1int,
{
    if let StmtView::If { condition, then_branch, else_branch } = s {
            let c = expr_tokens(condition);
            let t = stmt_tokens(*then_branch);
            let e = stmt_tokens(*else_branch);
            let a = simple(TokenKind::If) + simple(TokenKind::LParen);
            lemma_occurs_split(toks, i, a + c + simple(TokenKind::RParen) + t + simple(TokenKind::Else), e);
            lemma_occurs_split(toks, i, a + c + simple(TokenKind::RParen) + t, simple(TokenKind::Else));
            lemma_occurs_split(toks, i, a + c + simple(TokenKind::RParen), t);
            lemma_occurs_split(toks, i, a + c, simple(TokenKind::RParen));
            lemma_occurs_split(toks, i, a, c);
            lemma_occurs_split(toks, i, simple(TokenKind::If), simple(TokenKind::LParen));
            lemma_occurs_single(toks, i, TokenKind::If);
            lemma_occurs_single(toks, i + 1, TokenKind::LParen);
            lemma_occurs_single(toks, i + 2 + c.len(), TokenKind::RParen);
            lemma_occurs_single(toks, i + 3 + c.len() + t.len(), TokenKind::Else);
            lemma_expr(toks, i + 2, condition);
            lemma_block(toks, i + 3 + c.len(), *then_branch);
            lemma_block(toks, i + 4 + c.len() + t.len(), *else_branch);
    }
}

/// A `while` statement's tokens are read back by its rule.
#[verifier::rlimit(50)]
proof fn lemma_while(toks: Seq<TokenView>, i: int, s: StmtView)
    requires
        s is While,
        stmt_wf(s),
        occurs_at(toks, i, stmt_tokens(s)),
    ensures
        while_stmt(toks, i) == Ok::<(StmtView, nat), ParseError>((s, stmt_tokens(s).len())),
    decreases s, 1int,
{
    if let StmtView::While { condition, body } = s {
            let c = expr_tokens(condition);
            let b = stmt_tokens(*body);
            let a = simple(TokenKind::While) + simple(TokenKind::LParen);
            lemma_occurs_split(toks, i, a + c + simple(TokenKind::RParen), b);
            lemma_occurs_split(toks, i, a + c, simple(TokenKind::RParen));
            lemma_occurs_split(toks, i, a, c);
            lemma_occurs_split(toks, i, simple(TokenKind::While), simple(TokenKind::LParen));
            lemma_occurs_single(toks, i, TokenKind::While);
            lemma_occurs_single(toks, i + 1, TokenKind::LParen);
            lemma_occurs_single(toks, i + 2 + c.len(), TokenKind::RParen);
            lemma_expr(toks, i + 2, condition);
            lemma_block(toks, i + 3 + c.len(), *body);
    }
}

/// A `for` statement's tokens are read back by its rule.
#[verifier::rlimit(50)]
proof fn lemma_for(toks: Seq<TokenView>, i: int, s: StmtView)
    requires
        s is For,
        stmt_wf(s),
        occurs_at(toks, i, stmt_tokens(s)),
    ensures
        for_stmt(toks, i) == Ok::<(StmtView, nat), ParseError>((s, stmt_tokens(s).len())),
    decreases s, 1int,
{
    if let StmtView::For { init, condition, update, body } = s {
            let x = expr_tokens(init);
            let c = expr_tokens(condition);
            let u = expr_tokens(update);
            let b = stmt_tokens(*body);
            let a = simple(TokenKind::For) + simple(TokenKind::LParen);
            let semi = simple(TokenKind::Semicolon);
            lemma_occurs_split(toks, i, a + x + semi + c + semi + u + simple(TokenKind::RParen), b);
            lemma_occurs_split(toks, i, a + x + semi + c + semi + u, simple(TokenKind::RParen));
            lemma_occurs_split(toks, i, a + x + semi + c + semi, u);
            lemma_occurs_split(toks, i, a + x + semi + c, semi);
            lemma_occurs_split(toks, i, a + x + semi, c);
            lemma_occurs_split(toks, i, a + x, semi);
            lemma_occurs_split(toks, i, a, x);
            lemma_occurs_split(toks, i, simple(TokenKind::For), simple(TokenKind::LParen));
            lemma_occurs_single(toks, i, TokenKind::For);
            lemma_occurs_single(toks, i + 1, TokenKind::LParen);
            lemma_occurs_single(toks, i + 2 + x.len(), TokenKind::Semicolon);
            lemma_occurs_single(toks, i + 3 + x.len() + c.len(), TokenKind::Semicolon);
            lemma_occurs_single(toks, i + 4 + x.len() + c.len() + u.len(), TokenKind::RParen);
            lemma_expr(toks, i + 2, init);
            lemma_expr(toks, i + 3 + x.len(), condition);
            lemma_expr(toks, i + 4 + x.len() + c.len(), update);
            lemma_block(toks, i + 5 + x.len() + c.len() + u.len(), *body);
    }
}

/// A well-formed block's tokens are read back as that block.
proof fn lemma_block(toks: Seq<TokenView>, i: int, b: StmtView)
    requires
        b is Block,
        stmt_wf(b),
        occurs_at(toks, i, stmt_tokens(b)),
    ensures
        block(toks, i) == Ok::<(StmtView, nat), ParseError>((b, stmt_tokens(b).len())),
    decreases b, 0int,
{
    let ss = b->Block_0;
    let x = stmts_tokens(ss);
    lemma_occurs_split(toks, i, simple(TokenKind::LBrace) + x, simple(TokenKind::RBrace));
    lemma_occurs_split(toks, i, simple(TokenKind::LBrace), x);
    lemma_occurs_single(toks, i, TokenKind::LBrace);
    lemma_occurs_single(toks, i + 1 + x.len(), TokenKind::RBrace);
    lemma_items(toks, i + 1, ss);
}

/// The tokens of well-formed statements, followed by a closing brace, are read
/// back as those statements.
proof fn lemma_items(toks: Seq<TokenView>, j: int, ss: Seq<StmtView>)
    requires
        stmts_wf(ss),
        occurs_at(toks, j, stmts_tokens(ss)),
        kind_at(toks, j + stmts_tokens(ss).len()) == Some(TokenKind::RBrace),
    ensures
        items(toks, j) == Ok::<(Seq<StmtView>, nat), ParseError>((ss, stmts_tokens(ss).len())),
    decreases ss, 0int,
{
    if ss.len() == 0 {
        assert(ss =~= Seq::<StmtView>::empty());
    } else {
        let rest = ss.subrange(1, ss.len() as int);
        let h = stmt_tokens(ss[0]);
        lemma_occurs_split(toks, j, h, stmts_tokens(rest));
        lemma_first_token(ss[0]);
        assert(toks[j + 0] == h[0]);
        lemma_stmt(toks, j, ss[0]);
        lemma_items(toks, j + h.len(), rest);
        assert(seq![ss[0]] + rest =~= ss);
    }
}

/// The tokens of well-formed statements that run to the end of the input are
/// read back as a program of those statements.
proof fn lemma_program(toks: Seq<TokenView>, i: int, ss: Seq<StmtView>)
    requires
        stmts_wf(ss),
        occurs_at(toks, i, stmts_tokens(ss)),
        i + stmts_tokens(ss).len() == toks.len(),
    ensures
        program(toks, i) == Ok::<Seq<StmtView>, ParseError>(ss),
    decreases ss,
{
    if ss.len() == 0 {
        assert(ss =~= Seq::<StmtView>::empty());
    } else {
        let rest = ss.subrange(1, ss.len() as int);
        let h = stmt_tokens(ss[0]);
        lemma_occurs_split(toks, i, h, stmts_tokens(rest));
        lemma_first_token(ss[0]);
        lemma_stmt(toks, i, ss[0]);
        lemma_program(toks, i + h.len(), rest);
        assert(seq![ss[0]] + rest =~= ss);
    }
}

/// No token of `ts` is a comment.
pub open spec fn comment_free(ts: Seq<TokenView>) -> bool {
    forall|k: int| 0 <= k < ts.len() ==> !(#[trigger] ts[k]).is_comment()
}

proof fn lemma_visible_comment_free(ts: Seq<TokenView>)
    requires
        comment_free(ts),
    ensures
        visible(ts) == ts,
    decreases ts.len(),
{
    if ts.len() > 0 {
        let d = ts.drop_last();
        assert(forall|k: int| 0 <= k < d.len() ==> d[k] == ts[k]);
        lemma_visible_comment_free(d);
        assert(d.push(ts.last()) =~= ts);
    }
}

proof fn lemma_comment_free_concat(a: Seq<TokenView>, b: Seq<TokenView>)
    requires
        comment_free(a),
        comment_free(b),
    ensures
        comment_free(a + b),
{
    assert forall|k: int| 0 <= k < (a + b).len() implies !(#[trigger] (a + b)[k]).is_comment() by {
        if k < a.len() {
            assert((a + b)[k] == a[k]);
        } else {
            assert((a + b)[k] == b[k - a.len()]);
        }
    }
}

proof fn lemma_expr_comment_free(e: ExprView)
    ensures
        comment_free(expr_tokens(e)),
        comment_free(operand_tokens(e)),
    decreases e,
{
    match e {
        ExprView::Binary { left, op, right } => {
            lemma_expr_comment_free(*left);
            lemma_expr_comment_free(*right);
            lemma_comment_free_concat(expr_tokens(*left), simple(op_kind(op)));
            lemma_comment_free_concat(expr_tokens(*left) + simple(op_kind(op)), operand_tokens(*right));
            lemma_comment_free_concat(simple(TokenKind::LParen), expr_tokens(e));
            lemma_comment_free_concat(simple(TokenKind::LParen) + expr_tokens(e), simple(TokenKind::RParen));
        },
        _ => {},
    }
}

proof fn lemma_stmt_comment_free(s: StmtView)
    ensures
        comment_free(stmt_tokens(s)),
    decreases s, 1int,
{
    let lp = simple(TokenKind::LParen);
    let rp = simple(TokenKind::RParen);
    let semi = simple(TokenKind::Semicolon);
    match s {
        StmtView::Command(c) => {},
        StmtView::If { condition, then_branch, else_branch } => {
            let a = simple(TokenKind::If);
            let c = expr_tokens(condition);
            lemma_expr_comment_free(condition);
            lemma_stmt_comment_free(*then_branch);
            lemma_stmt_comment_free(*else_branch);
            lemma_comment_free_concat(a, lp);
            lemma_comment_free_concat(a + lp, c);
            lemma_comment_free_concat(a + lp + c, rp);
            lemma_comment_free_concat(a + lp + c + rp, stmt_tokens(*then_branch));
            lemma_comment_free_concat(a + lp + c + rp + stmt_tokens(*then_branch), simple(TokenKind::Else));
            lemma_comment_free_concat(
                a + lp + c + rp + stmt_tokens(*then_branch) + simple(TokenKind::Else),
                stmt_tokens(*else_branch),
            );
        },
        StmtView::While { condition, body } => {
            let a = simple(TokenKind::While);
            let c = expr_tokens(condition);
            lemma_expr_comment_free(condition);
            lemma_stmt_comment_free(*body);
            lemma_comment_free_concat(a, lp);
            lemma_comment_free_concat(a + lp, c);
            lemma_comment_free_concat(a + lp + c, rp);
            lemma_comment_free_concat(a + lp + c + rp, stmt_tokens(*body));
        },
        StmtView::For { init, condition, update, body } => {
            let a = simple(TokenKind::For);
            let x = expr_tokens(init);
            let c = expr_tokens(condition);
            let u = expr_tokens(update);
            lemma_expr_comment_free(init);
            lemma_expr_comment_free(condition);
            lemma_expr_comment_free(update);
            lemma_stmt_comment_free(*body);
            lemma_comment_free_concat(a, lp);
            lemma_comment_free_concat(a + lp, x);
            lemma_comment_free_concat(a + lp + x, semi);
            lemma_comment_free_concat(a + lp + x + semi, c);
            lemma_comment_free_concat(a + lp + x + semi + c, semi);
            lemma_comment_free_concat(a + lp + x + semi + c + semi, u);
            lemma_comment_free_concat(a + lp + x + semi + c + semi + u, rp);
            lemma_comment_free_concat(a + lp + x + semi + c + semi + u + rp, stmt_tokens(*body));
        },
        StmtView::Block(ss) => {
            lemma_stmts_comment_free(ss);
            lemma_comment_free_concat(simple(TokenKind::LBrace), stmts_tokens(ss));
            lemma_comment_free_concat(simple(TokenKind::LBrace) + stmts_tokens(ss), simple(TokenKind::RBrace));
        },
    }
}

proof fn lemma_stmts_comment_free(ss: Seq<StmtView>)
    ensures
        comment_free(stmts_tokens(ss)),
    decreases ss, 0int,
{
    if ss.len() > 0 {
        let rest = ss.subrange(1, ss.len() as int);
        lemma_stmt_comment_free(ss[0]);
        lemma_stmts_comment_free(rest);
        lemma_comment_free_concat(stmt_tokens(ss[0]), stmts_tokens(rest));
    }
}

/// Every well-formed program is accepted: parsing the tokens of a sequence of
/// well-formed statements gives back exactly those statements, one top-level
/// statement for each top-level construct.
pub proof fn lemma_parse_complete(ss: Seq<StmtView>)
    requires
        stmts_wf(ss),
    ensures
        parse_tokens(stmts_tokens(ss)) == Ok::<Seq<StmtView>, ParseError>(ss),
{
    let ts = stmts_tokens(ss);
    lemma_stmts_comment_free(ss);
    lemma_visible_comment_free(ts);
    lemma_program(ts, 0, ss);
}

} // verus!
