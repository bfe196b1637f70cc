use vstd::prelude::*;
use crate::ast::{
    BinaryOp, Command, Expression, ExprView, Statement, StmtView, expr_view, lemma_vec_view,
    stmt_view, stmts_view,
};
use crate::lexer::views;
use crate::token::{Token, TokenKind, TokenView};

verus! {

/// What the parser was looking for where it failed.
#[derive(Debug, Clone, Copy, PartialEq, Eq, Structural)]
pub enum Expected {
    /// A token of this kind.
    Token(TokenKind),
    /// The start of a statement.
    Statement,
    /// The start of an expression.
    Expression,
}

/// Why a parse failed: what was expected, what was found (`None` at the end of
/// the input) and the index of that token among the tokens the parser reads,
/// comments not counted.
#[derive(Debug, Clone, Copy, PartialEq, Eq, Structural)]
pub struct ParseError {
    pub expected: Expected,
    pub found: Option<TokenKind>,
    pub position: usize,
}

/// The tokens the parser reads: comments are left out.
pub open spec fn visible(ts: Seq<TokenView>) -> Seq<TokenView>
    decreases ts.len(),
{
    if ts.len() == 0 {
        ts
    } else if ts.last().is_comment() {
        visible(ts.drop_last())
    } else {
        visible(ts.drop_last()).push(ts.last())
    }
}

/// How many tokens are left from index `i` on; the measure of the grammar's recursion.
pub open spec fn left(toks: Seq<TokenView>, i: int) -> nat {
    if i < toks.len() {
        (toks.len() - i) as nat
    } else {
        0
    }
}

pub open spec fn kind_at(toks: Seq<TokenView>, i: int) -> Option<TokenKind> {
    if 0 <= i < toks.len() {
        Some(toks[i].kind())
    } else {
        None
    }
}

pub open spec fn error_at(toks: Seq<TokenView>, i: int, expected: Expected) -> ParseError {
    ParseError { expected, found: kind_at(toks, i), position: i as usize }
}

/// The token at `i` must be of kind `k`.
pub open spec fn expect(toks: Seq<TokenView>, i: int, k: TokenKind) -> Result<(), ParseError> {
    if kind_at(toks, i) == Some(k) {
        Ok(())
    } else {
        Err(error_at(toks, i, Expected::Token(k)))
    }
}

pub open spec fn command_of(k: TokenKind) -> Option<Command> {
    match k {
        TokenKind::MoveUp => Some(Command::MoveUp),
        TokenKind::MoveDown => Some(Command::MoveDown),
        TokenKind::MoveLeft => Some(Command::MoveLeft),
        TokenKind::MoveRight => Some(Command::MoveRight),
        TokenKind::Jump => Some(Command::Jump),
        TokenKind::Attack => Some(Command::Attack),
        TokenKind::Defend => Some(Command::Defend),
        _ => None,
    }
}

pub open spec fn additive_op(k: Option<TokenKind>) -> Option<BinaryOp> {
    if k == Some(TokenKind::Plus) {
        Some(BinaryOp::Add)
    } else if k == Some(TokenKind::Minus) {
        Some(BinaryOp::Sub)
    } else {
        None
    }
}

// In the rules below a successful result `Ok((x, n))` at index `i` means that
// `x` was read from the `n` tokens `toks[i..i + n]`.

/// term := Number | Identifier | '(' expr ')'
pub open spec fn term(toks: Seq<TokenView>, i: int) -> Result<(ExprView, nat), ParseError>
    decreases left(toks, i), 0nat,
{
    if 0 <= i < toks.len() {
        match toks[i] {
            TokenView::Number(v) => Ok((ExprView::Number(v), 1)),
            TokenView::Identifier(w) => Ok((ExprView::Identifier(w), 1)),
            TokenView::Simple(TokenKind::LParen) => match expr(toks, i + 1) {
                Ok((e, n)) => match expect(toks, i + 1 + n, TokenKind::RParen) {
                    Ok(_) => Ok((e, n + 2)),
                    Err(x) => Err(x),
                },
                Err(x) => Err(x),
            },
            _ => Err(error_at(toks, i, Expected::Expression)),
        }
    } else {
        Err(error_at(toks, i, Expected::Expression))
    }
}

/// expr := term (('+' | '-') term)*, folded to the left.
pub open spec fn expr(toks: Seq<TokenView>, i: int) -> Result<(ExprView, nat), ParseError>
    decreases left(toks, i), 2nat,
{
    match term(toks, i) {
        Ok((t, n)) => match expr_tail(toks, i + n, t) {
            Ok((e, m)) => Ok((e, n + m)),
            Err(x) => Err(x),
        },
        Err(x) => Err(x),
    }
}

/// The `(('+' | '-') term)*` part of an expression, with `acc` the expression read so far.
pub open spec fn expr_tail(toks: Seq<TokenView>, j: int, acc: ExprView) -> Result<
    (ExprView, nat),
    ParseError,
>
    decreases left(toks, j), 1nat,
{
    match additive_op(kind_at(toks, j)) {
        Some(op) => match term(toks, j + 1) {
            Ok((r, n)) => match expr_tail(
                toks,
                j + 1 + n,
                ExprView::Binary { left: Box::new(acc), op, right: Box::new(r) },
            ) {
                Ok((e, m)) => Ok((e, n + m + 1)),
                Err(x) => Err(x),
            },
            Err(x) => Err(x),
        },
        None => Ok((acc, 0)),
    }
}

/// command := 'move_up' | 'move_down' | 'move_left' | 'move_right' | 'jump' | 'attack' | 'defend'
pub open spec fn command(toks: Seq<TokenView>, i: int) -> Result<(StmtView, nat), ParseError> {
    match kind_at(toks, i) {
        Some(k) => match command_of(k) {
            Some(c) => Ok((StmtView::Command(c), 1)),
            None => Err(error_at(toks, i, Expected::Statement)),
        },
        None => Err(error_at(toks, i, Expected::Statement)),
    }
}

/// statement := if_stmt | while_stmt | for_stmt | block | command
pub open spec fn statement(toks: Seq<TokenView>, i: int) -> Result<(StmtView, nat), ParseError>
    decreases left(toks, i), 2nat,
{
    if kind_at(toks, i) == Some(TokenKind::If) {
        if_stmt(toks, i)
    } else if kind_at(toks, i) == Some(TokenKind::While) {
        while_stmt(toks, i)
    } else if kind_at(toks, i) == Some(TokenKind::For) {
        for_stmt(toks, i)
    } else if kind_at(toks, i) == Some(TokenKind::LBrace) {
        block(toks, i)
    } else {
        command(toks, i)
    }
}

/// block := '{' statement* '}'
pub open spec fn block(toks: Seq<TokenView>, i: int) -> Result<(StmtView, nat), ParseError>
    decreases left(toks, i), 1nat,
{
    match expect(toks, i, TokenKind::LBrace) {
        Ok(_) => match items(toks, i + 1) {
            Ok((ss, n)) => match expect(toks, i + 1 + n, TokenKind::RBrace) {
                Ok(_) => Ok((StmtView::Block(ss), n + 2)),
                Err(x) => Err(x),
            },
            Err(x) => Err(x),
        },
        Err(x) => Err(x),
    }
}

/// The statements of a block, up to its closing brace or the end of the input.
/// (A statement always takes at least one token; the test of `n` only makes the
/// recursion's progress visible.)
pub open spec fn items(toks: Seq<TokenView>, j: int) -> Result<(Seq<StmtView>, nat), ParseError>
    decreases left(toks, j), 3nat,
{
    if kind_at(toks, j) == Some(TokenKind::RBrace) || kind_at(toks, j) is None {
        Ok((Seq::empty(), 0))
    } else {
        match statement(toks, j) {
            Ok((s, n)) => if n == 0 {
                Err(error_at(toks, j, Expected::Statement))
            } else {
                match items(toks, j + n) {
                    Ok((ss, m)) => Ok((seq![s] + ss, n + m)),
                    Err(x) => Err(x),
                }
            },
            Err(x) => Err(x),
        }
    }
}

/// if_stmt := 'if' '(' expr ')' block 'else' block
pub open spec fn if_stmt(toks: Seq<TokenView>, i: int) -> Result<(StmtView, nat), ParseError>
    decreases left(toks, i), 1nat,
{
    match expect(toks, i, TokenKind::If) {
        Err(x) => Err(x),
        Ok(_) => match expect(toks, i + 1, TokenKind::LParen) {
            Err(x) => Err(x),
            Ok(_) => match expr(toks, i + 2) {
                Err(x) => Err(x),
                Ok((c, n)) => match expect(toks, i + 2 + n, TokenKind::RParen) {
                    Err(x) => Err(x),
                    Ok(_) => match block(toks, i + 3 + n) {
                        Err(x) => Err(x),
                        Ok((t, m)) => match expect(toks, i + 3 + n + m, TokenKind::Else) {
                            Err(x) => Err(x),
                            Ok(_) => match block(toks, i + 4 + n + m) {
                                Err(x) => Err(x),
                                Ok((e, k)) => Ok(
                                    (
                                        StmtView::If {
                                            condition: c,
                                            then_branch: Box::new(t),
                                            else_branch: Box::new(e),
                                        },
                                        n + m + k + 4,
                                    ),
                                ),
                            },
                        },
                    },
                },
            },
        },
    }
}

/// while_stmt := 'while' '(' expr ')' block
pub open spec fn while_stmt(toks: Seq<TokenView>, i: int) -> Result<(StmtView, nat), ParseError>
    decreases left(toks, i), 1nat,
{
    match expect(toks, i, TokenKind::While) {
        Err(x) => Err(x),
        Ok(_) => match expect(toks, i + 1, TokenKind::LParen) {
            Err(x) => Err(x),
            Ok(_) => match expr(toks, i + 2) {
                Err(x) => Err(x),
                Ok((c, n)) => match expect(toks, i + 2 + n, TokenKind::RParen) {
                    Err(x) => Err(x),
                    Ok(_) => match block(toks, i + 3 + n) {
                        Err(x) => Err(x),
                        Ok((b, m)) => Ok(
                            (StmtView::While { condition: c, body: Box::new(b) }, n + m + 3),
                        ),
                    },
                },
            },
        },
    }
}

/// for_stmt := 'for' '(' expr ';' expr ';' expr ')' block
pub open spec fn for_stmt(toks: Seq<TokenView>, i: int) -> Result<(StmtView, nat), ParseError>
    decreases left(toks, i), 1nat,
{
    match expect(toks, i, TokenKind::For) {
        Err(x) => Err(x),
        Ok(_) => match expect(toks, i + 1, TokenKind::LParen) {
            Err(x) => Err(x),
            Ok(_) => match expr(toks, i + 2) {
                Err(x) => Err(x),
                Ok((a, n1)) => match expect(toks, i + 2 + n1, TokenKind::Semicolon) {
                    Err(x) => Err(x),
                    Ok(_) => match expr(toks, i + 3 + n1) {
                        Err(x) => Err(x),
                        Ok((c, n2)) => match expect(toks, i + 3 + n1 + n2, TokenKind::Semicolon) {
                            Err(x) => Err(x),
                            Ok(_) => match expr(toks, i + 4 + n1 + n2) {
                                Err(x) => Err(x),
                                Ok((u, n3)) => match expect(
                                    toks,
                                    i + 4 + n1 + n2 + n3,
                                    TokenKind::RParen,
                                ) {
                                    Err(x) => Err(x),
                                    Ok(_) => match block(toks, i + 5 + n1 + n2 + n3) {
                                        Err(x) => Err(x),
                                        Ok((b, m)) => Ok(
                                            (
                                                StmtView::For {
                                                    init: a,
                                                    condition: c,
                                                    update: u,
                                                    body: Box::new(b),
                                                },
                                                n1 + n2 + n3 + m + 5,
                                            ),
                                        ),
                                    },
                                },
                            },
                        },
                    },
                },
            },
        },
    }
}

/// program := statement*, up to the end of the input. (The test of `n` is as in `items`.)
pub open spec fn program(toks: Seq<TokenView>, i: int) -> Result<Seq<StmtView>, ParseError>
    decreases left(toks, i),
{
    if !(0 <= i < toks.len()) {
        Ok(Seq::empty())
    } else {
        match statement(toks, i) {
            Ok((s, n)) => if n == 0 {
                Err(error_at(toks, i, Expected::Statement))
            } else {
                match program(toks, i + n) {
                    Ok(ss) => Ok(seq![s] + ss),
                    Err(x) => Err(x),
                }
            },
            Err(x) => Err(x),
        }
    }
}

/// The program that a token sequence spells, comments skipped.
pub open spec fn parse_tokens(ts: Seq<TokenView>) -> Result<Seq<StmtView>, ParseError> {
    program(visible(ts), 0)
}

/// Parses a token sequence, comments skipped, into a program.
pub fn parse(tokens: Vec<Token>) -> (r: Result<Vec<Statement>, ParseError>)
    ensures
        program_view(r) == parse_tokens(views(tokens@)),
{
    let mut p = Parser::new(tokens);
    p.parse_program()
}

/// The model of a parser's result.
pub open spec fn program_view(r: Result<Vec<Statement>, ParseError>) -> Result<
    Seq<StmtView>,
    ParseError,
> {
    match r {
        Ok(v) => Ok(stmts_view(v@)),
        Err(e) => Err(e),
    }
}

/// `r` is what `rule` gives, read from `before` on, with the cursor now at `after`.
pub open spec fn expr_outcome(
    r: Result<Expression, ParseError>,
    rule: Result<(ExprView, nat), ParseError>,
    before: int,
    after: int,
) -> bool {
    match rule {
        Ok((e, n)) => match r {
            Ok(x) => expr_view(x) == e && after == before + n,
            Err(_) => false,
        },
        Err(x) => r == Err::<Expression, ParseError>(x),
    }
}

/// `r` is what `rule` gives, read from `before` on, with the cursor now at `after`.
pub open spec fn stmt_outcome(
    r: Result<Statement, ParseError>,
    rule: Result<(StmtView, nat), ParseError>,
    before: int,
    after: int,
) -> bool {
    match rule {
        Ok((s, n)) => match r {
            Ok(x) => stmt_view(x) == s && after == before + n,
            Err(_) => false,
        },
        Err(x) => r == Err::<Statement, ParseError>(x),
    }
}

/// A rule's result with `d` more tokens counted in front of it.
pub open spec fn shifted<A>(r: Result<(A, nat), ParseError>, d: int) -> Result<(A, nat), ParseError> {
    match r {
        Ok((a, n)) => Ok((a, (d + n) as nat)),
        Err(x) => Err(x),
    }
}

/// A list rule's result with `done` read in front of it, over `d` more tokens.
pub open spec fn after_items(
    done: Seq<StmtView>,
    r: Result<(Seq<StmtView>, nat), ParseError>,
    d: int,
) -> Result<(Seq<StmtView>, nat), ParseError> {
    match r {
        Ok((ss, n)) => Ok((done + ss, (d + n) as nat)),
        Err(x) => Err(x),
    }
}

pub open spec fn after_program(
    done: Seq<StmtView>,
    r: Result<Seq<StmtView>, ParseError>,
) -> Result<Seq<StmtView>, ParseError> {
    match r {
        Ok(ss) => Ok(done + ss),
        Err(x) => Err(x),
    }
}

/// Each statement takes at least one token.
proof fn lemma_statement_advances(toks: Seq<TokenView>, i: int)
    ensures
        statement(toks, i) matches Ok((_, n)) ==> n >= 1,
{
    reveal_with_fuel(statement, 1);
}

/// A recursive-descent parser over a token sequence, with one token of lookahead.
pub struct Parser {
    tokens: Vec<Token>,
    pos: usize,
}

impl Parser {
    /// The tokens the parser reads.
    pub closed spec fn toks(&self) -> Seq<TokenView> {
        views(self.tokens@)
    }

    /// The index of the next token to read.
    pub closed spec fn position(&self) -> int {
        self.pos as int
    }

    pub closed spec fn wf(&self) -> bool {
        self.pos <= self.tokens.len()
    }

    /// A parser at the start of `tokens`, with the comments taken out.
    pub fn new(tokens: Vec<Token>) -> (p: Parser)
        ensures
            p.wf(),
            p.toks() == visible(views(tokens@)),
            p.position() == 0,
    {
        let mut kept: Vec<Token> = Vec::new();
        let mut i: usize = 0;
        while i < tokens.len()
            invariant
                i <= tokens.len(),
                views(kept@) == visible(views(tokens@.subrange(0, i as int))),
            decreases tokens.len() - i,
        {
            let ghost before = views(tokens@.subrange(0, i as int));
            let ghost prev = kept@;
            assert(views(tokens@.subrange(0, i + 1)).drop_last() =~= before);
            if let Token::Comment(_) = &tokens[i] {
            } else {
                kept.push(tokens[i].duplicate());
                assert(views(kept@) =~= views(prev).push(tokens@[i as int]@));
            }
            i += 1;
        }
        assert(tokens@.subrange(0, i as int) =~= tokens@);
        Parser { tokens: kept, pos: 0 }
    }

    /// Parses statements up to the end of the input. On failure the first error is
    /// returned and nothing else.
    pub fn parse_program(&mut self) -> (r: Result<Vec<Statement>, ParseError>)
        requires
            old(self).wf(),
        ensures
            final(self).wf(),
            final(self).toks() == old(self).toks(),
            program_view(r) == program(old(self).toks(), old(self).position()),
    {
        let ghost toks = self.toks();
        let ghost i0 = self.position();
        let mut stmts: Vec<Statement> = Vec::new();
        assert(after_program(stmts_view(stmts@), program(toks, i0)) =~= program(toks, i0)) by {
            assert(stmts_view(stmts@) =~= Seq::<StmtView>::empty());
            match program(toks, i0) {
                Ok(ss) => assert(Seq::<StmtView>::empty() + ss =~= ss),
                Err(_) => {},
            }
        };
        while self.pos < self.tokens.len()
            invariant
                self.wf(),
                self.toks() == toks,
                toks == old(self).toks(),
                i0 == old(self).position(),
                program(toks, i0) == after_program(stmts_view(stmts@), program(toks, self.position())),
            decreases self.tokens.len() - self.pos,
        {
            let ghost p = self.position();
            proof {
                lemma_statement_advances(toks, p);
            }
            match self.parse_statement() {
                Ok(s) => {
                    let ghost prev = stmts@;
                    stmts.push(s);
                    assert(stmts_view(stmts@) =~= stmts_view(prev).push(stmt_view(s)));
                    proof {
                        match program(toks, self.position()) {
                            Ok(ss) => assert(stmts_view(prev) + (seq![stmt_view(s)] + ss) =~= stmts_view(stmts@) + ss),
                            Err(_) => {},
                        }
                    }
                },
                Err(e) => {
                    return Err(e);
                },
            }
        }
        assert(stmts_view(stmts@) + Seq::<StmtView>::empty() =~= stmts_view(stmts@));
        Ok(stmts)
    }

    /// The kind of the next token, `None` at the end of the input.
    fn peek_kind(&self) -> (k: Option<TokenKind>)
        requires
            self.wf(),
        ensures
            k == kind_at(self.toks(), self.position()),
    {
        if self.pos < self.tokens.len() {
            Some(self.tokens[self.pos].kind())
        } else {
            None
        }
    }

    /// The error of expecting `expected` at the cursor.
    fn error_here(&self, expected: Expected) -> (e: ParseError)
        requires
            self.wf(),
        ensures
            e == error_at(self.toks(), self.position(), expected),
    {
        ParseError { expected, found: self.peek_kind(), position: self.pos }
    }

    /// Reads one token of kind `expected`.
    fn consume(&mut self, expected: TokenKind) -> (r: Result<(), ParseError>)
        requires
            old(self).wf(),
        ensures
            final(self).wf(),
            final(self).toks() == old(self).toks(),
            r == expect(old(self).toks(), old(self).position(), expected),
            r is Ok ==> final(self).position() == old(self).position() + 1,
    {
        match self.peek_kind() {
            Some(k) => {
                if k == expected {
                    self.pos += 1;
                    Ok(())
                } else {
                    Err(self.error_here(Expected::Token(expected)))
                }
            },
            None => Err(self.error_here(Expected::Token(expected))),
        }
    }

    /// term := Number | Identifier | '(' expr ')'
    fn parse_term(&mut self) -> (r: Result<Expression, ParseError>)
        requires
            old(self).wf(),
        ensures
            final(self).wf(),
            final(self).toks() == old(self).toks(),
            expr_outcome(r, term(old(self).toks(), old(self).position()), old(self).position(), final(self).position()),
        decreases left(old(self).toks(), old(self).position()), 0nat,
    {
        if self.pos >= self.tokens.len() {
            return Err(self.error_here(Expected::Expression));
        }
        let i = self.pos;
        match &self.tokens[i] {
            Token::Number(v) => {
                let v = *v;
                self.pos += 1;
                Ok(Expression::Number(v))
            },
            Token::Identifier(w) => {
                let w = w.clone();
                self.pos += 1;
                Ok(Expression::Identifier(w))
            },
            Token::LParen => {
                self.pos += 1;
                let e = match self.parse_expression() {
                    Ok(e) => e,
                    Err(x) => return Err(x),
                };
                match self.consume(TokenKind::RParen) {
                    Ok(_) => Ok(e),
                    Err(x) => Err(x),
                }
            },
            _ => Err(self.error_here(Expected::Expression)),
        }
    }

    /// expr := term (('+' | '-') term)*, folded to the left.
    fn parse_expression(&mut self) -> (r: Result<Expression, ParseError>)
        requires
            old(self).wf(),
        ensures
            final(self).wf(),
            final(self).toks() == old(self).toks(),
            expr_outcome(r, expr(old(self).toks(), old(self).position()), old(self).position(), final(self).position()),
        decreases left(old(self).toks(), old(self).position()), 2nat,
    {
        let ghost toks = self.toks();
        let ghost i0 = self.position();
        let mut acc = match self.parse_term() {
            Ok(t) => t,
            Err(x) => return Err(x),
        };
        loop
            invariant
                self.wf(),
                self.toks() == toks,
                toks == old(self).toks(),
                i0 == old(self).position(),
                i0 < self.position(),
                expr(toks, i0) == shifted(expr_tail(toks, self.position(), expr_view(acc)), self.position() - i0),
            decreases self.tokens.len() - self.pos,
        {
            let op = match self.peek_kind() {
                Some(TokenKind::Plus) => BinaryOp::Add,
                Some(TokenKind::Minus) => BinaryOp::Sub,
                _ => {
                    return Ok(acc);
                },
            };
            self.pos += 1;
            let right = match self.parse_term() {
                Ok(t) => t,
                Err(x) => return Err(x),
            };
            acc = Expression::Binary { left: Box::new(acc), op, right: Box::new(right) };
        }
    }

    /// statement := if_stmt | while_stmt | for_stmt | block | command
    fn parse_statement(&mut self) -> (r: Result<Statement, ParseError>)
        requires
            old(self).wf(),
        ensures
            final(self).wf(),
            final(self).toks() == old(self).toks(),
            stmt_outcome(r, statement(old(self).toks(), old(self).position()), old(self).position(), final(self).position()),
        decreases left(old(self).toks(), old(self).position()), 2nat,
    {
        match self.peek_kind() {
            Some(TokenKind::If) => self.parse_if_stmt(),
            Some(TokenKind::While) => self.parse_while_stmt(),
            Some(TokenKind::For) => self.parse_for_stmt(),
            Some(TokenKind::LBrace) => self.parse_block(),
            _ => self.parse_command(),
        }
    }

    /// block := '{' statement* '}'
    fn parse_block(&mut self) -> (r: Result<Statement, ParseError>)
        requires
            old(self).wf(),
        ensures
            final(self).wf(),
            final(self).toks() == old(self).toks(),
            stmt_outcome(r, block(old(self).toks(), old(self).position()), old(self).position(), final(self).position()),
        decreases left(old(self).toks(), old(self).position()), 1nat,
    {
        let ghost toks = self.toks();
        let ghost i = self.position();
        match self.consume(TokenKind::LBrace) {
            Ok(_) => {},
            Err(x) => return Err(x),
        }
        let ghost j0 = self.position();
        let mut stmts: Vec<Statement> = Vec::new();
        assert(after_items(stmts_view(stmts@), items(toks, j0), 0) =~= items(toks, j0)) by {
            assert(stmts_view(stmts@) =~= Seq::<StmtView>::empty());
            match items(toks, j0) {
                Ok((ss, n)) => assert(Seq::<StmtView>::empty() + ss =~= ss),
                Err(_) => {},
            }
        };
        loop
            invariant
                self.wf(),
                self.toks() == toks,
                toks == old(self).toks(),
                i == old(self).position(),
                j0 == i + 1,
                j0 <= self.position(),
                expect(toks, i, TokenKind::LBrace) == Ok::<(), ParseError>(()),
                items(toks, j0) == after_items(stmts_view(stmts@), items(toks, self.position()), self.position() - j0),
            ensures
                self.wf(),
                self.toks() == toks,
                j0 <= self.position(),
                items(toks, j0) == after_items(stmts_view(stmts@), items(toks, self.position()), self.position() - j0),
                kind_at(toks, self.position()) == Some(TokenKind::RBrace) || kind_at(toks, self.position()) is None,
            decreases self.tokens.len() - self.pos,
        {
            match self.peek_kind() {
                Some(TokenKind::RBrace) => break,
                None => break,
                _ => {},
            }
            let ghost p = self.position();
            proof {
                lemma_statement_advances(toks, p);
            }
            match self.parse_statement() {
                Ok(s) => {
                    let ghost prev = stmts@;
                    stmts.push(s);
                    assert(stmts_view(stmts@) =~= stmts_view(prev).push(stmt_view(s)));
                    proof {
                        match items(toks, self.position()) {
                            Ok((ss, m)) => assert(stmts_view(prev) + (seq![stmt_view(s)] + ss) =~= stmts_view(stmts@) + ss),
                            Err(_) => {},
                        }
                    }
                },
                Err(e) => {
                    return Err(e);
                },
            }
        }
        assert(stmts_view(stmts@) + Seq::<StmtView>::empty() =~= stmts_view(stmts@));
        match self.consume(TokenKind::RBrace) {
            Ok(_) => {},
            Err(x) => return Err(x),
        }
        proof {
            lemma_vec_view(stmts, stmts.len() as int);
            assert(stmts@.subrange(0, stmts.len() as int) =~= stmts@);
        }
        Ok(Statement::Block(stmts))
    }

    /// command := one of the seven action keywords
    fn parse_command(&mut self) -> (r: Result<Statement, ParseError>)
        requires
            old(self).wf(),
        ensures
            final(self).wf(),
            final(self).toks() == old(self).toks(),
            stmt_outcome(r, command(old(self).toks(), old(self).position()), old(self).position(), final(self).position()),
    {
        let c = match self.peek_kind() {
            Some(TokenKind::MoveUp) => Command::MoveUp,
            Some(TokenKind::MoveDown) => Command::MoveDown,
            Some(TokenKind::MoveLeft) => Command::MoveLeft,
            Some(TokenKind::MoveRight) => Command::MoveRight,
            Some(TokenKind::Jump) => Command::Jump,
            Some(TokenKind::Attack) => Command::Attack,
            Some(TokenKind::Defend) => Command::Defend,
            _ => {
                return Err(self.error_here(Expected::Statement));
            },
        };
        self.pos += 1;
        Ok(Statement::Command(c))
    }

    /// if_stmt := 'if' '(' expr ')' block 'else' block
    fn parse_if_stmt(&mut self) -> (r: Result<Statement, ParseError>)
        requires
            old(self).wf(),
        ensures
            final(self).wf(),
            final(self).toks() == old(self).toks(),
            stmt_outcome(r, if_stmt(old(self).toks(), old(self).position()), old(self).position(), final(self).position()),
        decreases left(old(self).toks(), old(self).position()), 1nat,
    {
        if let Err(x) = self.consume(TokenKind::If) {
            return Err(x);
        }
        if let Err(x) = self.consume(TokenKind::LParen) {
            return Err(x);
        }
        let condition = match self.parse_expression() {
            Ok(e) => e,
            Err(x) => return Err(x),
        };
        if let Err(x) = self.consume(TokenKind::RParen) {
            return Err(x);
        }
        let then_branch = match self.parse_block() {
            Ok(s) => s,
            Err(x) => return Err(x),
        };
        if let Err(x) = self.consume(TokenKind::Else) {
            return Err(x);
        }
        let else_branch = match self.parse_block() {
            Ok(s) => s,
            Err(x) => return Err(x),
        };
        Ok(Statement::If { condition, then_branch: Box::new(then_branch), else_branch: Box::new(else_branch) })
    }

    /// while_stmt := 'while' '(' expr ')' block
    fn parse_while_stmt(&mut self) -> (r: Result<Statement, ParseError>)
        requires
            old(self).wf(),
        ensures
            final(self).wf(),
            final(self).toks() == old(self).toks(),
            stmt_outcome(r, while_stmt(old(self).toks(), old(self).position()), old(self).position(), final(self).position()),
        decreases left(old(self).toks(), old(self).position()), 1nat,
    {
        if let Err(x) = self.consume(TokenKind::While) {
            return Err(x);
        }
        if let Err(x) = self.consume(TokenKind::LParen) {
            return Err(x);
        }
        let condition = match self.parse_expression() {
            Ok(e) => e,
            Err(x) => return Err(x),
        };
        if let Err(x) = self.consume(TokenKind::RParen) {
            return Err(x);
        }
        let body = match self.parse_block() {
            Ok(s) => s,
            Err(x) => return Err(x),
        };
        Ok(Statement::While { condition, body: Box::new(body) })
    }

    /// for_stmt := 'for' '(' expr ';' expr ';' expr ')' block
    #[verifier::rlimit(60)]
    fn parse_for_stmt(&mut self) -> (r: Result<Statement, ParseError>)
        requires
            old(self).wf(),
        ensures
            final(self).wf(),
            final(self).toks() == old(self).toks(),
            stmt_outcome(r, for_stmt(old(self).toks(), old(self).position()), old(self).position(), final(self).position()),
        decreases left(old(self).toks(), old(self).position()), 1nat,
    {
        if let Err(x) = self.consume(TokenKind::For) {
            return Err(x);
        }
        if let Err(x) = self.consume(TokenKind::LParen) {
            return Err(x);
        }
        let init = match self.parse_expression() {
            Ok(e) => e,
            Err(x) => return Err(x),
        };
        if let Err(x) = self.consume(TokenKind::Semicolon) {
            return Err(x);
        }
        let condition = match self.parse_expression() {
            Ok(e) => e,
            Err(x) => return Err(x),
        };
        if let Err(x) = self.consume(TokenKind::Semicolon) {
            return Err(x);
        }
        let update = match self.parse_expression() {
            Ok(e) => e,
            Err(x) => return Err(x),
        };
        if let Err(x) = self.consume(TokenKind::RParen) {
            return Err(x);
        }
        let body = match self.parse_block() {
            Ok(s) => s,
            Err(x) => return Err(x),
        };
        Ok(Statement::For { init, condition, update, body: Box::new(body) })
    }
}

} // verus!
