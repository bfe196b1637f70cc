use questlang::ast::{BinaryOp, Command, Expression, Statement};
use questlang::lexer::{lex, Lexer};
use questlang::parser::{parse, Expected, ParseError, Parser};
use questlang::token::{Token, TokenKind};

fn ident(s: &str) -> Expression {
    Expression::Identifier(s.to_string())
}

fn bin(left: Expression, op: BinaryOp, right: Expression) -> Expression {
    Expression::Binary { left: Box::new(left), op, right: Box::new(right) }
}

fn block(stmts: Vec<Statement>) -> Statement {
    Statement::Block(stmts)
}

fn run(src: &str) -> Result<Vec<Statement>, ParseError> {
    parse(lex(src))
}

#[test]
fn single_command() {
    assert_eq!(lex("move_up"), vec![Token::MoveUp]);
    assert_eq!(run("move_up"), Ok(vec![Statement::Command(Command::MoveUp)]));
}

#[test]
fn if_else_with_sum() {
    let expected = Statement::If {
        condition: bin(ident("hero"), BinaryOp::Add, Expression::Number(10)),
        then_branch: Box::new(block(vec![Statement::Command(Command::MoveUp)])),
        else_branch: Box::new(block(vec![Statement::Command(Command::Jump)])),
    };
    assert_eq!(run("if (hero + 10) { move_up } else { jump }"), Ok(vec![expected]));
}

#[test]
fn while_with_difference() {
    let expected = Statement::While {
        condition: bin(ident("enemy"), BinaryOp::Sub, Expression::Number(5)),
        body: Box::new(block(vec![Statement::Command(Command::Attack)])),
    };
    assert_eq!(run("while (enemy - 5) { attack }"), Ok(vec![expected]));
}

#[test]
fn for_loop() {
    let expected = Statement::For {
        init: ident("hero"),
        condition: ident("enemy"),
        update: Expression::Number(3),
        body: Box::new(block(vec![Statement::Command(Command::MoveUp)])),
    };
    assert_eq!(run("for (hero; enemy; 3) { move_up }"), Ok(vec![expected]));
}

#[test]
fn missing_closing_paren() {
    let err = run("if (hero + 10 { move_up }").unwrap_err();
    assert_eq!(err.expected, Expected::Token(TokenKind::RParen));
    assert_eq!(err.found, Some(TokenKind::LBrace));
    assert_eq!(err.position, 5);
}

#[test]
fn comment_is_skipped() {
    let tokens = lex("move_up // go up\n jump");
    assert_eq!(
        tokens,
        vec![Token::MoveUp, Token::Comment("// go up".to_string()), Token::Jump]
    );
    assert_eq!(
        parse(tokens),
        Ok(vec![Statement::Command(Command::MoveUp), Statement::Command(Command::Jump)])
    );
}

#[test]
fn comment_positions_are_not_counted() {
    let err = run("// start\nmove_up }").unwrap_err();
    assert_eq!(err, ParseError { expected: Expected::Statement, found: Some(TokenKind::RBrace), position: 1 });
}

#[test]
fn if_without_else_fails() {
    let err = run("if (x) { move_up }").unwrap_err();
    assert_eq!(err.expected, Expected::Token(TokenKind::Else));
    assert_eq!(err.found, None);
    assert_eq!(err.position, 7);
}

#[test]
fn subtraction_then_addition_is_left_associative() {
    let expected = Statement::While {
        condition: bin(bin(ident("a"), BinaryOp::Sub, ident("b")), BinaryOp::Add, ident("c")),
        body: Box::new(block(vec![])),
    };
    assert_eq!(run("while (a - b + c) { }"), Ok(vec![expected]));
}

#[test]
fn parser_reads_from_its_own_cursor() {
    let mut p = Parser::new(lex("// lead
for (a - b + c; x; y) { } // tail"));
    let init = bin(bin(ident("a"), BinaryOp::Sub, ident("b")), BinaryOp::Add, ident("c"));
    let expected = Statement::For {
        init,
        condition: ident("x"),
        update: ident("y"),
        body: Box::new(block(vec![])),
    };
    assert_eq!(p.parse_program(), Ok(vec![expected]));
}

#[test]
fn parenthesised_right_operand() {
    let expected = Statement::While {
        condition: bin(ident("a"), BinaryOp::Sub, bin(ident("b"), BinaryOp::Add, ident("c"))),
        body: Box::new(block(vec![])),
    };
    assert_eq!(run("while (a - (b + c)) { }"), Ok(vec![expected]));
}

#[test]
fn nested_blocks_and_statements() {
    let src = "if (hero + 10) { move_left if (enemy - 2) { attack } else { defend } } else { jump }\n\
               while (enemy - 5) { attack move_right }\n\
               for (hero; enemy; 3) { move_up { move_down } }";
    let stmts = run(src).unwrap();
    assert_eq!(stmts.len(), 3);
    match &stmts[2] {
        Statement::For { body, .. } => assert_eq!(
            **body,
            block(vec![
                Statement::Command(Command::MoveUp),
                block(vec![Statement::Command(Command::MoveDown)])
            ])
        ),
        other => panic!("not a for loop: {:?}", other),
    }
}

#[test]
fn body_must_be_a_block() {
    let err = run("while (x) attack").unwrap_err();
    assert_eq!(err.expected, Expected::Token(TokenKind::LBrace));
    assert_eq!(err.found, Some(TokenKind::Attack));
}

#[test]
fn empty_input() {
    assert_eq!(lex(""), vec![]);
    assert_eq!(lex(" \t\n"), vec![]);
    assert_eq!(run(""), Ok(vec![]));
}

#[test]
fn trailing_brace_is_an_error() {
    let err = run("jump }").unwrap_err();
    assert_eq!(err, ParseError { expected: Expected::Statement, found: Some(TokenKind::RBrace), position: 1 });
}

#[test]
fn unclosed_block_reports_end_of_input() {
    let err = run("{ jump").unwrap_err();
    assert_eq!(err, ParseError { expected: Expected::Token(TokenKind::RBrace), found: None, position: 2 });
}

#[test]
fn missing_term() {
    let err = run("while (a +) { }").unwrap_err();
    assert_eq!(err, ParseError { expected: Expected::Expression, found: Some(TokenKind::RParen), position: 4 });
}

#[test]
fn operators_and_delimiters() {
    assert_eq!(
        lex("+-*/(){};!&&||"),
        vec![
            Token::Plus,
            Token::Minus,
            Token::Asterisk,
            Token::Slash,
            Token::LParen,
            Token::RParen,
            Token::LBrace,
            Token::RBrace,
            Token::Semicolon,
            Token::LogicalNot,
            Token::LogicalAnd,
            Token::LogicalOr
        ]
    );
}

#[test]
fn lone_ampersand_and_bar_are_errors() {
    assert_eq!(
        lex("a & b | c"),
        vec![
            Token::Identifier("a".to_string()),
            Token::Error("&".to_string()),
            Token::Identifier("b".to_string()),
            Token::Error("|".to_string()),
            Token::Identifier("c".to_string())
        ]
    );
}

#[test]
fn unknown_characters_are_error_tokens() {
    assert_eq!(
        lex("jump @ é"),
        vec![Token::Jump, Token::Error("@".to_string()), Token::Error("é".to_string())]
    );
    let err = run("jump @").unwrap_err();
    assert_eq!(err.found, Some(TokenKind::Error));
}

#[test]
fn keywords_need_exact_match() {
    assert_eq!(
        lex("move_upx If _if jump2"),
        vec![
            Token::Identifier("move_upx".to_string()),
            Token::Identifier("If".to_string()),
            Token::Identifier("_if".to_string()),
            Token::Identifier("jump2".to_string())
        ]
    );
}

#[test]
fn all_keywords() {
    assert_eq!(
        lex("move_up move_down move_left move_right jump attack defend if else while for"),
        vec![
            Token::MoveUp,
            Token::MoveDown,
            Token::MoveLeft,
            Token::MoveRight,
            Token::Jump,
            Token::Attack,
            Token::Defend,
            Token::If,
            Token::Else,
            Token::While,
            Token::For
        ]
    );
}

#[test]
fn numbers_and_maximal_munch() {
    assert_eq!(
        lex("123abc 0 007"),
        vec![
            Token::Number(123),
            Token::Identifier("abc".to_string()),
            Token::Number(0),
            Token::Number(7)
        ]
    );
}

#[test]
fn largest_number_and_overflow() {
    assert_eq!(lex("9223372036854775807"), vec![Token::Number(i64::MAX)]);
    assert_eq!(
        lex("9223372036854775808 1"),
        vec![Token::Error("9223372036854775808".to_string()), Token::Number(1)]
    );
}

#[test]
fn comment_runs_to_end_of_line_or_input() {
    assert_eq!(
        lex("// a\n/// b"),
        vec![Token::Comment("// a".to_string()), Token::Comment("/// b".to_string())]
    );
    assert_eq!(lex("a/b"), vec![ident_tok("a"), Token::Slash, ident_tok("b")]);
}

fn ident_tok(s: &str) -> Token {
    Token::Identifier(s.to_string())
}

#[test]
fn whitespace_does_not_change_tokens() {
    let a = lex("if(x){jump}else{attack}");
    let b = lex(" if ( x )\n{\tjump }\x0c else {  attack } ");
    assert_eq!(a, b);
}

#[test]
fn carriage_return_is_not_whitespace() {
    assert_eq!(lex("jump\r"), vec![Token::Jump, Token::Error("\r".to_string())]);
}

#[test]
fn lexer_cursor_hands_out_tokens_then_eof() {
    let mut lx = Lexer::new("jump  // c\n 42");
    assert_eq!(lx.next_token(), Token::Jump);
    assert_eq!(lx.next_token(), Token::Comment("// c".to_string()));
    assert_eq!(lx.next_token(), Token::Number(42));
    assert_eq!(lx.next_token(), Token::EOF);
    assert_eq!(lx.next_token(), Token::EOF);
}

#[test]
fn one_statement_per_top_level_construct() {
    let stmts = run("jump { } while (x) { } for (a; b; c) { } if (y) { } else { } defend").unwrap();
    assert_eq!(stmts.len(), 6);
}

#[test]
fn token_kind_and_duplicate() {
    let t = Token::Identifier("hero".to_string());
    assert_eq!(t.kind(), TokenKind::Identifier);
    assert_eq!(t.duplicate(), t);
    assert_eq!(Token::Number(3).kind(), TokenKind::Number);
}
