use vstd::prelude::*;
use crate::token::{Token, TokenKind, TokenView};

verus! {

/// Whitespace between tokens: space, tab, newline and form feed.
pub open spec fn is_space(c: char) -> bool {
    c == ' ' || c == '\t' || c == '\n' || c == '\x0c'
}

pub open spec fn is_digit(c: char) -> bool {
    '0' <= c && c <= '9'
}

pub open spec fn is_ident_start(c: char) -> bool {
    ('a' <= c && c <= 'z') || ('A' <= c && c <= 'Z') || c == '_'
}

/// The classes of characters that make up the runs a token may extend over.
#[derive(Clone, Copy, PartialEq, Eq, Structural)]
pub enum CharClass {
    Digit,
    IdentChar,
    LineText,
}

pub open spec fn in_class(c: char, class: CharClass) -> bool {
    match class {
        CharClass::Digit => is_digit(c),
        CharClass::IdentChar => is_ident_start(c) || is_digit(c),
        CharClass::LineText => c != '\n',
    }
}

/// Length of the longest run of `class` characters that starts at `i`.
pub open spec fn run_len(s: Seq<char>, i: int, class: CharClass) -> nat
    decreases s.len() - i,
{
    if 0 <= i < s.len() && in_class(s[i], class) {
        1 + run_len(s, i + 1, class)
    } else {
        0
    }
}

/// Numeric value of the decimal digit `c`.
pub open spec fn digit_value(c: char) -> int {
    c as int - '0' as int
}

/// Value of a string of decimal digits, read most significant first.
pub open spec fn digits_value(d: Seq<char>) -> int
    decreases d.len(),
{
    if d.len() == 0 {
        0
    } else {
        10 * digits_value(d.drop_last()) + digit_value(d.last())
    }
}

/// The keyword that the word `w` spells exactly, if any.
pub open spec fn keyword(w: Seq<char>) -> Option<TokenKind> {
    if w == "move_up"@ {
        Some(TokenKind::MoveUp)
    } else if w == "move_down"@ {
        Some(TokenKind::MoveDown)
    } else if w == "move_left"@ {
        Some(TokenKind::MoveLeft)
    } else if w == "move_right"@ {
        Some(TokenKind::MoveRight)
    } else if w == "jump"@ {
        Some(TokenKind::Jump)
    } else if w == "attack"@ {
        Some(TokenKind::Attack)
    } else if w == "defend"@ {
        Some(TokenKind::Defend)
    } else if w == "if"@ {
        Some(TokenKind::If)
    } else if w == "else"@ {
        Some(TokenKind::Else)
    } else if w == "while"@ {
        Some(TokenKind::While)
    } else if w == "for"@ {
        Some(TokenKind::For)
    } else {
        None
    }
}

/// The token that the single character `c` forms by itself, if any.
pub open spec fn single_char_kind(c: char) -> Option<TokenKind> {
    if c == '+' {
        Some(TokenKind::Plus)
    } else if c == '-' {
        Some(TokenKind::Minus)
    } else if c == '*' {
        Some(TokenKind::Asterisk)
    } else if c == '/' {
        Some(TokenKind::Slash)
    } else if c == '(' {
        Some(TokenKind::LParen)
    } else if c == ')' {
        Some(TokenKind::RParen)
    } else if c == '{' {
        Some(TokenKind::LBrace)
    } else if c == '}' {
        Some(TokenKind::RBrace)
    } else if c == ';' {
        Some(TokenKind::Semicolon)
    } else if c == '!' {
        Some(TokenKind::LogicalNot)
    } else {
        None
    }
}

/// True where `s` holds the two characters `a`, `b` at `i`.
pub open spec fn pair_at(s: Seq<char>, i: int, a: char, b: char) -> bool {
    0 <= i && i + 1 < s.len() && s[i] == a && s[i + 1] == b
}

/// The token that starts at `i` (not whitespace) and the index just past it, by
/// maximal munch.
pub open spec fn scan(s: Seq<char>, i: int) -> (TokenView, int) {
    let c = s[i];
    if pair_at(s, i, '/', '/') {
        let e = i + 2 + run_len(s, i + 2, CharClass::LineText);
        (TokenView::Comment(s.subrange(i, e)), e)
    } else if is_digit(c) {
        let e = i + 1 + run_len(s, i + 1, CharClass::Digit);
        let d = s.subrange(i, e);
        if digits_value(d) <= i64::MAX {
            (TokenView::Number(digits_value(d) as i64), e)
        } else {
            (TokenView::Error(d), e)
        }
    } else if is_ident_start(c) {
        let e = i + 1 + run_len(s, i + 1, CharClass::IdentChar);
        let w = s.subrange(i, e);
        match keyword(w) {
            Some(k) => (TokenView::Simple(k), e),
            None => (TokenView::Identifier(w), e),
        }
    } else if pair_at(s, i, '&', '&') {
        (TokenView::Simple(TokenKind::LogicalAnd), i + 2)
    } else if pair_at(s, i, '|', '|') {
        (TokenView::Simple(TokenKind::LogicalOr), i + 2)
    } else {
        match single_char_kind(c) {
            Some(k) => (TokenView::Simple(k), i + 1),
            None => (TokenView::Error(seq![c]), i + 1),
        }
    }
}

/// The tokens of `s` from index `i` on: whitespace is skipped, and each token is
/// the longest lexeme that starts where the previous one ended.
pub open spec fn lex_from(s: Seq<char>, i: int) -> Seq<TokenView>
    decreases s.len() - i,
    via lex_from_decreases
{
    if i < 0 || i >= s.len() {
        Seq::empty()
    } else if is_space(s[i]) {
        lex_from(s, i + 1)
    } else {
        seq![scan(s, i).0] + lex_from(s, scan(s, i).1)
    }
}

#[via_fn]
proof fn lex_from_decreases(s: Seq<char>, i: int) {
    if 0 <= i < s.len() {
        lemma_scan_advances(s, i);
    }
}

/// A run never reaches past the end of the text.
pub proof fn lemma_run_bound(s: Seq<char>, i: int, class: CharClass)
    requires
        0 <= i <= s.len(),
    ensures
        i + run_len(s, i, class) <= s.len(),
    decreases s.len() - i,
{
    if i < s.len() && in_class(s[i], class) {
        lemma_run_bound(s, i + 1, class);
    }
}

/// Each token takes at least one character, and stays inside the text.
pub proof fn lemma_scan_advances(s: Seq<char>, i: int)
    requires
        0 <= i < s.len(),
    ensures
        i < scan(s, i).1 <= s.len(),
{
    if pair_at(s, i, '/', '/') {
        lemma_run_bound(s, i + 2, CharClass::LineText);
    }
    lemma_run_bound(s, i + 1, CharClass::Digit);
    lemma_run_bound(s, i + 1, CharClass::IdentChar);
}

/// The token sequence of source text `s`.
pub open spec fn tokenize(s: Seq<char>) -> Seq<TokenView> {
    lex_from(s, 0)
}

pub open spec fn views(ts: Seq<Token>) -> Seq<TokenView> {
    ts.map_values(|t: Token| t@)
}

/// A cursor over source text that hands out one token at a time.
pub struct Lexer {
    source: String,
    input: Vec<char>,
    pos: usize,
}

impl Lexer {
    pub closed spec fn text(&self) -> Seq<char> {
        self.input@
    }

    pub closed spec fn position(&self) -> int {
        self.pos as int
    }

    pub closed spec fn wf(&self) -> bool {
        &&& self.input@ == self.source@
        &&& self.pos <= self.input.len()
    }

    /// The tokens that are still to come.
    pub open spec fn remaining(&self) -> Seq<TokenView> {
        lex_from(self.text(), self.position())
    }

    /// A cursor at the start of `input`.
    pub fn new(input: &str) -> (r: Lexer)
        ensures
            r.wf(),
            r.text() == input@,
            r.position() == 0,
            r.remaining() == tokenize(input@),
    {
        let n = input.unicode_len();
        let mut chars: Vec<char> = Vec::new();
        let mut i: usize = 0;
        while i < n
            invariant
                n == input@.len(),
                i <= n,
                chars@ == input@.subrange(0, i as int),
            decreases n - i,
        {
            chars.push(input.get_char(i));
            i += 1;
            assert(chars@ =~= input@.subrange(0, i as int));
        }
        assert(chars@ =~= input@);
        Lexer { source: String::from_str(input), input: chars, pos: 0 }
    }

    /// The next token, or `Token::EOF` once the text is used up.
    pub fn next_token(&mut self) -> (t: Token)
        requires
            old(self).wf(),
        ensures
            final(self).wf(),
            final(self).text() == old(self).text(),
            (t@ == TokenView::Simple(TokenKind::EOF)) == (old(self).remaining().len() == 0),
            old(self).remaining().len() == 0 ==> final(self).remaining().len() == 0,
            old(self).remaining().len() > 0 ==> t@ == old(self).remaining()[0]
                && final(self).remaining() == old(self).remaining().drop_first()
                && final(self).position() > old(self).position(),
    {
        self.skip_whitespace();
        if self.pos >= self.input.len() {
            return Token::EOF;
        }
        let ghost s = self.input@;
        let ghost p = self.pos as int;
        let (tok, end) = self.scan_at(self.pos);
        self.pos = end;
        assert(lex_from(s, p) == seq![scan(s, p).0] + lex_from(s, scan(s, p).1));
        assert(lex_from(s, p).drop_first() =~= lex_from(s, scan(s, p).1));
        tok
    }

    /// Moves the cursor past whitespace; the tokens to come stay the same.
    fn skip_whitespace(&mut self)
        requires
            old(self).wf(),
        ensures
            final(self).wf(),
            final(self).text() == old(self).text(),
            final(self).position() >= old(self).position(),
            final(self).remaining() == old(self).remaining(),
            final(self).position() < final(self).text().len() ==> !is_space(
                final(self).text()[final(self).position()],
            ),
    {
        while self.pos < self.input.len() && is_space_char(self.input[self.pos])
            invariant
                self.wf(),
                self.text() == old(self).text(),
                self.position() >= old(self).position(),
                self.remaining() == old(self).remaining(),
            decreases self.input.len() - self.pos,
        {
            self.pos += 1;
        }
    }

    /// The text of `input[start..end]` as a `String`.
    fn text_between(&self, start: usize, end: usize) -> (r: String)
        requires
            self.wf(),
            start <= end <= self.input.len(),
        ensures
            r@ == self.text().subrange(start as int, end as int),
    {
        String::from_str(self.source.as_str().substring_char(start, end))
    }

    /// The index just past the run of `class` characters that starts at `i`.
    fn run_end(&self, i: usize, class: CharClass) -> (e: usize)
        requires
            self.wf(),
            i <= self.input.len(),
        ensures
            e == i + run_len(self.text(), i as int, class),
            e <= self.input.len(),
    {
        let mut j = i;
        while j < self.input.len() && char_in_class(self.input[j], class)
            invariant
                self.wf(),
                i <= j <= self.input.len(),
                i + run_len(self.text(), i as int, class) == j + run_len(
                    self.text(),
                    j as int,
                    class,
                ),
            decreases self.input.len() - j,
        {
            j += 1;
        }
        j
    }

    /// The value of the digits `input[start..end]`, or `None` where it exceeds `i64::MAX`.
    fn digits_to_i64(&self, start: usize, end: usize) -> (r: Option<i64>)
        requires
            self.wf(),
            start <= end <= self.input.len(),
            forall|k: int| start <= k < end ==> is_digit(#[trigger] self.text()[k]),
        ensures
            match r {
                Some(v) => v == digits_value(self.text().subrange(start as int, end as int)),
                None => digits_value(self.text().subrange(start as int, end as int)) > i64::MAX,
            },
    {
        let ghost s = self.text();
        let mut acc: i64 = 0;
        let mut k = start;
        while k < end
            invariant
                self.wf(),
                s == self.text(),
                start <= k <= end <= self.input.len(),
                forall|m: int| start <= m < end ==> is_digit(#[trigger] s[m]),
                acc == digits_value(s.subrange(start as int, k as int)),
            decreases end - k,
        {
            let c = self.input[k];
            assert(is_digit(s[k as int]));
            let d = (c as u32 - '0' as u32) as i64;
            assert(0 <= d <= 9 && d == digit_value(c));
            assert(acc >= 0) by {
                lemma_digits_nonneg(s.subrange(start as int, k as int));
            };
            assert(s.subrange(start as int, k + 1).drop_last() =~= s.subrange(
                start as int,
                k as int,
            ));
            let next = match acc.checked_mul(10) {
                Some(m) => m.checked_add(d),
                None => None,
            };
            match next {
                Some(v) => {
                    acc = v;
                    k += 1;
                },
                None => {
                    assert(digits_value(s.subrange(start as int, k + 1)) == 10 * acc + d);
                    assert(10 * acc + d > i64::MAX);
                    proof {
                        let full = s.subrange(start as int, end as int);
                        assert(forall|m: int| 0 <= m < full.len() ==> is_digit(#[trigger] full[m])) by {
                            assert(forall|m: int| 0 <= m < full.len() ==> full[m] == s[start + m]);
                        };
                        lemma_digits_grow(full, (k - start) as int + 1);
                        assert(s.subrange(start as int, end as int).subrange(0, (k - start) as int + 1)
                            =~= s.subrange(start as int, k + 1));
                    }
                    return None;
                },
            }
        }
        Some(acc)
    }

    /// The token that starts at `i` and the index just past it.
    fn scan_at(&self, i: usize) -> (r: (Token, usize))
        requires
            self.wf(),
            i < self.input.len(),
            !is_space(self.text()[i as int]),
        ensures
            r.0@ == scan(self.text(), i as int).0,
            r.1 as int == scan(self.text(), i as int).1,
            i < r.1 <= self.input.len(),
    {
        let ghost s = self.text();
        let len = self.input.len();
        let c = self.input[i];
        let pair = i + 1 < len;
        if pair && c == '/' && self.input[i + 1] == '/' {
            let e = self.run_end(i + 2, CharClass::LineText);
            (Token::Comment(self.text_between(i, e)), e)
        } else if is_digit_char(c) {
            let e = self.run_end(i + 1, CharClass::Digit);
            proof {
                lemma_run_all(s, i + 1, CharClass::Digit);
            }
            match self.digits_to_i64(i, e) {
                Some(v) => (Token::Number(v), e),
                None => (Token::Error(self.text_between(i, e)), e),
            }
        } else if is_ident_start_char(c) {
            let e = self.run_end(i + 1, CharClass::IdentChar);
            let w = self.text_between(i, e);
            match keyword_of(&w) {
                Some(k) => (simple_token(k), e),
                None => (Token::Identifier(w), e),
            }
        } else if pair && c == '&' && self.input[i + 1] == '&' {
            (Token::LogicalAnd, i + 2)
        } else if pair && c == '|' && self.input[i + 1] == '|' {
            (Token::LogicalOr, i + 2)
        } else {
            match single_char_kind_of(c) {
                Some(k) => (simple_token(k), i + 1),
                None => {
                    let w = self.text_between(i, i + 1);
                    assert(w@ =~= seq![c]);
                    (Token::Error(w), i + 1)
                },
            }
        }
    }
}

/// Every character of a run is of its class.
proof fn lemma_run_all(s: Seq<char>, i: int, class: CharClass)
    requires
        0 <= i,
    ensures
        forall|k: int| i <= k < i + run_len(s, i, class) ==> in_class(#[trigger] s[k], class),
    decreases s.len() - i,
{
    if 0 <= i < s.len() && in_class(s[i], class) {
        lemma_run_all(s, i + 1, class);
    }
}

/// A digit string is worth at least as much as each of its prefixes.
proof fn lemma_digits_grow(d: Seq<char>, n: int)
    requires
        0 <= n <= d.len(),
        forall|k: int| 0 <= k < d.len() ==> is_digit(#[trigger] d[k]),
    ensures
        digits_value(d) >= digits_value(d.subrange(0, n)),
    decreases d.len(),
{
    if n < d.len() {
        let e = d.drop_last();
        assert(forall|k: int| 0 <= k < e.len() ==> is_digit(#[trigger] e[k])) by {
            assert(forall|k: int| 0 <= k < e.len() ==> e[k] == d[k]);
        };
        lemma_digits_grow(e, n);
        assert(e.subrange(0, n) =~= d.subrange(0, n));
        lemma_digits_nonneg(e);
    } else {
        assert(d.subrange(0, n) =~= d);
    }
}

proof fn lemma_digits_nonneg(d: Seq<char>)
    requires
        forall|k: int| 0 <= k < d.len() ==> is_digit(#[trigger] d[k]),
    ensures
        digits_value(d) >= 0,
    decreases d.len(),
{
    if d.len() > 0 {
        let e = d.drop_last();
        assert(forall|k: int| 0 <= k < e.len() ==> e[k] == d[k]);
        lemma_digits_nonneg(e);
    }
}

fn is_space_char(c: char) -> (r: bool)
    ensures
        r == is_space(c),
{
    c == ' ' || c == '\t' || c == '\n' || c == '\x0c'
}

fn is_digit_char(c: char) -> (r: bool)
    ensures
        r == is_digit(c),
{
    '0' <= c && c <= '9'
}

fn is_ident_start_char(c: char) -> (r: bool)
    ensures
        r == is_ident_start(c),
{
    ('a' <= c && c <= 'z') || ('A' <= c && c <= 'Z') || c == '_'
}

fn char_in_class(c: char, class: CharClass) -> (r: bool)
    ensures
        r == in_class(c, class),
{
    match class {
        CharClass::Digit => is_digit_char(c),
        CharClass::IdentChar => is_ident_start_char(c) || is_digit_char(c),
        CharClass::LineText => c != '\n',
    }
}

/// True where `w` spells `word` exactly.
fn spells(w: &String, word: &str) -> (r: bool)
    ensures
        r == (w@ == word@),
{
    let a = w.as_str();
    let n = a.unicode_len();
    if n != word.unicode_len() {
        return false;
    }
    let mut k: usize = 0;
    while k < n
        invariant
            n == a@.len() == word@.len(),
            a@ == w@,
            k <= n,
            a@.subrange(0, k as int) == word@.subrange(0, k as int),
        decreases n - k,
    {
        if a.get_char(k) != word.get_char(k) {
            return false;
        }
        k += 1;
        assert(a@.subrange(0, k as int) =~= a@.subrange(0, k - 1) + seq![a@[k - 1]]);
        assert(word@.subrange(0, k as int) =~= word@.subrange(0, k - 1) + seq![word@[k - 1]]);
    }
    assert(a@ =~= a@.subrange(0, n as int));
    assert(word@ =~= word@.subrange(0, n as int));
    true
}

/// The keyword that `w` spells, if any.
fn keyword_of(w: &String) -> (r: Option<TokenKind>)
    ensures
        r == keyword(w@),
{
    if spells(w, "move_up") {
        Some(TokenKind::MoveUp)
    } else if spells(w, "move_down") {
        Some(TokenKind::MoveDown)
    } else if spells(w, "move_left") {
        Some(TokenKind::MoveLeft)
    } else if spells(w, "move_right") {
        Some(TokenKind::MoveRight)
    } else if spells(w, "jump") {
        Some(TokenKind::Jump)
    } else if spells(w, "attack") {
        Some(TokenKind::Attack)
    } else if spells(w, "defend") {
        Some(TokenKind::Defend)
    } else if spells(w, "if") {
        Some(TokenKind::If)
    } else if spells(w, "else") {
        Some(TokenKind::Else)
    } else if spells(w, "while") {
        Some(TokenKind::While)
    } else if spells(w, "for") {
        Some(TokenKind::For)
    } else {
        None
    }
}

fn single_char_kind_of(c: char) -> (r: Option<TokenKind>)
    ensures
        r == single_char_kind(c),
{
    if c == '+' {
        Some(TokenKind::Plus)
    } else if c == '-' {
        Some(TokenKind::Minus)
    } else if c == '*' {
        Some(TokenKind::Asterisk)
    } else if c == '/' {
        Some(TokenKind::Slash)
    } else if c == '(' {
        Some(TokenKind::LParen)
    } else if c == ')' {
        Some(TokenKind::RParen)
    } else if c == '{' {
        Some(TokenKind::LBrace)
    } else if c == '}' {
        Some(TokenKind::RBrace)
    } else if c == ';' {
        Some(TokenKind::Semicolon)
    } else if c == '!' {
        Some(TokenKind::LogicalNot)
    } else {
        None
    }
}

/// The payload-free token of kind `k`.
fn simple_token(k: TokenKind) -> (t: Token)
    requires
        k != TokenKind::Number,
        k != TokenKind::Identifier,
        k != TokenKind::Comment,
        k != TokenKind::Error,
    ensures
        t@ == TokenView::Simple(k),
{
    match k {
        TokenKind::MoveUp => Token::MoveUp,
        TokenKind::MoveDown => Token::MoveDown,
        TokenKind::MoveLeft => Token::MoveLeft,
        TokenKind::MoveRight => Token::MoveRight,
        TokenKind::Jump => Token::Jump,
        TokenKind::Attack => Token::Attack,
        TokenKind::Defend => Token::Defend,
        TokenKind::If => Token::If,
        TokenKind::Else => Token::Else,
        TokenKind::While => Token::While,
        TokenKind::For => Token::For,
        TokenKind::Plus => Token::Plus,
        TokenKind::Minus => Token::Minus,
        TokenKind::Asterisk => Token::Asterisk,
        TokenKind::Slash => Token::Slash,
        TokenKind::LogicalAnd => Token::LogicalAnd,
        TokenKind::LogicalOr => Token::LogicalOr,
        TokenKind::LogicalNot => Token::LogicalNot,
        TokenKind::LParen => Token::LParen,
        TokenKind::RParen => Token::RParen,
        TokenKind::LBrace => Token::LBrace,
        TokenKind::RBrace => Token::RBrace,
        TokenKind::Semicolon => Token::Semicolon,
        _ => Token::EOF,
    }
}

/// The tokens of `input`, comments included, in source order.
pub fn lex(input: &str) -> (r: Vec<Token>)
    ensures
        views(r@) == tokenize(input@),
{
    let mut lexer = Lexer::new(input);
    let mut tokens: Vec<Token> = Vec::new();
    loop
        invariant
            lexer.wf(),
            lexer.text() == input@,
            views(tokens@) + lexer.remaining() == tokenize(input@),
        decreases lexer.text().len() - lexer.position(),
    {
        let ghost before = lexer.remaining();
        let ghost prev = tokens@;
        let t = lexer.next_token();
        if let Token::EOF = t {
            assert(views(tokens@) =~= views(tokens@) + before);
            return tokens;
        }
        tokens.push(t);
        assert(views(tokens@) =~= views(prev) + seq![t@]);
        assert(before =~= seq![before[0]] + before.drop_first());
    }
}

/// A lexeme: a text that does not start with whitespace and that the scanner
/// reads as one token, all of it.
pub open spec fn is_lexeme(w: Seq<char>) -> bool {
    &&& w.len() > 0
    &&& !is_space(w[0])
    &&& scan(w, 0).1 == w.len()
}

/// The token that a lexeme stands for.
pub open spec fn lexeme_token(w: Seq<char>) -> TokenView {
    scan(w, 0).0
}

pub open spec fn all_space(sep: Seq<char>) -> bool {
    forall|k: int| 0 <= k < sep.len() ==> is_space(#[trigger] sep[k])
}

/// `words[0] + seps[0] + words[1] + seps[1] + ...`
pub open spec fn joined(words: Seq<Seq<char>>, seps: Seq<Seq<char>>) -> Seq<char>
    decreases words.len(),
{
    if words.len() == 0 || seps.len() == 0 {
        Seq::empty()
    } else {
        words[0] + seps[0] + joined(words.drop_first(), seps.drop_first())
    }
}

/// Lexemes separated by whitespace: each separator is whitespace, all but the
/// last are non-empty, and one that follows a comment starts with a newline
/// (a comment runs to the end of its line).
pub open spec fn separated(words: Seq<Seq<char>>, seps: Seq<Seq<char>>) -> bool {
    &&& words.len() == seps.len()
    &&& forall|k: int| 0 <= k < words.len() ==> is_lexeme(#[trigger] words[k])
    &&& forall|k: int| 0 <= k < seps.len() ==> all_space(#[trigger] seps[k])
    &&& forall|k: int| 0 <= k < seps.len() - 1 ==> (#[trigger] seps[k]).len() > 0
    &&& forall|k: int|
        0 <= k < seps.len() && (#[trigger] seps[k]).len() > 0 && lexeme_token(words[k]) is Comment
            ==> seps[k][0] == '\n'
}

proof fn lemma_run_local(s: Seq<char>, i: int, w: Seq<char>, a: int, class: CharClass)
    requires
        0 <= a <= w.len(),
        0 <= i,
        i + w.len() <= s.len(),
        forall|k: int| 0 <= k < w.len() ==> s[i + k] == #[trigger] w[k],
        a + run_len(w, a, class) == w.len(),
        i + w.len() == s.len() || !in_class(s[i + w.len()], class),
    ensures
        run_len(s, i + a, class) == run_len(w, a, class),
    decreases w.len() - a,
{
    if a < w.len() {
        assert(s[i + a] == w[a]);
        lemma_run_local(s, i, w, a + 1, class);
    }
}

/// Where a lexeme stands in a text, followed by whitespace or the end, the
/// scanner reads the same token from it, and no more.
proof fn lemma_scan_local(s: Seq<char>, i: int, w: Seq<char>)
    requires
        is_lexeme(w),
        0 <= i,
        i + w.len() <= s.len(),
        forall|k: int| 0 <= k < w.len() ==> s[i + k] == #[trigger] w[k],
        i + w.len() == s.len() || is_space(s[i + w.len()]),
        i + w.len() < s.len() && lexeme_token(w) is Comment ==> s[i + w.len()] == '\n',
    ensures
        scan(s, i) == (lexeme_token(w), i + w.len()),
{
    let n = w.len() as int;
    assert(s[i + 0] == w[0]);
    if n > 1 {
        assert(s[i + 1] == w[1]);
    }
    assert(s.subrange(i, i + n) =~= w.subrange(0, n));
    assert(w.subrange(0, n) =~= w);
    if pair_at(w, 0, '/', '/') {
        lemma_run_local(s, i, w, 2, CharClass::LineText);
    } else if is_digit(w[0]) {
        lemma_run_local(s, i, w, 1, CharClass::Digit);
    } else if is_ident_start(w[0]) {
        lemma_run_local(s, i, w, 1, CharClass::IdentChar);
    }
}

/// Whitespace before the next token does not change the tokens to come.
proof fn lemma_skip_space(s: Seq<char>, i: int, j: int)
    requires
        0 <= i <= j <= s.len(),
        forall|k: int| i <= k < j ==> is_space(#[trigger] s[k]),
    ensures
        lex_from(s, i) == lex_from(s, j),
    decreases j - i,
{
    if i < j {
        lemma_skip_space(s, i + 1, j);
    }
}

proof fn lemma_lex_joined_at(s: Seq<char>, i: int, words: Seq<Seq<char>>, seps: Seq<Seq<char>>)
    requires
        separated(words, seps),
        0 <= i <= s.len(),
        s.subrange(i, s.len() as int) == joined(words, seps),
    ensures
        lex_from(s, i) == words.map_values(|w: Seq<char>| lexeme_token(w)),
    decreases words.len(),
{
    let toks = words.map_values(|w: Seq<char>| lexeme_token(w));
    if words.len() == 0 {
        assert(toks =~= Seq::<TokenView>::empty());
        assert(s.subrange(i, s.len() as int).len() == 0);
    } else {
        let w = words[0];
        let sep = seps[0];
        let rw = words.drop_first();
        let rs = seps.drop_first();
        let t = s.subrange(i, s.len() as int);
        assert(t == w + sep + joined(rw, rs));
        assert forall|k: int| 0 <= k < w.len() implies s[i + k] == #[trigger] w[k] by {
            assert(t[k] == (w + sep + joined(rw, rs))[k]);
        }
        if sep.len() > 0 {
            assert(t[w.len() as int] == (w + sep + joined(rw, rs))[w.len() as int]);
            assert(s[i + w.len()] == sep[0]);
            assert(is_space(sep[0]));
        } else {
            assert(rw.len() == 0);
            assert(joined(rw, rs) =~= Seq::<char>::empty());
            assert(t.len() == w.len());
        }
        lemma_scan_local(s, i, w);
        let j = i + w.len();
        let k = j + sep.len();
        assert forall|m: int| j <= m < k implies is_space(#[trigger] s[m]) by {
            assert(t[m - i] == (w + sep + joined(rw, rs))[m - i]);
            assert(s[m] == sep[m - j]);
        }
        lemma_skip_space(s, j, k);
        assert(s.subrange(k, s.len() as int) =~= joined(rw, rs)) by {
            assert forall|m: int| 0 <= m < s.len() - k implies #[trigger] s.subrange(k, s.len() as int)[m]
                == joined(rw, rs)[m] by {
                assert(t[k - i + m] == (w + sep + joined(rw, rs))[k - i + m]);
            }
        }
        assert(separated(rw, rs)) by {
            assert forall|m: int| 0 <= m < rw.len() implies is_lexeme(#[trigger] rw[m]) by {
                assert(rw[m] == words[m + 1]);
            }
            assert forall|m: int| 0 <= m < rs.len() implies all_space(#[trigger] rs[m]) by {
                assert(rs[m] == seps[m + 1]);
            }
            assert forall|m: int| 0 <= m < rs.len() - 1 implies (#[trigger] rs[m]).len() > 0 by {
                assert(rs[m] == seps[m + 1]);
            }
            assert forall|m: int|
                0 <= m < rs.len() && (#[trigger] rs[m]).len() > 0 && lexeme_token(rw[m]) is Comment
                    implies rs[m][0] == '\n' by {
                assert(rs[m] == seps[m + 1]);
                assert(rw[m] == words[m + 1]);
            }
        }
        lemma_lex_joined_at(s, k, rw, rs);
        lemma_scan_advances(s, i);
        assert(i < s.len() && !is_space(s[i]));
        assert(lex_from(s, i) == seq![scan(s, i).0] + lex_from(s, scan(s, i).1));
        assert(lex_from(s, j) == rw.map_values(|w: Seq<char>| lexeme_token(w)));
        assert(toks =~= seq![lexeme_token(w)] + rw.map_values(|w: Seq<char>| lexeme_token(w)));
    }
}

/// For text made of lexemes separated by whitespace, the tokenizer yields
/// exactly one token per lexeme, in source order. (The parser then reads these
/// tokens with the comments left out.)
pub proof fn lemma_one_token_per_lexeme(words: Seq<Seq<char>>, seps: Seq<Seq<char>>)
    requires
        separated(words, seps),
    ensures
        tokenize(joined(words, seps)) == words.map_values(|w: Seq<char>| lexeme_token(w)),
        tokenize(joined(words, seps)).len() == words.len(),
{
    let s = joined(words, seps);
    assert(s.subrange(0, s.len() as int) =~= s);
    lemma_lex_joined_at(s, 0, words, seps);
}

/// How much whitespace separates the lexemes does not change the tokens.
pub proof fn lemma_whitespace_irrelevant(
    words: Seq<Seq<char>>,
    seps1: Seq<Seq<char>>,
    seps2: Seq<Seq<char>>,
)
    requires
        separated(words, seps1),
        separated(words, seps2),
    ensures
        tokenize(joined(words, seps1)) == tokenize(joined(words, seps2)),
{
    lemma_one_token_per_lexeme(words, seps1);
    lemma_one_token_per_lexeme(words, seps2);
}

} // verus!
