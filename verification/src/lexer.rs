//! Lexical analysis: from source text to tokens.

use crate::error::LexError;
use crate::text::{chars_of, spells, string_of, view_each};
use vstd::prelude::*;

verus! {

/// An arithmetic operator.
#[derive(Debug, Clone, Copy, PartialEq, Eq, Structural)]
pub enum Operator {
    Addition,
    Subtraction,
    Multiplication,
    Division,
}

impl Operator {
    /// How tightly the operator binds: 2 for `*` and `/`, 1 for `+` and `-`.
    pub open spec fn binding(self) -> nat {
        match self {
            Operator::Multiplication | Operator::Division => 2,
            Operator::Addition | Operator::Subtraction => 1,
        }
    }

    /// The operator's symbol.
    pub open spec fn symbol(self) -> char {
        match self {
            Operator::Addition => '+',
            Operator::Subtraction => '-',
            Operator::Multiplication => '*',
            Operator::Division => '/',
        }
    }

    /// How tightly the operator binds.
    pub fn precedence(&self) -> (p: usize)
        ensures
            p == self.binding(),
    {
        match self {
            Operator::Multiplication | Operator::Division => 2,
            Operator::Addition | Operator::Subtraction => 1,
        }
    }

    /// The operator as it is written.
    pub fn literal(&self) -> (text: &str)
        ensures
            text@ == seq![self.symbol()],
    {
        proof {
            reveal_strlit("+");
            reveal_strlit("-");
            reveal_strlit("*");
            reveal_strlit("/");
        }
        let text = match self {
            Operator::Addition => "+",
            Operator::Subtraction => "-",
            Operator::Multiplication => "*",
            Operator::Division => "/",
        };
        assert(text@ =~= seq![self.symbol()]);
        text
    }
}

/// A lexical unit of the language.
#[derive(Debug, PartialEq)]
pub enum Token {
    Operator(Operator),
    Number { literal: String },
    Word { literal: String },
    Variable { name: String },
    Identifier { literal: String },
    Repeat,
    Make,
    To,
    End,
    LBracket,
    RBracket,
    LParen,
    RParen,
}

/// What a [`Token`] holds, with texts as character sequences.
pub enum TokenView {
    Operator(Operator),
    Number { literal: Seq<char> },
    Word { literal: Seq<char> },
    Variable { name: Seq<char> },
    Identifier { literal: Seq<char> },
    Repeat,
    Make,
    To,
    End,
    LBracket,
    RBracket,
    LParen,
    RParen,
}

impl TokenView {
    /// The short label of the token's kind: an operator's symbol, a keyword's
    /// spelling, a delimiter's character, or the name of the kind.
    pub open spec fn label(self) -> Seq<char> {
        match self {
            TokenView::Operator(op) => seq![op.symbol()],
            TokenView::Number { .. } => "Number"@,
            TokenView::Word { .. } => "Word"@,
            TokenView::Variable { .. } => "Variable"@,
            TokenView::Identifier { .. } => "Identifier"@,
            TokenView::Repeat => "repeat"@,
            TokenView::Make => "make"@,
            TokenView::To => "to"@,
            TokenView::End => "end"@,
            TokenView::LBracket => "["@,
            TokenView::RBracket => "]"@,
            TokenView::LParen => "("@,
            TokenView::RParen => ")"@,
        }
    }
}

impl TokenView {
    /// Whether two tokens are of one kind, whatever text they carry. Two
    /// operators are of one kind where they are the same operator.
    pub open spec fn same_kind(self, other: TokenView) -> bool {
        match (self, other) {
            (TokenView::Operator(a), TokenView::Operator(b)) => a == b,
            (TokenView::Number { .. }, TokenView::Number { .. }) => true,
            (TokenView::Word { .. }, TokenView::Word { .. }) => true,
            (TokenView::Variable { .. }, TokenView::Variable { .. }) => true,
            (TokenView::Identifier { .. }, TokenView::Identifier { .. }) => true,
            (TokenView::Repeat, TokenView::Repeat) => true,
            (TokenView::Make, TokenView::Make) => true,
            (TokenView::To, TokenView::To) => true,
            (TokenView::End, TokenView::End) => true,
            (TokenView::LBracket, TokenView::LBracket) => true,
            (TokenView::RBracket, TokenView::RBracket) => true,
            (TokenView::LParen, TokenView::LParen) => true,
            (TokenView::RParen, TokenView::RParen) => true,
            _ => false,
        }
    }
}

impl View for Token {
    type V = TokenView;

    open spec fn view(&self) -> TokenView {
        match self {
            Token::Operator(op) => TokenView::Operator(*op),
            Token::Number { literal } => TokenView::Number { literal: literal@ },
            Token::Word { literal } => TokenView::Word { literal: literal@ },
            Token::Variable { name } => TokenView::Variable { name: name@ },
            Token::Identifier { literal } => TokenView::Identifier { literal: literal@ },
            Token::Repeat => TokenView::Repeat,
            Token::Make => TokenView::Make,
            Token::To => TokenView::To,
            Token::End => TokenView::End,
            Token::LBracket => TokenView::LBracket,
            Token::RBracket => TokenView::RBracket,
            Token::LParen => TokenView::LParen,
            Token::RParen => TokenView::RParen,
        }
    }
}

impl Clone for Token {
    fn clone(&self) -> (copy: Token)
        ensures
            copy@ == self@,
    {
        match self {
            Token::Operator(op) => Token::Operator(*op),
            Token::Number { literal } => Token::Number { literal: literal.clone() },
            Token::Word { literal } => Token::Word { literal: literal.clone() },
            Token::Variable { name } => Token::Variable { name: name.clone() },
            Token::Identifier { literal } => Token::Identifier { literal: literal.clone() },
            Token::Repeat => Token::Repeat,
            Token::Make => Token::Make,
            Token::To => Token::To,
            Token::End => Token::End,
            Token::LBracket => Token::LBracket,
            Token::RBracket => Token::RBracket,
            Token::LParen => Token::LParen,
            Token::RParen => Token::RParen,
        }
    }
}

impl Token {
    /// Whether `self` and `other` are of one kind, whatever text they carry.
    pub fn same_kind(&self, other: &Token) -> (same: bool)
        ensures
            same == self@.same_kind(other@),
    {
        match (self, other) {
            (Token::Operator(a), Token::Operator(b)) => *a == *b,
            (Token::Number { .. }, Token::Number { .. }) => true,
            (Token::Word { .. }, Token::Word { .. }) => true,
            (Token::Variable { .. }, Token::Variable { .. }) => true,
            (Token::Identifier { .. }, Token::Identifier { .. }) => true,
            (Token::Repeat, Token::Repeat) => true,
            (Token::Make, Token::Make) => true,
            (Token::To, Token::To) => true,
            (Token::End, Token::End) => true,
            (Token::LBracket, Token::LBracket) => true,
            (Token::RBracket, Token::RBracket) => true,
            (Token::LParen, Token::LParen) => true,
            (Token::RParen, Token::RParen) => true,
            _ => false,
        }
    }

    /// The label of the token's kind, without its text.
    pub fn to_string(&self) -> (text: &str)
        ensures
            text@ == self@.label(),
    {
        match self {
            Token::Operator(op) => op.literal(),
            Token::Number { .. } => "Number",
            Token::Word { .. } => "Word",
            Token::Variable { .. } => "Variable",
            Token::Identifier { .. } => "Identifier",
            Token::Repeat => "repeat",
            Token::Make => "make",
            Token::To => "to",
            Token::End => "end",
            Token::LBracket => "[",
            Token::RBracket => "]",
            Token::LParen => "(",
            Token::RParen => ")",
        }
    }
}

/// A class of characters that a token pattern repeats.
#[derive(Debug, Clone, Copy, PartialEq, Eq, Structural)]
pub enum CharClass {
    /// Space, tab and newline.
    Space,
    /// `0` to `9`.
    Digit,
    /// `a` to `z` and `A` to `Z`.
    Letter,
    /// Letters, digits and the underscore.
    NameChar,
}

impl CharClass {
    pub open spec fn has(self, c: char) -> bool {
        match self {
            CharClass::Space => c == ' ' || c == '\n' || c == '\t',
            CharClass::Digit => '0' <= c <= '9',
            CharClass::Letter => 'a' <= c <= 'z' || 'A' <= c <= 'Z',
            CharClass::NameChar => 'a' <= c <= 'z' || 'A' <= c <= 'Z' || '0' <= c <= '9' || c
                == '_',
        }
    }

    /// Whether `c` belongs to the class.
    pub fn contains(&self, c: char) -> (inside: bool)
        ensures
            inside == self.has(c),
    {
        match self {
            CharClass::Space => c == ' ' || c == '\n' || c == '\t',
            CharClass::Digit => '0' <= c && c <= '9',
            CharClass::Letter => ('a' <= c && c <= 'z') || ('A' <= c && c <= 'Z'),
            CharClass::NameChar => ('a' <= c && c <= 'z') || ('A' <= c && c <= 'Z') || ('0' <= c
                && c <= '9') || c == '_',
        }
    }
}

/// The end of the longest run of characters of `class` that starts at `from`:
/// the first position at or after `from` that holds no such character.
pub open spec fn run_end(s: Seq<char>, from: int, class: CharClass) -> int
    decreases s.len() - from,
{
    if 0 <= from < s.len() && class.has(s[from]) {
        run_end(s, from + 1, class)
    } else {
        from
    }
}

/// Where a number literal that starts at `at` ends: an optional minus sign,
/// then one or more digits, as many as follow.
pub open spec fn number_end(s: Seq<char>, at: int) -> Option<int> {
    let digits = if 0 <= at < s.len() && s[at] == '-' {
        at + 1
    } else {
        at
    };
    let end = run_end(s, digits, CharClass::Digit);
    if end > digits {
        Some(end)
    } else {
        None
    }
}

/// Where a name that starts at `at` ends: a letter, then as many letters,
/// digits and underscores as follow.
pub open spec fn name_end(s: Seq<char>, at: int) -> Option<int> {
    if 0 <= at < s.len() && CharClass::Letter.has(s[at]) {
        Some(run_end(s, at + 1, CharClass::NameChar))
    } else {
        None
    }
}

/// Where a name that is introduced by `mark` at `at` ends.
pub open spec fn marked_name_end(s: Seq<char>, at: int, mark: char) -> Option<int> {
    if 0 <= at < s.len() && s[at] == mark {
        name_end(s, at + 1)
    } else {
        None
    }
}

/// The keyword that `name` spells, if it is reserved.
pub open spec fn keyword(name: Seq<char>) -> Option<TokenView> {
    if name == "repeat"@ {
        Some(TokenView::Repeat)
    } else if name == "make"@ {
        Some(TokenView::Make)
    } else if name == "to"@ {
        Some(TokenView::To)
    } else if name == "end"@ {
        Some(TokenView::End)
    } else {
        None
    }
}

/// The delimiter or operator that the single character `c` stands for.
pub open spec fn symbol_token(c: char) -> Option<TokenView> {
    if c == '[' {
        Some(TokenView::LBracket)
    } else if c == ']' {
        Some(TokenView::RBracket)
    } else if c == '(' {
        Some(TokenView::LParen)
    } else if c == ')' {
        Some(TokenView::RParen)
    } else if c == '+' {
        Some(TokenView::Operator(Operator::Addition))
    } else if c == '-' {
        Some(TokenView::Operator(Operator::Subtraction))
    } else if c == '*' {
        Some(TokenView::Operator(Operator::Multiplication))
    } else if c == '/' {
        Some(TokenView::Operator(Operator::Division))
    } else {
        None
    }
}

/// The token that starts exactly at `at`, with the position just behind it.
/// The patterns are tried in a fixed order and the first that matches wins:
/// number, quoted word, variable, name (a keyword where it is reserved),
/// delimiter, operator. `None` where none matches.
pub open spec fn token_at(s: Seq<char>, at: int) -> Option<(TokenView, int)> {
    if let Some(end) = number_end(s, at) {
        Some((TokenView::Number { literal: s.subrange(at, end) }, end))
    } else if let Some(end) = marked_name_end(s, at, '"') {
        Some((TokenView::Word { literal: s.subrange(at + 1, end) }, end))
    } else if let Some(end) = marked_name_end(s, at, ':') {
        Some((TokenView::Variable { name: s.subrange(at + 1, end) }, end))
    } else if let Some(end) = name_end(s, at) {
        let name = s.subrange(at, end);
        match keyword(name) {
            Some(reserved) => Some((reserved, end)),
            None => Some((TokenView::Identifier { literal: name }, end)),
        }
    } else if 0 <= at < s.len() && symbol_token(s[at]) is Some {
        Some((symbol_token(s[at])->0, at + 1))
    } else {
        None
    }
}

/// What lexing a text from some position on comes to.
pub struct LexRun {
    /// The tokens found before the lexer stopped.
    pub tokens: Seq<TokenView>,
    /// Where the lexer stopped: the end of the text, or the start of what it
    /// could not recognise.
    pub end: int,
    /// Whether it stopped at something that is no token.
    pub failed: bool,
}

/// Lexes `s` from `from` on: skips whitespace, takes the token at the cursor,
/// and goes on behind it, until the text ends or no token matches.
pub open spec fn lex_run(s: Seq<char>, from: int) -> LexRun
    decreases s.len() - from,
    via lex_run_terminates
{
    let at = run_end(s, from, CharClass::Space);
    if at >= s.len() {
        LexRun { tokens: Seq::empty(), end: at, failed: false }
    } else {
        match token_at(s, at) {
            None => LexRun { tokens: Seq::empty(), end: at, failed: true },
            Some((token, end)) => {
                let rest = lex_run(s, end);
                LexRun { tokens: seq![token] + rest.tokens, end: rest.end, failed: rest.failed }
            },
        }
    }
}

#[via_fn]
proof fn lex_run_terminates(s: Seq<char>, from: int) {
    let at = run_end(s, from, CharClass::Space);
    lemma_run_end_bounds(s, from, CharClass::Space);
    if token_at(s, at) is Some {
        lemma_token_at_advances(s, at);
    }
}

/// A run of `class` never ends before its start nor behind the text.
pub proof fn lemma_run_end_bounds(s: Seq<char>, from: int, class: CharClass)
    ensures
        from <= run_end(s, from, class),
        0 <= from <= s.len() ==> run_end(s, from, class) <= s.len(),
    decreases s.len() - from,
{
    if 0 <= from < s.len() && class.has(s[from]) {
        lemma_run_end_bounds(s, from + 1, class);
    }
}

/// A token is never empty and never reaches behind the text.
pub proof fn lemma_token_at_advances(s: Seq<char>, at: int)
    requires
        token_at(s, at) is Some,
    ensures
        0 <= at < token_at(s, at).unwrap().1 <= s.len(),
{
    lemma_run_end_bounds(s, at, CharClass::Digit);
    lemma_run_end_bounds(s, at + 1, CharClass::Digit);
    lemma_run_end_bounds(s, at + 1, CharClass::NameChar);
    lemma_run_end_bounds(s, at + 2, CharClass::NameChar);
}

/// Scans the run of `class` that starts at `from`.
fn scan(chars: &Vec<char>, from: usize, class: CharClass) -> (end: usize)
    ensures
        end == run_end(chars@, from as int, class),
        from <= end,
        from <= chars.len() ==> end <= chars.len(),
{
    let mut end = from;
    while end < chars.len() && class.contains(chars[end])
        invariant
            from <= end,
            from <= chars.len() ==> end <= chars.len(),
            run_end(chars@, from as int, class) == run_end(chars@, end as int, class),
        decreases chars.len() - end,
    {
        end += 1;
    }
    end
}

/// Matches a number literal at `at`.
pub fn match_number(chars: &Vec<char>, at: usize) -> (end: Option<usize>)
    ensures
        end.is_some() == number_end(chars@, at as int).is_some(),
        end matches Some(e) ==> number_end(chars@, at as int) == Some(e as int) && at < e
            <= chars.len(),
{
    let digits = if at < chars.len() && chars[at] == '-' {
        at + 1
    } else {
        at
    };
    let end = scan(chars, digits, CharClass::Digit);
    if end > digits {
        Some(end)
    } else {
        None
    }
}

/// Matches a name at `at`.
pub fn match_name(chars: &Vec<char>, at: usize) -> (end: Option<usize>)
    ensures
        end.is_some() == name_end(chars@, at as int).is_some(),
        end matches Some(e) ==> name_end(chars@, at as int) == Some(e as int) && at < e
            <= chars.len(),
{
    if at < chars.len() && CharClass::Letter.contains(chars[at]) {
        Some(scan(chars, at + 1, CharClass::NameChar))
    } else {
        None
    }
}

/// Matches at `at` the character `mark` and a name behind it.
pub fn match_marked_name(chars: &Vec<char>, at: usize, mark: char) -> (end: Option<usize>)
    ensures
        end.is_some() == marked_name_end(chars@, at as int, mark).is_some(),
        end matches Some(e) ==> marked_name_end(chars@, at as int, mark) == Some(e as int) && at
            + 1 < e <= chars.len(),
{
    if at < chars.len() && chars[at] == mark {
        match_name(chars, at + 1)
    } else {
        None
    }
}

/// The keyword that `name` spells, if it is reserved.
pub fn keyword_token(name: &str) -> (reserved: Option<Token>)
    ensures
        reserved.is_some() == keyword(name@).is_some(),
        reserved matches Some(token) ==> keyword(name@) == Some(token@),
{
    let name = chars_of(name);
    if spells(&name, "repeat") {
        Some(Token::Repeat)
    } else if spells(&name, "make") {
        Some(Token::Make)
    } else if spells(&name, "to") {
        Some(Token::To)
    } else if spells(&name, "end") {
        Some(Token::End)
    } else {
        None
    }
}

/// The delimiter or operator that `c` stands for.
pub fn match_symbol(c: char) -> (found: Option<Token>)
    ensures
        found.is_some() == symbol_token(c).is_some(),
        found matches Some(token) ==> symbol_token(c) == Some(token@),
{
    if c == '[' {
        Some(Token::LBracket)
    } else if c == ']' {
        Some(Token::RBracket)
    } else if c == '(' {
        Some(Token::LParen)
    } else if c == ')' {
        Some(Token::RParen)
    } else if c == '+' {
        Some(Token::Operator(Operator::Addition))
    } else if c == '-' {
        Some(Token::Operator(Operator::Subtraction))
    } else if c == '*' {
        Some(Token::Operator(Operator::Multiplication))
    } else if c == '/' {
        Some(Token::Operator(Operator::Division))
    } else {
        None
    }
}

/// A cursor over a source text that hands out its tokens one by one.
pub struct Lexer {
    chars: Vec<char>,
    index: usize,
}

impl Lexer {
    #[verifier::type_invariant]
    spec fn in_bounds(self) -> bool {
        self.index <= self.chars.len()
    }

    /// The text being lexed.
    pub closed spec fn source(self) -> Seq<char> {
        self.chars@
    }

    /// The cursor: how many characters lie behind it.
    pub closed spec fn position(self) -> int {
        self.index as int
    }

    /// A lexer at the start of `source`.
    pub fn new(source: &str) -> (lexer: Lexer)
        ensures
            lexer.source() == source@,
            lexer.position() == 0,
    {
        Lexer { chars: chars_of(source), index: 0 }
    }

    /// Lexes the rest of the text. On failure the cursor stays at what was
    /// not recognised and the tokens found so far are dropped.
    pub fn collect_tokens(&mut self) -> (result: Result<Vec<Token>, LexError>)
        ensures
            final(self).source() == old(self).source(),
            final(self).position() == lex_run(old(self).source(), old(self).position()).end,
            result.is_err() == lex_run(old(self).source(), old(self).position()).failed,
            result matches Ok(tokens) ==> view_each(tokens@) == lex_run(
                old(self).source(),
                old(self).position(),
            ).tokens,
    {
        let mut tokens: Vec<Token> = Vec::new();
        let ghost whole = lex_run(self.source(), self.position());
        loop
            invariant
                self.source() == old(self).source(),
                whole == lex_run(old(self).source(), old(self).position()),
                ({
                    let rest = lex_run(self.source(), self.position());
                    &&& whole.tokens == view_each(tokens@) + rest.tokens
                    &&& whole.end == rest.end
                    &&& whole.failed == rest.failed
                }),
            decreases self.source().len() - self.position(),
        {
            let ghost before = self.position();
            let ghost seen = view_each(tokens@);
            proof {
                use_type_invariant(&*self);
                let at = run_end(self.source(), before, CharClass::Space);
                lemma_run_end_bounds(self.source(), before, CharClass::Space);
                if token_at(self.source(), at) is Some {
                    lemma_token_at_advances(self.source(), at);
                }
            }
            match self.next_token() {
                None => {
                    assert(whole.tokens =~= view_each(tokens@));
                    return Ok(tokens);
                },
                Some(Err(e)) => {
                    return Err(e);
                },
                Some(Ok(token)) => {
                    let ghost tv = token@;
                    tokens.push(token);
                    proof {
                        assert(view_each(tokens@) =~= seen.push(tv));
                        let rest = lex_run(self.source(), self.position());
                        assert(whole.tokens =~= view_each(tokens@) + rest.tokens);
                    }
                },
            }
        }
    }

    /// The next token, `None` at the end of the text. Where no token starts
    /// at the cursor the result is an error and the cursor stays there.
    pub fn next_token(&mut self) -> (next: Option<Result<Token, LexError>>)
        ensures
            final(self).source() == old(self).source(),
            ({
                let s = old(self).source();
                let at = run_end(s, old(self).position(), CharClass::Space);
                if at >= s.len() {
                    next is None && final(self).position() == at
                } else {
                    match token_at(s, at) {
                        None => next == Some::<Result<Token, LexError>>(
                            Err(LexError::UnrecognizedToken),
                        ) && final(self).position() == at,
                        Some((token, end)) => {
                            &&& next matches Some(Ok(found))
                            &&& found@ == token
                            &&& final(self).position() == end
                        },
                    }
                }
            }),
    {
        self.skip_whitespace();
        proof {
            use_type_invariant(&*self);
        }
        let at = self.index;
        if at >= self.chars.len() {
            return None;
        }
        if let Some(end) = match_number(&self.chars, at) {
            let literal = self.consume(end - at);
            return Some(Ok(Token::Number { literal }));
        }
        if let Some(end) = match_marked_name(&self.chars, at, '"') {
            let _ = self.consume(1);
            let literal = self.consume(end - at - 1);
            return Some(Ok(Token::Word { literal }));
        }
        if let Some(end) = match_marked_name(&self.chars, at, ':') {
            let _ = self.consume(1);
            let name = self.consume(end - at - 1);
            return Some(Ok(Token::Variable { name }));
        }
        if let Some(end) = match_name(&self.chars, at) {
            let literal = self.consume(end - at);
            return match keyword_token(literal.as_str()) {
                Some(reserved) => Some(Ok(reserved)),
                None => Some(Ok(Token::Identifier { literal })),
            };
        }
        match match_symbol(self.chars[at]) {
            Some(token) => {
                let _ = self.consume(1);
                Some(Ok(token))
            },
            None => Some(Err(LexError::UnrecognizedToken)),
        }
    }

    /// Moves the cursor to the first character that is no whitespace.
    fn skip_whitespace(&mut self)
        ensures
            final(self).source() == old(self).source(),
            final(self).position() == run_end(
                old(self).source(),
                old(self).position(),
                CharClass::Space,
            ),
    {
        proof {
            use_type_invariant(&*self);
        }
        self.index = scan(&self.chars, self.index, CharClass::Space);
    }

    /// Takes the next `n` characters and moves the cursor behind them.
    fn consume(&mut self, n: usize) -> (content: String)
        requires
            old(self).position() + n <= old(self).source().len(),
        ensures
            final(self).source() == old(self).source(),
            final(self).position() == old(self).position() + n,
            content@ == old(self).source().subrange(
                old(self).position(),
                old(self).position() + n,
            ),
    {
        proof {
            use_type_invariant(&*self);
        }
        let content = string_of(&self.chars, self.index, self.index + n);
        self.index = self.index + n;
        content
    }
}

} // verus!
