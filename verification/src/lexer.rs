//! A standalone hand-rolled token scanner over raw source text, with its
//! mathematical model: a recursive specification of the token (or
//! positioned error) every scanner state yields.

use vstd::prelude::*;

use crate::CompilationError;
use crate::text::{chars_to_string, digits_val, str_to_chars};

verus! {

/// A lexical unit of the language.
#[derive(Debug)]
pub enum Token {
    Identifier(String),
    Character(char),
    Number(i32),
    Operator(Operator),
    Colon,
    AtSign,
    OpenParenthesis,
    CloseParenthesis,
    OpenBrace,
    CloseBrace,
    Assignment(Assignment),
    Comparison(Comparison),
    Semicolon,
    Keyword(Keyword),
}

#[derive(Debug, Copy, Clone, PartialEq, Eq, Structural)]
pub enum Operator {
    Plus,
    Minus,
    Star,
    Slash,
}

#[derive(Debug, Copy, Clone, PartialEq, Eq, Structural)]
pub enum Keyword {
    Let,
    Return,
}

#[derive(Debug, Copy, Clone, PartialEq, Eq, Structural)]
pub enum Assignment {
    Assign,
    AddAssign,
}

#[derive(Debug, Copy, Clone, PartialEq, Eq, Structural)]
pub enum Comparison {
    Equals,
    GreaterThan,
    LessThan,
}

/// Settings for the lexer. No options exist yet; the type reserves the
/// surface for them.
#[derive(Debug, Clone)]
pub struct LexerConfiguration {}

/// Mathematical model of a token: names as character sequences, numbers as
/// unbounded integers.
pub enum TokenV {
    Identifier(Seq<char>),
    Character(char),
    Number(int),
    Operator(Operator),
    Colon,
    AtSign,
    OpenParenthesis,
    CloseParenthesis,
    OpenBrace,
    CloseBrace,
    Assignment(Assignment),
    Comparison(Comparison),
    Semicolon,
    Keyword(Keyword),
}

impl View for Token {
    type V = TokenV;

    open spec fn view(&self) -> TokenV {
        match self {
            Token::Identifier(s) => TokenV::Identifier(s@),
            Token::Character(c) => TokenV::Character(*c),
            Token::Number(n) => TokenV::Number(*n as int),
            Token::Operator(o) => TokenV::Operator(*o),
            Token::Colon => TokenV::Colon,
            Token::AtSign => TokenV::AtSign,
            Token::OpenParenthesis => TokenV::OpenParenthesis,
            Token::CloseParenthesis => TokenV::CloseParenthesis,
            Token::OpenBrace => TokenV::OpenBrace,
            Token::CloseBrace => TokenV::CloseBrace,
            Token::Assignment(a) => TokenV::Assignment(*a),
            Token::Comparison(c) => TokenV::Comparison(*c),
            Token::Semicolon => TokenV::Semicolon,
            Token::Keyword(k) => TokenV::Keyword(*k),
        }
    }
}

impl Clone for Token {
    /// A copy with the same mathematical value.
    fn clone(&self) -> (res: Self)
        ensures
            res@ == self@,
    {
        match self {
            Token::Identifier(s) => Token::Identifier(s.clone()),
            Token::Character(c) => Token::Character(*c),
            Token::Number(n) => Token::Number(*n),
            Token::Operator(o) => Token::Operator(*o),
            Token::Colon => Token::Colon,
            Token::AtSign => Token::AtSign,
            Token::OpenParenthesis => Token::OpenParenthesis,
            Token::CloseParenthesis => Token::CloseParenthesis,
            Token::OpenBrace => Token::OpenBrace,
            Token::CloseBrace => Token::CloseBrace,
            Token::Assignment(a) => Token::Assignment(*a),
            Token::Comparison(c) => Token::Comparison(*c),
            Token::Semicolon => Token::Semicolon,
            Token::Keyword(k) => Token::Keyword(*k),
        }
    }
}

/// The views of a token list, element by element.
pub open spec fn tokens_view(v: Seq<Token>) -> Seq<TokenV> {
    Seq::new(v.len(), |i: int| v[i]@)
}

/// What a lex error is made of: where it arose (zero-based line and
/// column) and which fault it reports.
pub enum LexErrKind {
    UnterminatedCharacter,
    EmptyCharacter,
    NumberOutOfRange,
}

pub struct LexErrV {
    pub kind: LexErrKind,
    pub line: nat,
    pub col: nat,
}

/// The message each lex error carries.
pub open spec fn lex_err_message(kind: LexErrKind) -> Seq<char> {
    match kind {
        LexErrKind::UnterminatedCharacter => "Expected closing single quote"@,
        LexErrKind::EmptyCharacter => "Empty character literal"@,
        LexErrKind::NumberOutOfRange => "Number literal out of range"@,
    }
}

/// A character that may start an identifier: a letter or an underscore.
pub open spec fn is_ident_start(c: char) -> bool {
    ('a' <= c && c <= 'z') || ('A' <= c && c <= 'Z') || c == '_'
}

/// A character that may continue an identifier: a letter, a digit or an
/// underscore.
pub open spec fn is_ident_char(c: char) -> bool {
    is_ident_start(c) || ('0' <= c && c <= '9')
}

pub open spec fn is_digit_char(c: char) -> bool {
    '0' <= c && c <= '9'
}

/// The first position at or after `p` that does not continue an
/// identifier.
pub open spec fn ident_end(s: Seq<char>, p: nat) -> nat
    decreases s.len() - p
        when p <= s.len()
{
    if p < s.len() && is_ident_char(s[p as int]) {
        ident_end(s, p + 1)
    } else {
        p
    }
}

/// The first position at or after `p` that is not a decimal digit.
pub open spec fn digits_end(s: Seq<char>, p: nat) -> nat
    decreases s.len() - p
        when p <= s.len()
{
    if p < s.len() && is_digit_char(s[p as int]) {
        digits_end(s, p + 1)
    } else {
        p
    }
}

/// The first position at or after `p` holding a closing single quote, or
/// the end of the input if none is left.
pub open spec fn quote_end(s: Seq<char>, p: nat) -> nat
    decreases s.len() - p
        when p <= s.len()
{
    if p < s.len() && s[p as int] != '\'' {
        quote_end(s, p + 1)
    } else {
        p
    }
}

/// Scan positions never run backwards or past the end.
pub proof fn lemma_scan_ends(s: Seq<char>, p: nat)
    requires
        p <= s.len(),
    ensures
        p <= ident_end(s, p) <= s.len(),
        p <= digits_end(s, p) <= s.len(),
        p <= quote_end(s, p) <= s.len(),
    decreases s.len() - p,
{
    if p < s.len() {
        lemma_scan_ends(s, p + 1);
    }
}

/// Every character of a digit run is a digit.
pub proof fn lemma_digits_run(s: Seq<char>, p: nat)
    requires
        p <= s.len(),
    ensures
        forall|j: int| p <= j < digits_end(s, p) ==> is_digit_char(#[trigger] s[j]),
    decreases s.len() - p,
{
    lemma_scan_ends(s, p);
    if p < s.len() && is_digit_char(s[p as int]) {
        lemma_digits_run(s, p + 1);
    }
}

/// The classification of an identifier span: the reserved words become
/// keyword tokens, every other span an identifier token.
pub open spec fn ident_token(text: Seq<char>) -> TokenV {
    if text == seq!['l', 'e', 't'] {
        TokenV::Keyword(Keyword::Let)
    } else if text == seq!['r', 'e', 't', 'u', 'r', 'n'] {
        TokenV::Keyword(Keyword::Return)
    } else {
        TokenV::Identifier(text)
    }
}

/// What one scanner step yields from state `(pos, line, ls)` over input
/// `s`: the end of input, a token with the state after it, or a positioned
/// error. `ls` is the position just after the last newline, so a column is
/// a position minus `ls`. Whitespace, newlines and unrecognized characters
/// are skipped without a token.
pub enum NextV {
    Done,
    Tok(TokenV, nat, nat, nat),
    Fail(LexErrV),
}

pub open spec fn spec_next(s: Seq<char>, pos: nat, line: nat, ls: nat) -> NextV
    decreases s.len() - pos
        when pos <= s.len()
{
    if pos >= s.len() {
        NextV::Done
    } else {
        let c = s[pos as int];
        if c == '\n' {
            spec_next(s, pos + 1, line + 1, pos + 1)
        } else if c == ' ' || c == '\t' {
            spec_next(s, pos + 1, line, ls)
        } else if c == '=' {
            if pos + 1 < s.len() && s[pos as int + 1] == '=' {
                NextV::Tok(TokenV::Comparison(Comparison::Equals), pos + 2, line, ls)
            } else {
                NextV::Tok(TokenV::Assignment(Assignment::Assign), pos + 1, line, ls)
            }
        } else if c == '>' {
            NextV::Tok(TokenV::Comparison(Comparison::GreaterThan), pos + 1, line, ls)
        } else if c == '<' {
            NextV::Tok(TokenV::Comparison(Comparison::LessThan), pos + 1, line, ls)
        } else if c == '+' {
            if pos + 1 < s.len() && s[pos as int + 1] == '=' {
                NextV::Tok(TokenV::Assignment(Assignment::AddAssign), pos + 2, line, ls)
            } else {
                NextV::Tok(TokenV::Operator(Operator::Plus), pos + 1, line, ls)
            }
        } else if c == '-' {
            NextV::Tok(TokenV::Operator(Operator::Minus), pos + 1, line, ls)
        } else if c == '*' {
            NextV::Tok(TokenV::Operator(Operator::Star), pos + 1, line, ls)
        } else if c == '/' {
            NextV::Tok(TokenV::Operator(Operator::Slash), pos + 1, line, ls)
        } else if c == '(' {
            NextV::Tok(TokenV::OpenParenthesis, pos + 1, line, ls)
        } else if c == ')' {
            NextV::Tok(TokenV::CloseParenthesis, pos + 1, line, ls)
        } else if c == '{' {
            NextV::Tok(TokenV::OpenBrace, pos + 1, line, ls)
        } else if c == '}' {
            NextV::Tok(TokenV::CloseBrace, pos + 1, line, ls)
        } else if c == ';' {
            NextV::Tok(TokenV::Semicolon, pos + 1, line, ls)
        } else if c == ':' {
            NextV::Tok(TokenV::Colon, pos + 1, line, ls)
        } else if c == '@' {
            NextV::Tok(TokenV::AtSign, pos + 1, line, ls)
        } else if is_ident_start(c) {
            let end = ident_end(s, pos + 1);
            NextV::Tok(ident_token(s.subrange(pos as int, end as int)), end, line, ls)
        } else if is_digit_char(c) {
            let end = digits_end(s, pos + 1);
            let value = digits_val(s.subrange(pos as int, end as int));
            if value > i32::MAX {
                NextV::Fail(LexErrV { kind: LexErrKind::NumberOutOfRange, line, col: (pos - ls) as nat })
            } else {
                NextV::Tok(TokenV::Number(value), end, line, ls)
            }
        } else if c == '\'' {
            let end = quote_end(s, pos + 1);
            if end >= s.len() {
                NextV::Fail(LexErrV { kind: LexErrKind::UnterminatedCharacter, line, col: (pos - ls) as nat })
            } else if end == pos + 1 {
                NextV::Fail(LexErrV { kind: LexErrKind::EmptyCharacter, line, col: (pos - ls) as nat })
            } else {
                NextV::Tok(TokenV::Character(s[pos as int + 1]), end + 1, line, ls)
            }
        } else {
            spec_next(s, pos + 1, line, ls)
        }
    }
}

/// A token step moves the scanner strictly forward and keeps the state
/// well formed.
pub proof fn lemma_spec_next_progress(s: Seq<char>, pos: nat, line: nat, ls: nat)
    requires
        pos <= s.len(),
        ls <= pos,
    ensures
        spec_next(s, pos, line, ls) matches NextV::Tok(t, p, l, ls2) ==> pos < p <= s.len() && ls2 <= p,
    decreases s.len() - pos,
{
    if pos < s.len() {
        let c = s[pos as int];
        if c == '\n' {
            lemma_spec_next_progress(s, pos + 1, line + 1, pos + 1);
        } else if c == ' ' || c == '\t' {
            lemma_spec_next_progress(s, pos + 1, line, ls);
        } else if is_ident_start(c) {
            lemma_scan_ends(s, pos + 1);
        } else if is_digit_char(c) {
            lemma_scan_ends(s, pos + 1);
        } else if c == '\'' {
            lemma_scan_ends(s, pos + 1);
        } else if c == '=' || c == '>' || c == '<' || c == '+' || c == '-' || c == '*' || c == '/'
            || c == '(' || c == ')' || c == '{' || c == '}' || c == ';' || c == ':' || c == '@' {
        } else {
            lemma_spec_next_progress(s, pos + 1, line, ls);
        }
    }
}

/// What lexing the whole remaining input yields: the tokens in order, or
/// the first positioned error.
pub open spec fn spec_lex(s: Seq<char>, pos: nat, line: nat, ls: nat) -> Result<Seq<TokenV>, LexErrV>
    decreases s.len() - pos
        when pos <= s.len() && ls <= pos
{
    match spec_next(s, pos, line, ls) {
        NextV::Done => Ok(Seq::empty()),
        NextV::Fail(e) => Err(e),
        NextV::Tok(t, p, l, ls2) => {
            if pos < p <= s.len() && ls2 <= p {
                match spec_lex(s, p, l, ls2) {
                    Ok(rest) => Ok(seq![t] + rest),
                    Err(e) => Err(e),
                }
            } else {
                // never reached: a token step moves strictly forward
                Ok(seq![t])
            }
        },
    }
}

/// The hand-rolled scanner: the input as characters and the cursor
/// position, with the line bookkeeping used for error positions.
pub struct Lexer {
    pub configuration: LexerConfiguration,
    pub input: Vec<char>,
    pub position: usize,
    pub line: usize,
    pub line_start_position: usize,
}

impl Lexer {
    /// A scanner state is well formed when the cursor is inside the input
    /// and behind the current line start.
    pub open spec fn wf(&self) -> bool {
        self.position <= self.input.len() && self.line_start_position <= self.position
            && self.line <= self.position
    }

    /// A fresh scanner at the start of the input.
    pub fn new(configuration: LexerConfiguration, input: &str) -> (r: Self)
        ensures
            r.wf(),
            r.input@ == input@,
            r.position == 0,
            r.line == 0,
            r.line_start_position == 0,
    {
        Self {
            configuration: LexerConfiguration {},
            input: str_to_chars(input),
            position: 0,
            line: 0,
            line_start_position: 0,
        }
    }

    /// Scans the next token: `Ok(Some(..))` with the scanner advanced past
    /// it, `Ok(None)` at the end of input, or the positioned error the
    /// model gives.
    pub fn next_token(&mut self) -> (r: Result<Option<Token>, CompilationError>)
        requires
            old(self).wf(),
        ensures
            final(self).wf(),
            final(self).input == old(self).input,
            match spec_next(old(self).input@, old(self).position as nat, old(self).line as nat, old(self).line_start_position as nat) {
                NextV::Done => r matches Ok(o) && o is None && final(self).position == final(self).input.len(),
                NextV::Tok(t, p, l, ls2) => r matches Ok(o) && o matches Some(tok) && tok@ == t
                    && final(self).position == p && final(self).line == l
                    && final(self).line_start_position == ls2,
                NextV::Fail(e) => r matches Err(err) && err.line == e.line && err.column == e.col
                    && err.message@ == lex_err_message(e.kind),
            },
        decreases old(self).input.len() - old(self).position,
    {
        let ghost s = self.input@;
        if self.position >= self.input.len() {
            return Ok(None);
        }
        let pos = self.position;
        let c = self.input[pos];
        if c == '\n' {
            self.position = pos + 1;
            self.line = self.line + 1;
            self.line_start_position = pos + 1;
            self.next_token()
        } else if c == ' ' || c == '\t' {
            self.position = pos + 1;
            self.next_token()
        } else if c == '=' {
            if pos + 1 < self.input.len() && self.input[pos + 1] == '=' {
                self.position = pos + 2;
                Ok(Some(Token::Comparison(Comparison::Equals)))
            } else {
                self.position = pos + 1;
                Ok(Some(Token::Assignment(Assignment::Assign)))
            }
        } else if c == '>' {
            self.position = pos + 1;
            Ok(Some(Token::Comparison(Comparison::GreaterThan)))
        } else if c == '<' {
            self.position = pos + 1;
            Ok(Some(Token::Comparison(Comparison::LessThan)))
        } else if c == '+' {
            if pos + 1 < self.input.len() && self.input[pos + 1] == '=' {
                self.position = pos + 2;
                Ok(Some(Token::Assignment(Assignment::AddAssign)))
            } else {
                self.position = pos + 1;
                Ok(Some(Token::Operator(Operator::Plus)))
            }
        } else if c == '-' {
            self.position = pos + 1;
            Ok(Some(Token::Operator(Operator::Minus)))
        } else if c == '*' {
            self.position = pos + 1;
            Ok(Some(Token::Operator(Operator::Star)))
        } else if c == '/' {
            self.position = pos + 1;
            Ok(Some(Token::Operator(Operator::Slash)))
        } else if c == '(' {
            self.position = pos + 1;
            Ok(Some(Token::OpenParenthesis))
        } else if c == ')' {
            self.position = pos + 1;
            Ok(Some(Token::CloseParenthesis))
        } else if c == '{' {
            self.position = pos + 1;
            Ok(Some(Token::OpenBrace))
        } else if c == '}' {
            self.position = pos + 1;
            Ok(Some(Token::CloseBrace))
        } else if c == ';' {
            self.position = pos + 1;
            Ok(Some(Token::Semicolon))
        } else if c == ':' {
            self.position = pos + 1;
            Ok(Some(Token::Colon))
        } else if c == '@' {
            self.position = pos + 1;
            Ok(Some(Token::AtSign))
        } else if is_ident_start_exec(c) {
            let end = self.scan_ident(pos + 1);
            let text = self.collect(pos, end);
            self.position = end;
            let tok = if text.len() == 3 && text[0] == 'l' && text[1] == 'e' && text[2] == 't' {
                proof {
                    assert(text@ =~= seq!['l', 'e', 't']);
                }
                Token::Keyword(Keyword::Let)
            } else if text.len() == 6 && text[0] == 'r' && text[1] == 'e' && text[2] == 't'
                && text[3] == 'u' && text[4] == 'r' && text[5] == 'n' {
                proof {
                    assert(text@ =~= seq!['r', 'e', 't', 'u', 'r', 'n']);
                }
                Token::Keyword(Keyword::Return)
            } else {
                proof {
                    assert(text@ != seq!['l', 'e', 't'] && text@ != seq!['r', 'e', 't', 'u', 'r', 'n']) by {
                        if text@ == seq!['l', 'e', 't'] {
                            assert(text@.len() == 3 && text@[0] == 'l' && text@[1] == 'e' && text@[2] == 't');
                        }
                        if text@ == seq!['r', 'e', 't', 'u', 'r', 'n'] {
                            assert(text@.len() == 6 && text@[0] == 'r' && text@[1] == 'e' && text@[2] == 't'
                                && text@[3] == 'u' && text@[4] == 'r' && text@[5] == 'n');
                        }
                    }
                }
                Token::Identifier(chars_to_string(&text))
            };
            Ok(Some(tok))
        } else if is_digit_exec(c) {
            let end = self.scan_digits(pos + 1);
            proof {
                lemma_digits_run(self.input@, pos as nat + 1);
            }
            let value = self.digits_value(pos, end);
            match value {
                Some(v) => {
                    self.position = end;
                    Ok(Some(Token::Number(v)))
                },
                None => Err(CompilationError {
                    message: new_message("Number literal out of range"),
                    line: self.line,
                    column: pos - self.line_start_position,
                }),
            }
        } else if c == '\'' {
            let end = self.scan_quote(pos + 1);
            if end >= self.input.len() {
                Err(CompilationError {
                    message: new_message("Expected closing single quote"),
                    line: self.line,
                    column: pos - self.line_start_position,
                })
            } else if end == pos + 1 {
                Err(CompilationError {
                    message: new_message("Empty character literal"),
                    line: self.line,
                    column: pos - self.line_start_position,
                })
            } else {
                self.position = end + 1;
                Ok(Some(Token::Character(self.input[pos + 1])))
            }
        } else {
            self.position = pos + 1;
            self.next_token()
        }
    }

    /// The end of the identifier run starting at `from`.
    fn scan_ident(&self, from: usize) -> (end: usize)
        requires
            from <= self.input.len(),
        ensures
            end == ident_end(self.input@, from as nat),
            from <= end <= self.input.len(),
        decreases self.input.len() - from,
    {
        proof {
            lemma_scan_ends(self.input@, from as nat);
        }
        if from < self.input.len() && is_ident_char_exec(self.input[from]) {
            self.scan_ident(from + 1)
        } else {
            from
        }
    }

    /// The end of the digit run starting at `from`.
    fn scan_digits(&self, from: usize) -> (end: usize)
        requires
            from <= self.input.len(),
        ensures
            end == digits_end(self.input@, from as nat),
            from <= end <= self.input.len(),
        decreases self.input.len() - from,
    {
        proof {
            lemma_scan_ends(self.input@, from as nat);
        }
        if from < self.input.len() && is_digit_exec(self.input[from]) {
            self.scan_digits(from + 1)
        } else {
            from
        }
    }

    /// The position of the closing quote at or after `from`, or the end of
    /// the input.
    fn scan_quote(&self, from: usize) -> (end: usize)
        requires
            from <= self.input.len(),
        ensures
            end == quote_end(self.input@, from as nat),
            from <= end <= self.input.len(),
        decreases self.input.len() - from,
    {
        proof {
            lemma_scan_ends(self.input@, from as nat);
        }
        if from < self.input.len() && self.input[from] != '\'' {
            self.scan_quote(from + 1)
        } else {
            from
        }
    }

    /// The characters of the span `[from, to)`.
    fn collect(&self, from: usize, to: usize) -> (v: Vec<char>)
        requires
            from <= to <= self.input.len(),
        ensures
            v@ == self.input@.subrange(from as int, to as int),
    {
        let mut v: Vec<char> = Vec::new();
        let mut i: usize = from;
        while i < to
            invariant
                from <= i <= to <= self.input.len(),
                v@ =~= self.input@.subrange(from as int, i as int),
            decreases to - i,
        {
            v.push(self.input[i]);
            i = i + 1;
            assert(v@ =~= self.input@.subrange(from as int, i as int));
        }
        v
    }

    /// The value of the digit span `[from, to)` as a 32-bit integer, or
    /// `None` when the span's value exceeds the type.
    fn digits_value(&self, from: usize, to: usize) -> (r: Option<i32>)
        requires
            from < to <= self.input.len(),
            forall|j: int| from <= j < to ==> is_digit_char(#[trigger] self.input@[j]),
        ensures
            ({
                let value = digits_val(self.input@.subrange(from as int, to as int));
                match r {
                    Some(v) => v == value,
                    None => value > i32::MAX,
                }
            }),
    {
        let ghost s = self.input@;
        let mut acc: u64 = 0;
        let mut i: usize = from;
        let mut over: bool = false;
        proof {
            assert(s.subrange(from as int, from as int) =~= Seq::<char>::empty());
        }
        while i < to
            invariant
                from <= i <= to <= self.input.len(),
                s == self.input@,
                forall|j: int| from <= j < to ==> is_digit_char(#[trigger] s[j]),
                !over ==> acc == digits_val(s.subrange(from as int, i as int)) && acc <= i32::MAX,
                over ==> digits_val(s.subrange(from as int, i as int)) > i32::MAX,
            decreases to - i,
        {
            let ghost prefix = s.subrange(from as int, i as int);
            let ghost next_prefix = s.subrange(from as int, i as int + 1);
            proof {
                assert(next_prefix.drop_last() =~= prefix);
                assert(next_prefix.last() == s[i as int]);
                lemma_digits_val_nonneg(prefix);
                lemma_digits_val_nonneg(next_prefix);
            }
            let d = digit_value_exec(self.input[i]);
            if over {
                proof {
                    assert(digits_val(next_prefix) == digits_val(prefix) * 10 + crate::text::digit_val(s[i as int]));
                    assert(digits_val(prefix) * 10 > i32::MAX * 10) by (nonlinear_arith)
                        requires digits_val(prefix) > i32::MAX;
                }
            } else {
                if acc > (i32::MAX as u64 - d as u64) / 10 && acc * 10 + d as u64 > i32::MAX as u64 {
                    over = true;
                } else {
                    acc = acc * 10 + d as u64;
                }
            }
            i = i + 1;
        }
        proof {
            assert(s.subrange(from as int, to as int) == s.subrange(from as int, i as int));
        }
        if over {
            None
        } else {
            Some(acc as i32)
        }
    }
}

/// The numeric value of every digit sequence is nonnegative.
pub proof fn lemma_digits_val_nonneg(s: Seq<char>)
    ensures
        digits_val(s) >= 0,
    decreases s,
{
    if s.len() > 0 {
        lemma_digits_val_nonneg(s.drop_last());
        assert(digits_val(s.drop_last()) * 10 >= 0) by (nonlinear_arith)
            requires digits_val(s.drop_last()) >= 0;
        assert(crate::text::digit_val(s.last()) >= 0);
    }
}

pub fn is_ident_start_exec(c: char) -> (r: bool)
    ensures
        r == is_ident_start(c),
{
    ('a' <= c && c <= 'z') || ('A' <= c && c <= 'Z') || c == '_'
}

pub fn is_ident_char_exec(c: char) -> (r: bool)
    ensures
        r == is_ident_char(c),
{
    is_ident_start_exec(c) || ('0' <= c && c <= '9')
}

fn is_digit_exec(c: char) -> (r: bool)
    ensures
        r == is_digit_char(c),
{
    '0' <= c && c <= '9'
}

/// The numeric value of one digit character.
fn digit_value_exec(c: char) -> (d: u8)
    requires
        is_digit_char(c),
    ensures
        d == crate::text::digit_val(c),
        d < 10,
{
    if c == '0' { 0 }
    else if c == '1' { 1 }
    else if c == '2' { 2 }
    else if c == '3' { 3 }
    else if c == '4' { 4 }
    else if c == '5' { 5 }
    else if c == '6' { 6 }
    else if c == '7' { 7 }
    else if c == '8' { 8 }
    else { 9 }
}

/// A fresh owned copy of an error message.
fn new_message(text: &str) -> (s: String)
    ensures
        s@ == text@,
{
    String::from_str(text)
}

/// Tokenizes a whole source string: the token list in order, or the first
/// positioned error, exactly as the model `spec_lex` gives from the start
/// state.
pub fn lex(input: &str, configuration: LexerConfiguration) -> (r: Result<Vec<Token>, CompilationError>)
    ensures
        match spec_lex(input@, 0, 0, 0) {
            Ok(ts) => r matches Ok(tokens) && tokens_view(tokens@) == ts,
            Err(e) => r matches Err(err) && err.line == e.line && err.column == e.col
                && err.message@ == lex_err_message(e.kind),
        },
{
    let mut lexer = Lexer::new(configuration, input);
    let mut tokens: Vec<Token> = Vec::new();
    let ghost s = input@;
    proof {
        assert(tokens_view(tokens@) =~= Seq::<TokenV>::empty());
    }
    loop
        invariant
            input@ == s,
            lexer.wf(),
            lexer.input@ == s,
            ({
                let total = spec_lex(s, 0, 0, 0);
                let here = spec_lex(s, lexer.position as nat, lexer.line as nat, lexer.line_start_position as nat);
                match here {
                    Ok(rest) => total matches Ok(ts) && ts == tokens_view(tokens@) + rest,
                    Err(e) => total matches Err(e2) && e2 == e,
                }
            }),
        decreases lexer.input.len() - lexer.position,
    {
        let ghost pos0 = lexer.position as nat;
        let ghost line0 = lexer.line as nat;
        let ghost ls0 = lexer.line_start_position as nat;
        proof {
            lemma_spec_next_progress(s, pos0, line0, ls0);
        }
        let token = match lexer.next_token() {
            Ok(Some(token)) => token,
            Ok(None) => {
                proof {
                    assert(tokens_view(tokens@) + Seq::<TokenV>::empty() =~= tokens_view(tokens@));
                }
                return Ok(tokens);
            },
            Err(e) => {
                return Err(e);
            },
        };
        tokens.push(token);
        proof {
            assert(tokens_view(tokens@) =~= tokens_view(tokens@.drop_last()) + seq![token@]);
            assert(spec_next(s, pos0, line0, ls0) matches NextV::Tok(t, p, l, ls2) ==> ({
                let here = spec_lex(s, p, l, ls2);
                match here {
                    Ok(rest) => tokens_view(tokens@) + rest =~= tokens_view(tokens@.drop_last()) + (seq![t] + rest),
                    Err(e) => true,
                }
            }));
        }
    }
}

} // verus!
