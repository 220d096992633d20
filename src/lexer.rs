use vstd::prelude::*;
use vstd::string::*;
use crate::token::{keyword_kind, Lexeme, Token, TokenType};

verus! {

broadcast use vstd::string::group_string_axioms;

/// Why the source could not be split into tokens. Positions count characters from zero.
#[derive(Debug, Clone, Copy, PartialEq, Eq, Structural)]
pub enum LexError {
    /// A carriage return, newline, backslash or `%` inside a string literal, and where.
    IllegalStringChar(char, usize),
    /// The input ends inside the string literal that opens at this position.
    UnterminatedString(usize),
    /// A decimal point that is not followed by a digit; the position after the point.
    BadNumber(usize),
    /// A `!` that is not followed by `=`.
    LoneBang(usize),
    /// A character that starts no token.
    Unrecognized(char, usize),
}

/// The character at `i`, or the end-of-input sentinel `'\0'` outside the source.
pub open spec fn char_at(s: Seq<char>, i: int) -> char {
    if 0 <= i < s.len() {
        s[i]
    } else {
        '\0'
    }
}

pub open spec fn is_blank(c: char) -> bool {
    c == ' ' || c == '\t' || c == '\r'
}

pub open spec fn is_digit(c: char) -> bool {
    '0' <= c && c <= '9'
}

pub open spec fn is_letter(c: char) -> bool {
    ('A' <= c && c <= 'Z') || ('a' <= c && c <= 'z')
}

pub open spec fn is_alnum(c: char) -> bool {
    is_digit(c) || is_letter(c)
}

/// Characters that may not stand inside a string literal.
pub open spec fn illegal_in_string(c: char) -> bool {
    c == '\r' || c == '\n' || c == '\\' || c == '%'
}

/// The first position at or after `p` that holds no blank.
pub open spec fn skip_blanks(s: Seq<char>, p: int) -> int
    decreases s.len() - p,
{
    if 0 <= p < s.len() && is_blank(s[p]) {
        skip_blanks(s, p + 1)
    } else {
        p
    }
}

/// The first position at or after `p` that holds a newline, or the end.
pub open spec fn line_end(s: Seq<char>, p: int) -> int
    decreases s.len() - p,
{
    if 0 <= p < s.len() && s[p] != '\n' {
        line_end(s, p + 1)
    } else {
        p
    }
}

/// Where scanning goes on after a comment that may start at `p`: past the next newline.
pub open spec fn skip_comment(s: Seq<char>, p: int) -> int {
    if char_at(s, p) == '#' {
        let e = line_end(s, p);
        if e < s.len() {
            e + 1
        } else {
            e
        }
    } else {
        p
    }
}

/// The first position at or after `p` that holds no digit.
pub open spec fn digits_end(s: Seq<char>, p: int) -> int
    decreases s.len() - p,
{
    if 0 <= p < s.len() && is_digit(s[p]) {
        digits_end(s, p + 1)
    } else {
        p
    }
}

/// The first position at or after `p` that holds neither a letter nor a digit.
pub open spec fn alnum_end(s: Seq<char>, p: int) -> int
    decreases s.len() - p,
{
    if 0 <= p < s.len() && is_alnum(s[p]) {
        alnum_end(s, p + 1)
    } else {
        p
    }
}

/// The first position at or after `p` that closes or breaks a string literal:
/// a quote, an illegal character, or the end.
pub open spec fn string_end(s: Seq<char>, p: int) -> int
    decreases s.len() - p,
{
    if 0 <= p < s.len() && s[p] != '"' && s[p] != '\0' && !illegal_in_string(s[p]) {
        string_end(s, p + 1)
    } else {
        p
    }
}

/// Where the next token starts when scanning resumes at `p`.
pub open spec fn token_start(s: Seq<char>, p: int) -> int {
    skip_comment(s, skip_blanks(s, p))
}

pub open spec fn lexeme(kind: TokenType, s: Seq<char>, from: int, to: int) -> Lexeme {
    Lexeme { kind, text: s.subrange(from, to) }
}

/// An operator that is one character, or two when the next one is `=`.
pub open spec fn scan_pair(s: Seq<char>, q: int, one: TokenType, two: TokenType) -> (Lexeme, int) {
    if char_at(s, q + 1) == '=' {
        (lexeme(two, s, q, q + 2), q + 2)
    } else {
        (lexeme(one, s, q, q + 1), q + 1)
    }
}

/// The token that scanning from `p` recognizes, and the position just after it.
/// At the end of input the token is `EOF`, with empty text, and scanning stays put.
pub open spec fn scan(s: Seq<char>, p: int) -> Result<(Lexeme, int), LexError> {
    let q = token_start(s, p);
    let c = char_at(s, q);
    if c == '\0' {
        Ok((Lexeme { kind: TokenType::EOF, text: Seq::empty() }, q))
    } else if c == '+' {
        Ok((lexeme(TokenType::PLUS, s, q, q + 1), q + 1))
    } else if c == '-' {
        Ok((lexeme(TokenType::MINUS, s, q, q + 1), q + 1))
    } else if c == '*' {
        Ok((lexeme(TokenType::ASTERISK, s, q, q + 1), q + 1))
    } else if c == '/' {
        Ok((lexeme(TokenType::SLASH, s, q, q + 1), q + 1))
    } else if c == '\n' {
        Ok((lexeme(TokenType::NEWLINE, s, q, q + 1), q + 1))
    } else if c == '>' {
        Ok(scan_pair(s, q, TokenType::GT, TokenType::GTEQ))
    } else if c == '<' {
        Ok(scan_pair(s, q, TokenType::LT, TokenType::LTEQ))
    } else if c == '=' {
        Ok(scan_pair(s, q, TokenType::EQ, TokenType::EQEQ))
    } else if c == '!' {
        if char_at(s, q + 1) == '=' {
            Ok((lexeme(TokenType::NOTEQ, s, q, q + 2), q + 2))
        } else {
            Err(LexError::LoneBang(q as usize))
        }
    } else if c == '"' {
        let e = string_end(s, q + 1);
        let ce = char_at(s, e);
        if ce == '"' {
            Ok((lexeme(TokenType::STRING, s, q + 1, e), e + 1))
        } else if ce == '\0' {
            Err(LexError::UnterminatedString(q as usize))
        } else {
            Err(LexError::IllegalStringChar(ce, e as usize))
        }
    } else if is_digit(c) {
        let d = digits_end(s, q);
        if char_at(s, d) == '.' {
            if is_digit(char_at(s, d + 1)) {
                let f = digits_end(s, d + 1);
                Ok((lexeme(TokenType::NUMBER, s, q, f), f))
            } else {
                Err(LexError::BadNumber((d + 1) as usize))
            }
        } else {
            Ok((lexeme(TokenType::NUMBER, s, q, d), d))
        }
    } else if is_letter(c) {
        let e = alnum_end(s, q);
        let text = s.subrange(q, e);
        let kind = match keyword_kind(text) {
            Some(k) => k,
            None => TokenType::IDENT,
        };
        Ok((Lexeme { kind, text }, e))
    } else {
        Err(LexError::Unrecognized(c, q as usize))
    }
}

/// `r` is what `scan` gives: the same token, or the same error.
pub open spec fn token_matches(r: Result<Token, LexError>, spec: Result<(Lexeme, int), LexError>) -> bool {
    match (r, spec) {
        (Ok(t), Ok((l, _))) => t@ == l,
        (Err(x), Err(y)) => x == y,
        _ => false,
    }
}

proof fn lemma_runs_bounded(s: Seq<char>, p: int)
    requires
        0 <= p <= s.len(),
    ensures
        p <= skip_blanks(s, p) <= s.len(),
        p <= line_end(s, p) <= s.len(),
        p <= digits_end(s, p) <= s.len(),
        p <= alnum_end(s, p) <= s.len(),
        p <= string_end(s, p) <= s.len(),
    decreases s.len() - p,
{
    if p < s.len() {
        lemma_runs_bounded(s, p + 1);
    }
}

/// Scanning never moves back nor past the end, and every token but `EOF`
/// takes at least one character.
pub proof fn lemma_scan_progress(s: Seq<char>, p: int)
    requires
        0 <= p <= s.len(),
    ensures
        match scan(s, p) {
            Ok((t, e)) => p <= e <= s.len() && (t.kind != TokenType::EOF ==> p < e),
            Err(_) => true,
        },
{
    lemma_runs_bounded(s, p);
    let b = skip_blanks(s, p);
    lemma_runs_bounded(s, b);
    let q = token_start(s, p);
    if q < s.len() {
        lemma_runs_bounded(s, q);
        lemma_runs_bounded(s, q + 1);
        let d = digits_end(s, q);
        if d + 1 <= s.len() {
            lemma_runs_bounded(s, d + 1);
        }
    }
}

pub fn is_blank_char(c: char) -> (r: bool)
    ensures
        r == is_blank(c),
{
    c == ' ' || c == '\t' || c == '\r'
}

pub fn is_digit_char(c: char) -> (r: bool)
    ensures
        r == is_digit(c),
{
    '0' <= c && c <= '9'
}

pub fn is_alnum_char(c: char) -> (r: bool)
    ensures
        r == is_alnum(c),
{
    ('0' <= c && c <= '9') || ('A' <= c && c <= 'Z') || ('a' <= c && c <= 'z')
}

/// Turns source text into tokens, one per request.
pub struct Lexer {
    pub source: String,
    /// The characters of `source`, for access by position.
    pub chars: Vec<char>,
    /// The position of the current character; the length of `chars` at the end.
    pub cur_pos: usize,
}

impl Lexer {
    pub open spec fn src(&self) -> Seq<char> {
        self.chars@
    }

    pub open spec fn wf(&self) -> bool {
        &&& self.chars@ == self.source@
        &&& self.cur_pos <= self.chars.len()
    }

    /// The same source, scanned from another position.
    pub open spec fn same_source(&self, other: &Lexer) -> bool {
        &&& self.source == other.source
        &&& self.chars@ == other.chars@
    }

    /// A lexer at the start of `source`.
    pub fn new(source: String) -> (r: Lexer)
        ensures
            r.wf(),
            r.source == source,
            r.cur_pos == 0,
    {
        let mut chars: Vec<char> = Vec::new();
        for c in it: source.as_str().chars()
            invariant
                chars@ == it.seq().take(it.index() as int),
        {
            chars.push(c);
        }
        assert(chars@ =~= source@);
        Lexer { source, chars, cur_pos: 0 }
    }

    /// The current character, or `'\0'` at the end of input.
    pub fn cur_char(&self) -> (r: char)
        requires
            self.wf(),
        ensures
            r == char_at(self.src(), self.cur_pos as int),
    {
        if self.cur_pos < self.chars.len() {
            self.chars[self.cur_pos]
        } else {
            '\0'
        }
    }

    /// Moves to the next character; stays at the end of input.
    pub fn next_char(&mut self)
        requires
            old(self).wf(),
        ensures
            final(self).wf(),
            final(self).same_source(old(self)),
            final(self).cur_pos == if old(self).cur_pos < old(self).chars.len() {
                old(self).cur_pos + 1
            } else {
                old(self).cur_pos as int
            },
    {
        if self.cur_pos < self.chars.len() {
            self.cur_pos = self.cur_pos + 1;
        }
    }

    /// The character after the current one, or `'\0'` past the end.
    fn peek(&self) -> (r: char)
        requires
            self.wf(),
        ensures
            r == char_at(self.src(), self.cur_pos + 1),
    {
        if self.chars.len() - self.cur_pos > 1 {
            self.chars[self.cur_pos + 1]
        } else {
            '\0'
        }
    }

    /// Skips spaces, tabs and carriage returns; a newline ends a statement and stays.
    fn skip_whitespace(&mut self)
        requires
            old(self).wf(),
        ensures
            final(self).wf(),
            final(self).same_source(old(self)),
            final(self).cur_pos == skip_blanks(old(self).src(), old(self).cur_pos as int),
    {
        let ghost s = self.src();
        let ghost start = self.cur_pos as int;
        while self.cur_pos < self.chars.len() && is_blank_char(self.chars[self.cur_pos])
            invariant
                self.wf(),
                self.same_source(old(self)),
                s == self.src(),
                skip_blanks(s, self.cur_pos as int) == skip_blanks(s, start),
            decreases self.chars.len() - self.cur_pos,
        {
            self.cur_pos = self.cur_pos + 1;
        }
    }

    /// Skips a comment, from `#` to and past the next newline.
    fn skip_comment(&mut self)
        requires
            old(self).wf(),
        ensures
            final(self).wf(),
            final(self).same_source(old(self)),
            final(self).cur_pos == skip_comment(old(self).src(), old(self).cur_pos as int),
    {
        let ghost s = self.src();
        let ghost start = self.cur_pos as int;
        if self.cur_char() == '#' {
            while self.cur_pos < self.chars.len() && self.chars[self.cur_pos] != '\n'
                invariant
                    self.wf(),
                    self.same_source(old(self)),
                    s == self.src(),
                    line_end(s, self.cur_pos as int) == line_end(s, start),
                decreases self.chars.len() - self.cur_pos,
            {
                self.cur_pos = self.cur_pos + 1;
            }
            self.next_char();
        }
    }

    /// The characters from `from` up to `to`, as text.
    fn text(&self, from: usize, to: usize) -> (r: String)
        requires
            self.wf(),
            from <= to <= self.chars.len(),
        ensures
            r@ == self.src().subrange(from as int, to as int),
    {
        String::from_str(self.source.as_str().substring_char(from, to))
    }

    /// The token of `kind` that spans `from` up to `to`; scanning resumes at `to`.
    fn finish(&mut self, kind: TokenType, from: usize, to: usize) -> (r: Token)
        requires
            old(self).wf(),
            from <= to <= old(self).chars.len(),
        ensures
            final(self).wf(),
            final(self).same_source(old(self)),
            final(self).cur_pos == to,
            r@ == lexeme(kind, old(self).src(), from as int, to as int),
    {
        let text = self.text(from, to);
        self.cur_pos = to;
        Token { text, kind }
    }

    /// An operator of one character, or of two when `=` follows.
    fn pair(&mut self, one: TokenType, two: TokenType) -> (r: Token)
        requires
            old(self).wf(),
            old(self).cur_pos < old(self).chars.len(),
        ensures
            final(self).wf(),
            final(self).same_source(old(self)),
            r@ == scan_pair(old(self).src(), old(self).cur_pos as int, one, two).0,
            final(self).cur_pos == scan_pair(old(self).src(), old(self).cur_pos as int, one, two).1,
    {
        let q = self.cur_pos;
        if self.peek() == '=' {
            self.finish(two, q, q + 2)
        } else {
            self.finish(one, q, q + 1)
        }
    }

    /// Recognizes the next token and moves past it. At the end of input the
    /// token is `EOF` and the position stays.
    pub fn get_token(&mut self) -> (r: Result<Token, LexError>)
        requires
            old(self).wf(),
        ensures
            final(self).wf(),
            final(self).same_source(old(self)),
            token_matches(r, scan(old(self).src(), old(self).cur_pos as int)),
            match scan(old(self).src(), old(self).cur_pos as int) {
                Ok((_, e)) => final(self).cur_pos == e,
                Err(_) => true,
            },
    {
        let ghost s = self.src();
        self.skip_whitespace();
        self.skip_comment();
        let q = self.cur_pos;
        let n = self.chars.len();
        let c = self.cur_char();
        if c == '\0' {
            Ok(Token { text: String::new(), kind: TokenType::EOF })
        } else if c == '+' {
            Ok(self.finish(TokenType::PLUS, q, q + 1))
        } else if c == '-' {
            Ok(self.finish(TokenType::MINUS, q, q + 1))
        } else if c == '*' {
            Ok(self.finish(TokenType::ASTERISK, q, q + 1))
        } else if c == '/' {
            Ok(self.finish(TokenType::SLASH, q, q + 1))
        } else if c == '\n' {
            Ok(self.finish(TokenType::NEWLINE, q, q + 1))
        } else if c == '>' {
            Ok(self.pair(TokenType::GT, TokenType::GTEQ))
        } else if c == '<' {
            Ok(self.pair(TokenType::LT, TokenType::LTEQ))
        } else if c == '=' {
            Ok(self.pair(TokenType::EQ, TokenType::EQEQ))
        } else if c == '!' {
            if self.peek() == '=' {
                Ok(self.finish(TokenType::NOTEQ, q, q + 2))
            } else {
                Err(LexError::LoneBang(q))
            }
        } else if c == '"' {
            let mut i: usize = q + 1;
            while i < n && self.chars[i] != '"' && self.chars[i] != '\0' && !(self.chars[i] == '\r'
                || self.chars[i] == '\n' || self.chars[i] == '\\' || self.chars[i] == '%')
                invariant
                    self.wf(),
                    s == self.src(),
                    n == self.chars.len(),
                    q < i <= n,
                    string_end(s, i as int) == string_end(s, q + 1),
                decreases n - i,
            {
                i = i + 1;
            }
            if i < n && self.chars[i] == '"' {
                let t = self.finish(TokenType::STRING, q + 1, i);
                self.cur_pos = i + 1;
                Ok(t)
            } else if i == n || self.chars[i] == '\0' {
                Err(LexError::UnterminatedString(q))
            } else {
                Err(LexError::IllegalStringChar(self.chars[i], i))
            }
        } else if is_digit_char(c) {
            let mut d: usize = q;
            while d < n && is_digit_char(self.chars[d])
                invariant
                    self.wf(),
                    s == self.src(),
                    n == self.chars.len(),
                    q <= d <= n,
                    digits_end(s, d as int) == digits_end(s, q as int),
                decreases n - d,
            {
                d = d + 1;
            }
            if d < n && self.chars[d] == '.' {
                if d + 1 < n && is_digit_char(self.chars[d + 1]) {
                    let mut f: usize = d + 1;
                    while f < n && is_digit_char(self.chars[f])
                        invariant
                            self.wf(),
                            s == self.src(),
                            n == self.chars.len(),
                            d < f <= n,
                            digits_end(s, f as int) == digits_end(s, d + 1),
                        decreases n - f,
                    {
                        f = f + 1;
                    }
                    Ok(self.finish(TokenType::NUMBER, q, f))
                } else {
                    Err(LexError::BadNumber(d + 1))
                }
            } else {
                Ok(self.finish(TokenType::NUMBER, q, d))
            }
        } else if ('A' <= c && c <= 'Z') || ('a' <= c && c <= 'z') {
            let mut e: usize = q;
            while e < n && is_alnum_char(self.chars[e])
                invariant
                    self.wf(),
                    s == self.src(),
                    n == self.chars.len(),
                    q <= e <= n,
                    alnum_end(s, e as int) == alnum_end(s, q as int),
                decreases n - e,
            {
                e = e + 1;
            }
            let text = self.text(q, e);
            self.cur_pos = e;
            let kind = match Token::check_if_keyword(text.as_str()) {
                Some(k) => k,
                None => TokenType::IDENT,
            };
            Ok(Token { text, kind })
        } else {
            Err(LexError::Unrecognized(c, q))
        }
    }
}

} // verus!
