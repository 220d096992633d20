use vstd::prelude::*;
use vstd::string::*;

verus! {

/// The closed set of lexical categories.
#[allow(non_camel_case_types, clippy::upper_case_acronyms)]
#[derive(Debug, Clone, Copy, PartialEq, Eq, Structural)]
pub enum TokenType {
    EOF,
    NEWLINE,
    NUMBER,
    IDENT,
    STRING,
    // Keywords
    LABEL,
    GOTO,
    PRINT,
    INPUT,
    LET,
    IF,
    THEN,
    ENDIF,
    WHILE,
    REPEAT,
    ENDWHILE,
    // Operators
    EQ,
    PLUS,
    MINUS,
    ASTERISK,
    SLASH,
    EQEQ,
    NOTEQ,
    LT,
    LTEQ,
    GT,
    GTEQ,
}

/// A token: its kind and the text it was made from.
#[derive(Debug, Clone)]
pub struct Token {
    pub text: String,
    pub kind: TokenType,
}

/// The mathematical value of a token.
pub struct Lexeme {
    pub kind: TokenType,
    pub text: Seq<char>,
}

impl View for Token {
    type V = Lexeme;

    open spec fn view(&self) -> Lexeme {
        Lexeme { kind: self.kind, text: self.text@ }
    }
}

/// The keyword spelled by `s`, if any (case-sensitive).
pub open spec fn keyword_kind(s: Seq<char>) -> Option<TokenType> {
    if s == "LABEL"@ {
        Some(TokenType::LABEL)
    } else if s == "GOTO"@ {
        Some(TokenType::GOTO)
    } else if s == "PRINT"@ {
        Some(TokenType::PRINT)
    } else if s == "INPUT"@ {
        Some(TokenType::INPUT)
    } else if s == "LET"@ {
        Some(TokenType::LET)
    } else if s == "IF"@ {
        Some(TokenType::IF)
    } else if s == "THEN"@ {
        Some(TokenType::THEN)
    } else if s == "ENDIF"@ {
        Some(TokenType::ENDIF)
    } else if s == "WHILE"@ {
        Some(TokenType::WHILE)
    } else if s == "REPEAT"@ {
        Some(TokenType::REPEAT)
    } else if s == "ENDWHILE"@ {
        Some(TokenType::ENDWHILE)
    } else {
        None
    }
}

/// Whether `a` and `b` hold the same characters.
pub fn same_text(a: &str, b: &str) -> (r: bool)
    ensures
        r == (a@ == b@),
{
    let n = a.unicode_len();
    if n != b.unicode_len() {
        return false;
    }
    let mut i: usize = 0;
    while i < n
        invariant
            n == a@.len(),
            n == b@.len(),
            0 <= i <= n,
            a@.subrange(0, i as int) == b@.subrange(0, i as int),
        decreases n - i,
    {
        if a.get_char(i) != b.get_char(i) {
            return false;
        }
        assert(a@.subrange(0, i + 1) =~= a@.subrange(0, i as int).push(a@[i as int]));
        assert(b@.subrange(0, i + 1) =~= b@.subrange(0, i as int).push(b@[i as int]));
        i = i + 1;
    }
    assert(a@ =~= a@.subrange(0, n as int));
    assert(b@ =~= b@.subrange(0, n as int));
    true
}

impl Token {
    /// The keyword kind of `input`, or `None` when it is an ordinary identifier.
    pub fn check_if_keyword(input: &str) -> (r: Option<TokenType>)
        ensures
            r == keyword_kind(input@),
    {
        if same_text(input, "LABEL") {
            Some(TokenType::LABEL)
        } else if same_text(input, "GOTO") {
            Some(TokenType::GOTO)
        } else if same_text(input, "PRINT") {
            Some(TokenType::PRINT)
        } else if same_text(input, "INPUT") {
            Some(TokenType::INPUT)
        } else if same_text(input, "LET") {
            Some(TokenType::LET)
        } else if same_text(input, "IF") {
            Some(TokenType::IF)
        } else if same_text(input, "THEN") {
            Some(TokenType::THEN)
        } else if same_text(input, "ENDIF") {
            Some(TokenType::ENDIF)
        } else if same_text(input, "WHILE") {
            Some(TokenType::WHILE)
        } else if same_text(input, "REPEAT") {
            Some(TokenType::REPEAT)
        } else if same_text(input, "ENDWHILE") {
            Some(TokenType::ENDWHILE)
        } else {
            None
        }
    }
}

} // verus!
