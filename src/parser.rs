use vstd::prelude::*;
use crate::emitter::Emitter;
use crate::grammar::{
    advance, block, sign, starts_statement, comparison, comparison_rest, conditional, declare, emit, emit_line, expect, expression, expression_rest, first_undeclared, goto_rest, in_range, initial, input_rest, is_comparison, label_rest, lemma_advance, lemma_comparison, lemma_expression, lemma_skip_newlines, lemma_statement_progress, lemma_term, lemma_unary, let_rest, measure, nl, primary, print_rest, program, skip_newlines, statement, term, term_rest, translation, unary, ErrorModel, PState, Step,
};
use crate::lexer::{LexError, Lexer};
use crate::token::{Token, TokenType};

verus! {

/// Why a translation failed.
#[derive(Debug, Clone)]
pub enum TranslateError {
    /// The source could not be split into tokens.
    Lex(LexError),
    /// A token of the first kind was needed; one of the second kind stood there.
    Expected(TokenType, TokenType),
    /// A condition without a comparison operator; the text of the token found instead.
    NoComparison(String),
    /// A token that starts no statement.
    BadStatement(String, TokenType),
    /// A token that starts no operand.
    BadPrimary(String),
    /// A variable used before any `LET` or `INPUT` gave it a value.
    Unbound(String),
    /// A label declared a second time.
    DuplicateLabel(String),
    /// A `GOTO` whose label is declared nowhere.
    UndeclaredLabel(String),
}

impl View for TranslateError {
    type V = ErrorModel;

    open spec fn view(&self) -> ErrorModel {
        match self {
            TranslateError::Lex(x) => ErrorModel::Lex(*x),
            TranslateError::Expected(a, b) => ErrorModel::Expected(*a, *b),
            TranslateError::NoComparison(t) => ErrorModel::NoComparison(t@),
            TranslateError::BadStatement(t, k) => ErrorModel::BadStatement(t@, *k),
            TranslateError::BadPrimary(t) => ErrorModel::BadPrimary(t@),
            TranslateError::Unbound(t) => ErrorModel::Unbound(t@),
            TranslateError::DuplicateLabel(t) => ErrorModel::DuplicateLabel(t@),
            TranslateError::UndeclaredLabel(t) => ErrorModel::UndeclaredLabel(t@),
        }
    }
}

/// The texts of a list of names.
pub open spec fn names(v: Seq<String>) -> Seq<Seq<char>> {
    v.map_values(|x: String| x@)
}

/// `r` is what the step `expected` gives: success in state `after`, or the same error.
pub open spec fn outcome(r: Result<(), TranslateError>, after: PState, expected: Step) -> bool {
    match expected {
        Ok(s) => r is Ok && after == s,
        Err(e) => r is Err && r->Err_0@ == e,
    }
}

/// The output streams and the tables are the same in `a` and `b`.
pub open spec fn same_output(a: PState, b: PState) -> bool {
    &&& a.header == b.header
    &&& a.body == b.body
    &&& a.symbols == b.symbols
    &&& a.declared == b.declared
    &&& a.gotoed == b.gotoed
}

/// `a`, `b` and `c` one after the other.
fn concat3(a: &str, b: &str, c: &str) -> (r: String)
    ensures
        r@ == a@ + b@ + c@,
{
    let mut r = String::from_str(a);
    r.append(b);
    r.append(c);
    r
}

/// `a` followed by `b`.
fn concat2(a: &str, b: &str) -> (r: String)
    ensures
        r@ == a@ + b@,
{
    let mut r = String::from_str(a);
    r.append(b);
    r
}

/// Whether `name` is among `v`.
fn contains_name(v: &Vec<String>, name: &String) -> (r: bool)
    ensures
        r == names(v@).contains(name@),
{
    let mut i: usize = 0;
    while i < v.len()
        invariant
            0 <= i <= v.len(),
            forall|j: int| 0 <= j < i ==> v@[j]@ != name@,
        decreases v.len() - i,
    {
        if v[i] == *name {
            assert(names(v@)[i as int] == name@);
            return true;
        }
        i = i + 1;
    }
    assert forall|j: int| 0 <= j < names(v@).len() implies names(v@)[j] != name@ by {
        assert(names(v@)[j] == v@[j]@);
    }
    false
}

/// Appends a copy of `name` to `v`.
fn push_name(v: &mut Vec<String>, name: &String)
    ensures
        names(final(v)@) == names(old(v)@).push(name@),
{
    v.push(name.clone());
    assert(names(v@) =~= names(old(v)@).push(name@));
}

/// Drives the lexer a token at a time and writes the C code of each production
/// as it is recognized.
pub struct Parser {
    pub lexer: Lexer,
    pub emitter: Emitter,
    pub cur_token: Token,
    pub peek_token: Token,
    /// The declared variables, in the order of their first assignment.
    pub symbols: Vec<String>,
    pub labels_declared: Vec<String>,
    pub labels_gotoed: Vec<String>,
}

impl Parser {
    pub open spec fn wf(&self) -> bool {
        self.lexer.wf()
    }

    pub open spec fn src(&self) -> Seq<char> {
        self.lexer.src()
    }

    /// The state of the translation.
    pub open spec fn state(&self) -> PState {
        PState {
            pos: self.lexer.cur_pos as int,
            cur: self.cur_token@,
            peek: self.peek_token@,
            symbols: names(self.symbols@),
            declared: names(self.labels_declared@),
            gotoed: names(self.labels_gotoed@),
            header: self.emitter.header@,
            body: self.emitter.code@,
        }
    }

    /// Still well formed, over the same source.
    pub open spec fn keeps(&self, old: &Parser) -> bool {
        &&& self.wf()
        &&& self.lexer.same_source(&old.lexer)
    }

    /// A parser at the start of `source`, with nothing read nor written yet.
    pub fn new(source: String, output_filename: String) -> (r: Parser)
        ensures
            r.wf(),
            r.src() == source@,
            r.state() == initial(),
    {
        let r = Parser {
            lexer: Lexer::new(source),
            emitter: Emitter::new(output_filename),
            cur_token: Token { text: String::new(), kind: TokenType::EOF },
            peek_token: Token { text: String::new(), kind: TokenType::EOF },
            symbols: Vec::new(),
            labels_declared: Vec::new(),
            labels_gotoed: Vec::new(),
        };
        assert(r.state().symbols =~= Seq::<Seq<char>>::empty());
        assert(r.state().declared =~= Seq::<Seq<char>>::empty());
        assert(r.state().gotoed =~= Seq::<Seq<char>>::empty());
        r
    }

    /// Whether the current token is of kind `token_type`.
    pub fn check_token(&self, token_type: TokenType) -> (r: bool)
        ensures
            r == (self.cur_token.kind == token_type),
    {
        token_type == self.cur_token.kind
    }

    /// Whether the lookahead token is of kind `token_type`.
    pub fn check_peek(&self, token_type: TokenType) -> (r: bool)
        ensures
            r == (self.peek_token.kind == token_type),
    {
        token_type == self.peek_token.kind
    }

    /// Moves on by one token: the lookahead becomes current and a new one is read.
    fn next_token(&mut self) -> (r: Result<(), TranslateError>)
        requires
            old(self).wf(),
        ensures
            final(self).keeps(old(self)),
            outcome(r, final(self).state(), advance(old(self).src(), old(self).state())),
            same_output(final(self).state(), old(self).state()),
    {
        match self.lexer.get_token() {
            Ok(t) => {
                let mut t = t;
                std::mem::swap(&mut self.peek_token, &mut t);
                self.cur_token = t;
                Ok(())
            },
            Err(e) => Err(TranslateError::Lex(e)),
        }
    }

    /// Takes the current token, which must be of kind `token_type`.
    fn match_token(&mut self, token_type: TokenType) -> (r: Result<(), TranslateError>)
        requires
            old(self).wf(),
        ensures
            final(self).keeps(old(self)),
            outcome(r, final(self).state(), expect(old(self).src(), old(self).state(), token_type)),
            same_output(final(self).state(), old(self).state()),
            old(self).cur_token.kind != token_type ==> final(self).state() == old(self).state(),
    {
        if !self.check_token(token_type) {
            return Err(TranslateError::Expected(token_type, self.cur_token.kind));
        }
        self.next_token()
    }

    /// Takes any number of newline tokens.
    fn skip_newlines(&mut self) -> (r: Result<(), TranslateError>)
        requires
            old(self).wf(),
            in_range(old(self).src(), old(self).state()),
        ensures
            final(self).keeps(old(self)),
            outcome(r, final(self).state(), skip_newlines(old(self).src(), old(self).state())),
    {
        let ghost src = self.src();
        while self.check_token(TokenType::NEWLINE)
            invariant
                self.keeps(old(self)),
                src == self.src(),
                in_range(src, self.state()),
                skip_newlines(src, self.state()) == skip_newlines(src, old(self).state()),
            decreases measure(src, self.state()),
        {
            proof {
                lemma_advance(src, self.state());
            }
            let r = self.next_token();
            if r.is_err() {
                return r;
            }
        }
        Ok(())
    }

    /// The end of a statement: one or more newline tokens.
    fn nl(&mut self) -> (r: Result<(), TranslateError>)
        requires
            old(self).wf(),
            in_range(old(self).src(), old(self).state()),
        ensures
            final(self).keeps(old(self)),
            outcome(r, final(self).state(), nl(old(self).src(), old(self).state())),
    {
        if !self.check_token(TokenType::NEWLINE) {
            return Err(TranslateError::Expected(TokenType::NEWLINE, self.cur_token.kind));
        }
        self.skip_newlines()
    }

    /// Copies the current token, an operator, to the body and takes it.
    fn operator(&mut self) -> (r: Result<(), TranslateError>)
        requires
            old(self).wf(),
        ensures
            final(self).keeps(old(self)),
            outcome(r, final(self).state(), advance(old(self).src(), emit(old(self).state(), old(self).cur_token.text@))),
            r is Err ==> same_output(final(self).state(), old(self).state()),
    {
        let text = self.cur_token.text.clone();
        let r = self.next_token();
        if r.is_err() {
            return r;
        }
        self.emitter.emit(text);
        Ok(())
    }

    /// Copies the current token, a unary sign, to the body after a space and takes it.
    fn sign(&mut self) -> (r: Result<(), TranslateError>)
        requires
            old(self).wf(),
        ensures
            final(self).keeps(old(self)),
            outcome(r, final(self).state(), sign(old(self).src(), old(self).state())),
            r is Err ==> same_output(final(self).state(), old(self).state()),
    {
        let text = concat2(" ", self.cur_token.text.as_str());
        let r = self.next_token();
        if r.is_err() {
            return r;
        }
        self.emitter.emit(text);
        Ok(())
    }

    /// `primary := NUMBER | IDENT`; a variable must have been assigned before.
    fn primary(&mut self) -> (r: Result<(), TranslateError>)
        requires
            old(self).wf(),
        ensures
            final(self).keeps(old(self)),
            outcome(r, final(self).state(), primary(old(self).src(), old(self).state())),
            r is Err ==> same_output(final(self).state(), old(self).state()),
    {
        if self.check_token(TokenType::NUMBER) {
            self.operator()
        } else if self.check_token(TokenType::IDENT) {
            if !contains_name(&self.symbols, &self.cur_token.text) {
                return Err(TranslateError::Unbound(self.cur_token.text.clone()));
            }
            self.operator()
        } else {
            Err(TranslateError::BadPrimary(self.cur_token.text.clone()))
        }
    }

    /// `unary := [ "+" | "-" ] primary`
    fn unary(&mut self) -> (r: Result<(), TranslateError>)
        requires
            old(self).wf(),
        ensures
            final(self).keeps(old(self)),
            outcome(r, final(self).state(), unary(old(self).src(), old(self).state())),
    {
        if self.check_token(TokenType::PLUS) || self.check_token(TokenType::MINUS) {
            let r = self.sign();
            if r.is_err() {
                return r;
            }
        }
        self.primary()
    }

    /// `term := unary { ("*" | "/") unary }`
    fn term(&mut self) -> (r: Result<(), TranslateError>)
        requires
            old(self).wf(),
            in_range(old(self).src(), old(self).state()),
        ensures
            final(self).keeps(old(self)),
            outcome(r, final(self).state(), term(old(self).src(), old(self).state())),
    {
        let ghost src = self.src();
        proof {
            lemma_unary(src, self.state());
        }
        let r = self.unary();
        if r.is_err() {
            return r;
        }
        while self.check_token(TokenType::ASTERISK) || self.check_token(TokenType::SLASH)
            invariant
                self.keeps(old(self)),
                src == self.src(),
                in_range(src, self.state()),
                term_rest(src, self.state()) == term(src, old(self).state()),
            decreases measure(src, self.state()),
        {
            let ghost before = self.state();
            proof {
                lemma_advance(src, emit(before, before.cur.text));
            }
            let r = self.operator();
            if r.is_err() {
                return r;
            }
            proof {
                lemma_unary(src, self.state());
            }
            let r = self.unary();
            if r.is_err() {
                return r;
            }
        }
        Ok(())
    }

    /// `expression := term { ("+" | "-") term }`
    fn expression(&mut self) -> (r: Result<(), TranslateError>)
        requires
            old(self).wf(),
            in_range(old(self).src(), old(self).state()),
        ensures
            final(self).keeps(old(self)),
            outcome(r, final(self).state(), expression(old(self).src(), old(self).state())),
    {
        let ghost src = self.src();
        proof {
            lemma_term(src, self.state());
        }
        let r = self.term();
        if r.is_err() {
            return r;
        }
        while self.check_token(TokenType::PLUS) || self.check_token(TokenType::MINUS)
            invariant
                self.keeps(old(self)),
                src == self.src(),
                in_range(src, self.state()),
                expression_rest(src, self.state()) == expression(src, old(self).state()),
            decreases measure(src, self.state()),
        {
            let ghost before = self.state();
            proof {
                lemma_advance(src, emit(before, before.cur.text));
            }
            let r = self.operator();
            if r.is_err() {
                return r;
            }
            proof {
                lemma_term(src, self.state());
            }
            let r = self.term();
            if r.is_err() {
                return r;
            }
        }
        Ok(())
    }

    /// Whether the current token compares two values.
    fn is_comparison_operator(&self) -> (r: bool)
        ensures
            r == is_comparison(self.cur_token.kind),
    {
        self.check_token(TokenType::GT) || self.check_token(TokenType::GTEQ) || self.check_token(
            TokenType::LT,
        ) || self.check_token(TokenType::LTEQ) || self.check_token(TokenType::EQEQ)
            || self.check_token(TokenType::NOTEQ)
    }

    /// `comparison := expression comparison_op expression { comparison_op expression }`
    fn comparison(&mut self) -> (r: Result<(), TranslateError>)
        requires
            old(self).wf(),
            in_range(old(self).src(), old(self).state()),
        ensures
            final(self).keeps(old(self)),
            outcome(r, final(self).state(), comparison(old(self).src(), old(self).state())),
    {
        let ghost src = self.src();
        proof {
            lemma_expression(src, self.state());
        }
        let r = self.expression();
        if r.is_err() {
            return r;
        }
        if !self.is_comparison_operator() {
            return Err(TranslateError::NoComparison(self.cur_token.text.clone()));
        }
        while self.is_comparison_operator()
            invariant
                self.keeps(old(self)),
                src == self.src(),
                in_range(src, self.state()),
                comparison_rest(src, self.state()) == comparison(src, old(self).state()),
            decreases measure(src, self.state()),
        {
            let ghost before = self.state();
            proof {
                lemma_advance(src, emit(before, before.cur.text));
            }
            let r = self.operator();
            if r.is_err() {
                return r;
            }
            proof {
                lemma_expression(src, self.state());
            }
            let r = self.expression();
            if r.is_err() {
                return r;
            }
        }
        Ok(())
    }

    /// Declares `name` on its first use: one declaration in the header.
    fn declare(&mut self, name: &String)
        requires
            old(self).wf(),
        ensures
            final(self).keeps(old(self)),
            final(self).state() == declare(old(self).state(), name@),
            final(self).cur_token == old(self).cur_token,
    {
        if !contains_name(&self.symbols, name) {
            push_name(&mut self.symbols, name);
            self.emitter.header_line(concat3("float ", name.as_str(), ";"));
        }
    }

    /// The rest of `PRINT ( STRING | expression )`.
    fn print_rest(&mut self) -> (r: Result<(), TranslateError>)
        requires
            old(self).wf(),
            in_range(old(self).src(), old(self).state()),
        ensures
            final(self).keeps(old(self)),
            outcome(r, final(self).state(), print_rest(old(self).src(), old(self).state())),
    {
        if self.check_token(TokenType::STRING) {
            self.emitter.emit_line(concat3("printf(\"", self.cur_token.text.as_str(), "\");"));
            self.next_token()
        } else {
            self.emitter.emit(String::from_str("printf(\"%.2f\\n\", (float)("));
            let r = self.expression();
            if r.is_err() {
                return r;
            }
            self.emitter.emit_line(String::from_str("));"));
            Ok(())
        }
    }

    /// The rest of `LABEL IDENT`: a label may be declared once.
    fn label_rest(&mut self) -> (r: Result<(), TranslateError>)
        requires
            old(self).wf(),
        ensures
            final(self).keeps(old(self)),
            outcome(r, final(self).state(), label_rest(old(self).src(), old(self).state())),
    {
        if !self.check_token(TokenType::IDENT) {
            return Err(TranslateError::Expected(TokenType::IDENT, self.cur_token.kind));
        }
        if contains_name(&self.labels_declared, &self.cur_token.text) {
            return Err(TranslateError::DuplicateLabel(self.cur_token.text.clone()));
        }
        push_name(&mut self.labels_declared, &self.cur_token.text);
        self.emitter.emit_line(concat2(self.cur_token.text.as_str(), ":"));
        self.next_token()
    }

    /// The rest of `GOTO IDENT`; the label is checked at the end of the program.
    fn goto_rest(&mut self) -> (r: Result<(), TranslateError>)
        requires
            old(self).wf(),
        ensures
            final(self).keeps(old(self)),
            outcome(r, final(self).state(), goto_rest(old(self).src(), old(self).state())),
    {
        if !self.check_token(TokenType::IDENT) {
            return Err(TranslateError::Expected(TokenType::IDENT, self.cur_token.kind));
        }
        push_name(&mut self.labels_gotoed, &self.cur_token.text);
        self.emitter.emit_line(concat3("goto ", self.cur_token.text.as_str(), ";"));
        self.next_token()
    }

    /// The rest of `LET IDENT "=" expression`.
    fn let_rest(&mut self) -> (r: Result<(), TranslateError>)
        requires
            old(self).wf(),
            in_range(old(self).src(), old(self).state()),
        ensures
            final(self).keeps(old(self)),
            outcome(r, final(self).state(), let_rest(old(self).src(), old(self).state())),
    {
        let ghost src = self.src();
        if !self.check_token(TokenType::IDENT) {
            return Err(TranslateError::Expected(TokenType::IDENT, self.cur_token.kind));
        }
        let name = self.cur_token.text.clone();
        self.declare(&name);
        self.emitter.emit(concat2(name.as_str(), " = "));
        proof {
            lemma_advance(src, self.state());
        }
        let r = self.next_token();
        if r.is_err() {
            return r;
        }
        proof {
            lemma_advance(src, self.state());
        }
        let r = self.match_token(TokenType::EQ);
        if r.is_err() {
            return r;
        }
        let r = self.expression();
        if r.is_err() {
            return r;
        }
        self.emitter.emit_line(String::from_str(";"));
        Ok(())
    }

    /// The rest of `INPUT IDENT`: reads a number, or sets zero and drops the line.
    fn input_rest(&mut self) -> (r: Result<(), TranslateError>)
        requires
            old(self).wf(),
        ensures
            final(self).keeps(old(self)),
            outcome(r, final(self).state(), input_rest(old(self).src(), old(self).state())),
    {
        if !self.check_token(TokenType::IDENT) {
            return Err(TranslateError::Expected(TokenType::IDENT, self.cur_token.kind));
        }
        let name = self.cur_token.text.clone();
        self.declare(&name);
        self.emitter.emit_line(concat3("if(0 == scanf(\"%f\", &", name.as_str(), ")) {"));
        self.emitter.emit_line(concat2(name.as_str(), " = 0;"));
        self.emitter.emit(String::from_str("scanf(\"%"));
        self.emitter.emit_line(String::from_str("*s\");"));
        self.emitter.emit_line(String::from_str("}"));
        self.next_token()
    }

    /// A statement, recognized from its first token and followed by `nl`.
    fn statement(&mut self) -> (r: Result<(), TranslateError>)
        requires
            old(self).wf(),
            in_range(old(self).src(), old(self).state()),
        ensures
            final(self).keeps(old(self)),
            outcome(r, final(self).state(), statement(old(self).src(), old(self).state())),
            !starts_statement(old(self).cur_token.kind) ==> final(self).state() == old(self).state(),
        decreases measure(old(self).src(), old(self).state()), 0int,
    {
        let ghost src = self.src();
        let kind = self.cur_token.kind;
        if !(kind == TokenType::PRINT || kind == TokenType::IF || kind == TokenType::WHILE || kind
            == TokenType::LABEL || kind == TokenType::GOTO || kind == TokenType::LET || kind
            == TokenType::INPUT) {
            return Err(TranslateError::BadStatement(self.cur_token.text.clone(), kind));
        }
        proof {
            lemma_advance(src, self.state());
        }
        let r = self.next_token();
        if r.is_err() {
            return r;
        }
        let ghost s1 = self.state();
        let r = if kind == TokenType::PRINT {
            self.print_rest()
        } else if kind == TokenType::IF {
            self.conditional("if(", TokenType::THEN, TokenType::ENDIF)
        } else if kind == TokenType::WHILE {
            self.conditional("while(", TokenType::REPEAT, TokenType::ENDWHILE)
        } else if kind == TokenType::LABEL {
            self.label_rest()
        } else if kind == TokenType::GOTO {
            self.goto_rest()
        } else if kind == TokenType::LET {
            self.let_rest()
        } else {
            self.input_rest()
        };
        if r.is_err() {
            return r;
        }
        proof {
            lemma_statement_progress(src, old(self).state());
        }
        self.nl()
    }

    /// The condition, the keyword `mid`, and the body up to `end` of an `IF`
    /// or a `WHILE`; the condition is opened with `open`.
    fn conditional(&mut self, open: &str, mid: TokenType, end: TokenType) -> (r: Result<(), TranslateError>)
        requires
            old(self).wf(),
            in_range(old(self).src(), old(self).state()),
        ensures
            final(self).keeps(old(self)),
            outcome(r, final(self).state(), conditional(old(self).src(), old(self).state(), open@, mid, end)),
        decreases measure(old(self).src(), old(self).state()), 2int,
    {
        let ghost src = self.src();
        self.emitter.emit(String::from_str(open));
        proof {
            lemma_comparison(src, self.state());
        }
        let r = self.comparison();
        if r.is_err() {
            return r;
        }
        proof {
            lemma_advance(src, self.state());
        }
        let r = self.match_token(mid);
        if r.is_err() {
            return r;
        }
        proof {
            lemma_skip_newlines(src, self.state());
        }
        let r = self.nl();
        if r.is_err() {
            return r;
        }
        self.emitter.emit_line(String::from_str("){"));
        let r = self.block(end);
        if r.is_err() {
            return r;
        }
        let r = self.match_token(end);
        if r.is_err() {
            return r;
        }
        self.emitter.emit_line(String::from_str("}"));
        Ok(())
    }

    /// Statements up to a token of kind `end`, which is not taken.
    fn block(&mut self, end: TokenType) -> (r: Result<(), TranslateError>)
        requires
            old(self).wf(),
            in_range(old(self).src(), old(self).state()),
        ensures
            final(self).keeps(old(self)),
            outcome(r, final(self).state(), block(old(self).src(), old(self).state(), end)),
            r is Ok ==> in_range(old(self).src(), final(self).state()),
        decreases measure(old(self).src(), old(self).state()), 1int,
    {
        let ghost src = self.src();
        while !self.check_token(end)
            invariant
                self.keeps(old(self)),
                src == self.src(),
                in_range(src, self.state()),
                measure(src, self.state()) <= measure(src, old(self).state()),
                block(src, self.state(), end) == block(src, old(self).state(), end),
            decreases measure(src, self.state()),
        {
            proof {
                lemma_statement_progress(src, self.state());
            }
            let r = self.statement();
            if r.is_err() {
                return r;
            }
        }
        Ok(())
    }

    /// The first label jumped to that is declared nowhere, if any.
    fn find_undeclared(&self) -> (r: Option<String>)
        ensures
            match (r, first_undeclared(self.state().gotoed, self.state().declared)) {
                (Some(l), Some(m)) => l@ == m,
                (None, None) => true,
                _ => false,
            },
    {
        let ghost g = self.state().gotoed;
        let ghost d = self.state().declared;
        let n = self.labels_gotoed.len();
        let mut i: usize = 0;
        assert(g.subrange(0, n as int) =~= g);
        while i < n
            invariant
                0 <= i <= n,
                n == g.len(),
                g == names(self.labels_gotoed@),
                d == names(self.labels_declared@),
                first_undeclared(g.subrange(i as int, n as int), d) == first_undeclared(g, d),
            decreases n - i,
        {
            assert(g.subrange(i as int, n as int).drop_first() =~= g.subrange(i + 1, n as int));
            assert(g.subrange(i as int, n as int)[0] == self.labels_gotoed@[i as int]@);
            if !contains_name(&self.labels_declared, &self.labels_gotoed[i]) {
                return Some(self.labels_gotoed[i].clone());
            }
            i = i + 1;
        }
        None
    }

    /// `program := { statement } EOF`: primes the lookahead, writes the
    /// preamble, translates the statements, closes `main`, then checks that
    /// every label jumped to is declared.
    pub fn program(&mut self) -> (r: Result<(), TranslateError>)
        requires
            old(self).wf(),
            in_range(old(self).src(), old(self).state()),
        ensures
            final(self).keeps(old(self)),
            outcome(r, final(self).state(), program(old(self).src(), old(self).state())),
    {
        let ghost src = self.src();
        proof {
            lemma_advance(src, self.state());
        }
        let r = self.next_token();
        if r.is_err() {
            return r;
        }
        proof {
            lemma_advance(src, self.state());
        }
        let r = self.next_token();
        if r.is_err() {
            return r;
        }
        self.emitter.header_line(String::from_str("#include <stdio.h>"));
        self.emitter.header_line(String::from_str("int main(void){"));
        proof {
            lemma_skip_newlines(src, self.state());
        }
        let r = self.skip_newlines();
        if r.is_err() {
            return r;
        }
        let r = self.block(TokenType::EOF);
        if r.is_err() {
            return r;
        }
        self.emitter.emit_line(String::from_str("return 0;"));
        self.emitter.emit_line(String::from_str("}"));
        match self.find_undeclared() {
            Some(label) => Err(TranslateError::UndeclaredLabel(label)),
            None => Ok(()),
        }
    }
}

/// Translates a whole program to C: the output, or the first error met.
pub fn translate(source: String) -> (r: Result<String, TranslateError>)
    ensures
        match (r, translation(source@)) {
            (Ok(out), Ok(t)) => out@ == t,
            (Err(e), Err(x)) => e@ == x,
            _ => false,
        },
{
    let mut parser = Parser::new(source, String::from_str("out.c"));
    match parser.program() {
        Ok(()) => Ok(parser.emitter.materialize()),
        Err(e) => Err(e),
    }
}
} // verus!
