use vstd::prelude::*;
use crate::lexer::{scan, LexError};
use crate::token::{Lexeme, TokenType};

verus! {

/// The state of a translation: the scanner's position, one token of lookahead
/// beside the current token, the declared variables, the declared and the
/// jumped-to labels (in order), and the two output streams.
pub struct PState {
    pub pos: int,
    pub cur: Lexeme,
    pub peek: Lexeme,
    pub symbols: Seq<Seq<char>>,
    pub declared: Seq<Seq<char>>,
    pub gotoed: Seq<Seq<char>>,
    pub header: Seq<char>,
    pub body: Seq<char>,
}

/// Why a translation failed.
pub enum ErrorModel {
    Lex(LexError),
    Expected(TokenType, TokenType),
    NoComparison(Seq<char>),
    BadStatement(Seq<char>, TokenType),
    BadPrimary(Seq<char>),
    Unbound(Seq<char>),
    DuplicateLabel(Seq<char>),
    UndeclaredLabel(Seq<char>),
}

pub type Step = Result<PState, ErrorModel>;

pub open spec fn in_range(src: Seq<char>, st: PState) -> bool {
    0 <= st.pos <= src.len()
}

/// What is left to translate; every token taken but `EOF` makes it smaller.
pub open spec fn measure(src: Seq<char>, st: PState) -> int {
    3 * (src.len() - st.pos) + (if st.cur.kind != TokenType::EOF { 1int } else { 0 }) + (
    if st.peek.kind != TokenType::EOF {
        1int
    } else {
        0
    })
}

/// Moves the lookahead on by one token.
pub open spec fn advance(src: Seq<char>, st: PState) -> Step {
    match scan(src, st.pos) {
        Ok((t, e)) => Ok(PState { pos: e, cur: st.peek, peek: t, ..st }),
        Err(x) => Err(ErrorModel::Lex(x)),
    }
}

/// Takes the current token, which must be of kind `k`.
pub open spec fn expect(src: Seq<char>, st: PState, k: TokenType) -> Step {
    if st.cur.kind == k {
        advance(src, st)
    } else {
        Err(ErrorModel::Expected(k, st.cur.kind))
    }
}

pub open spec fn emit(st: PState, text: Seq<char>) -> PState {
    PState { body: st.body + text, ..st }
}

pub open spec fn emit_line(st: PState, text: Seq<char>) -> PState {
    PState { body: st.body + text.push('\n'), ..st }
}

pub open spec fn header_line(st: PState, text: Seq<char>) -> PState {
    PState { header: st.header + text.push('\n'), ..st }
}

/// The declaration of a variable.
pub open spec fn declaration(name: Seq<char>) -> Seq<char> {
    "float "@ + name + ";"@
}

/// Declares `name` on its first use; later uses change nothing.
pub open spec fn declare(st: PState, name: Seq<char>) -> PState {
    if st.symbols.contains(name) {
        st
    } else {
        PState { symbols: st.symbols.push(name), ..header_line(st, declaration(name)) }
    }
}

/// Takes any number of newline tokens.
pub open spec fn skip_newlines(src: Seq<char>, st: PState) -> Step
    decreases measure(src, st),
    when in_range(src, st)
{
    if st.cur.kind == TokenType::NEWLINE {
        proof {
            lemma_advance(src, st);
        }
        match advance(src, st) {
            Ok(s1) => skip_newlines(src, s1),
            Err(e) => Err(e),
        }
    } else {
        Ok(st)
    }
}

/// Takes the end of a statement: one or more newline tokens.
pub open spec fn nl(src: Seq<char>, st: PState) -> Step {
    if st.cur.kind == TokenType::NEWLINE {
        skip_newlines(src, st)
    } else {
        Err(ErrorModel::Expected(TokenType::NEWLINE, st.cur.kind))
    }
}

/// `primary := NUMBER | IDENT`, where the identifier must be declared already.
pub open spec fn primary(src: Seq<char>, st: PState) -> Step {
    if st.cur.kind == TokenType::NUMBER {
        advance(src, emit(st, st.cur.text))
    } else if st.cur.kind == TokenType::IDENT {
        if st.symbols.contains(st.cur.text) {
            advance(src, emit(st, st.cur.text))
        } else {
            Err(ErrorModel::Unbound(st.cur.text))
        }
    } else {
        Err(ErrorModel::BadPrimary(st.cur.text))
    }
}

pub open spec fn is_additive(k: TokenType) -> bool {
    k == TokenType::PLUS || k == TokenType::MINUS
}

pub open spec fn is_multiplicative(k: TokenType) -> bool {
    k == TokenType::ASTERISK || k == TokenType::SLASH
}

pub open spec fn is_comparison(k: TokenType) -> bool {
    k == TokenType::GT || k == TokenType::GTEQ || k == TokenType::LT || k == TokenType::LTEQ
        || k == TokenType::EQEQ || k == TokenType::NOTEQ
}

/// Copies the current token, an operator, to the body and takes it.
pub open spec fn operator(src: Seq<char>, st: PState) -> Step {
    advance(src, emit(st, st.cur.text))
}

/// Copies the current token, a unary sign, to the body after a space and
/// takes it. The space keeps a sign apart from an operator before it: `1 - -2`
/// becomes `1- -2`, where C would read `1--2` as a decrement.
pub open spec fn sign(src: Seq<char>, st: PState) -> Step {
    advance(src, emit(st, " "@ + st.cur.text))
}

/// `unary := [ "+" | "-" ] primary`
pub open spec fn unary(src: Seq<char>, st: PState) -> Step {
    if is_additive(st.cur.kind) {
        match sign(src, st) {
            Ok(s1) => primary(src, s1),
            Err(e) => Err(e),
        }
    } else {
        primary(src, st)
    }
}

/// `{ ("*" | "/") unary }`
pub open spec fn term_rest(src: Seq<char>, st: PState) -> Step
    decreases measure(src, st),
    when in_range(src, st)
{
    if is_multiplicative(st.cur.kind) {
        proof {
            lemma_advance(src, emit(st, st.cur.text));
        }
        match operator(src, st) {
            Ok(s1) => match {
                proof {
                    lemma_unary(src, s1);
                }
                unary(src, s1)
            } {
                Ok(s2) => term_rest(src, s2),
                Err(e) => Err(e),
            },
            Err(e) => Err(e),
        }
    } else {
        Ok(st)
    }
}

/// `term := unary { ("*" | "/") unary }`
pub open spec fn term(src: Seq<char>, st: PState) -> Step {
    match unary(src, st) {
        Ok(s1) => term_rest(src, s1),
        Err(e) => Err(e),
    }
}

/// `{ ("+" | "-") term }`
pub open spec fn expression_rest(src: Seq<char>, st: PState) -> Step
    decreases measure(src, st),
    when in_range(src, st)
{
    if is_additive(st.cur.kind) {
        proof {
            lemma_advance(src, emit(st, st.cur.text));
        }
        match operator(src, st) {
            Ok(s1) => match {
                proof {
                    lemma_term(src, s1);
                }
                term(src, s1)
            } {
                Ok(s2) => expression_rest(src, s2),
                Err(e) => Err(e),
            },
            Err(e) => Err(e),
        }
    } else {
        Ok(st)
    }
}

/// `expression := term { ("+" | "-") term }`
pub open spec fn expression(src: Seq<char>, st: PState) -> Step {
    match term(src, st) {
        Ok(s1) => expression_rest(src, s1),
        Err(e) => Err(e),
    }
}

/// `{ comparison_op expression }`
pub open spec fn comparison_rest(src: Seq<char>, st: PState) -> Step
    decreases measure(src, st),
    when in_range(src, st)
{
    if is_comparison(st.cur.kind) {
        proof {
            lemma_advance(src, emit(st, st.cur.text));
        }
        match operator(src, st) {
            Ok(s1) => match {
                proof {
                    lemma_expression(src, s1);
                }
                expression(src, s1)
            } {
                Ok(s2) => comparison_rest(src, s2),
                Err(e) => Err(e),
            },
            Err(e) => Err(e),
        }
    } else {
        Ok(st)
    }
}

/// `comparison := expression comparison_op expression { comparison_op expression }`
pub open spec fn comparison(src: Seq<char>, st: PState) -> Step {
    match expression(src, st) {
        Ok(s1) => if is_comparison(s1.cur.kind) {
            comparison_rest(src, s1)
        } else {
            Err(ErrorModel::NoComparison(s1.cur.text))
        },
        Err(e) => Err(e),
    }
}

/// The keywords that start a statement.
pub open spec fn starts_statement(k: TokenType) -> bool {
    k == TokenType::PRINT || k == TokenType::IF || k == TokenType::WHILE || k == TokenType::LABEL
        || k == TokenType::GOTO || k == TokenType::LET || k == TokenType::INPUT
}

/// The rest of `PRINT ( STRING | expression )`.
pub open spec fn print_rest(src: Seq<char>, st: PState) -> Step {
    if st.cur.kind == TokenType::STRING {
        advance(src, emit_line(st, "printf(\""@ + st.cur.text + "\");"@))
    } else {
        match expression(src, emit(st, "printf(\"%.2f\\n\", (float)("@)) {
            Ok(s1) => Ok(emit_line(s1, "));"@)),
            Err(e) => Err(e),
        }
    }
}

/// The rest of `LABEL IDENT`: a label may be declared once.
pub open spec fn label_rest(src: Seq<char>, st: PState) -> Step {
    if st.cur.kind != TokenType::IDENT {
        Err(ErrorModel::Expected(TokenType::IDENT, st.cur.kind))
    } else if st.declared.contains(st.cur.text) {
        Err(ErrorModel::DuplicateLabel(st.cur.text))
    } else {
        let s1 = PState { declared: st.declared.push(st.cur.text), ..st };
        advance(src, emit_line(s1, st.cur.text + ":"@))
    }
}

/// The rest of `GOTO IDENT`; the label is checked at the end of the program.
pub open spec fn goto_rest(src: Seq<char>, st: PState) -> Step {
    if st.cur.kind != TokenType::IDENT {
        Err(ErrorModel::Expected(TokenType::IDENT, st.cur.kind))
    } else {
        let s1 = PState { gotoed: st.gotoed.push(st.cur.text), ..st };
        advance(src, emit_line(s1, "goto "@ + st.cur.text + ";"@))
    }
}

/// The rest of `LET IDENT "=" expression`.
pub open spec fn let_rest(src: Seq<char>, st: PState) -> Step {
    if st.cur.kind != TokenType::IDENT {
        Err(ErrorModel::Expected(TokenType::IDENT, st.cur.kind))
    } else {
        let name = st.cur.text;
        match advance(src, emit(declare(st, name), name + " = "@)) {
            Ok(s1) => match expect(src, s1, TokenType::EQ) {
                Ok(s2) => match expression(src, s2) {
                    Ok(s3) => Ok(emit_line(s3, ";"@)),
                    Err(e) => Err(e),
                },
                Err(e) => Err(e),
            },
            Err(e) => Err(e),
        }
    }
}

/// The code that reads a number into `name`, or sets it to zero and drops the
/// rest of the line when the input is no number.
pub open spec fn input_code(st: PState, name: Seq<char>) -> PState {
    let s1 = emit_line(st, "if(0 == scanf(\"%f\", &"@ + name + ")) {"@);
    let s2 = emit_line(s1, name + " = 0;"@);
    let s3 = emit(s2, "scanf(\"%"@);
    let s4 = emit_line(s3, "*s\");"@);
    emit_line(s4, "}"@)
}

/// The rest of `INPUT IDENT`.
pub open spec fn input_rest(src: Seq<char>, st: PState) -> Step {
    if st.cur.kind != TokenType::IDENT {
        Err(ErrorModel::Expected(TokenType::IDENT, st.cur.kind))
    } else {
        advance(src, input_code(declare(st, st.cur.text), st.cur.text))
    }
}

/// `statement`, recognized from its first token and followed by `nl`.
pub open spec fn statement(src: Seq<char>, st: PState) -> Step
    decreases measure(src, st), 0int,
    when in_range(src, st)
{
    let k = st.cur.kind;
    if starts_statement(k) {
        proof {
            lemma_advance(src, st);
        }
        match advance(src, st) {
            Ok(s1) => {
                let r = if k == TokenType::PRINT {
                    print_rest(src, s1)
                } else if k == TokenType::IF {
                    conditional(src, s1, "if("@, TokenType::THEN, TokenType::ENDIF)
                } else if k == TokenType::WHILE {
                    conditional(src, s1, "while("@, TokenType::REPEAT, TokenType::ENDWHILE)
                } else if k == TokenType::LABEL {
                    label_rest(src, s1)
                } else if k == TokenType::GOTO {
                    goto_rest(src, s1)
                } else if k == TokenType::LET {
                    let_rest(src, s1)
                } else {
                    input_rest(src, s1)
                };
                match r {
                    Ok(s2) => nl(src, s2),
                    Err(e) => Err(e),
                }
            },
            Err(e) => Err(e),
        }
    } else {
        Err(ErrorModel::BadStatement(st.cur.text, k))
    }
}

/// The rest of `IF comparison THEN nl { statement } ENDIF` and of the `WHILE`
/// loop: the condition opened by `open`, the keyword `mid`, the body up to `end`.
pub open spec fn conditional(src: Seq<char>, st: PState, open: Seq<char>, mid: TokenType, end: TokenType) -> Step
    decreases measure(src, st), 2int,
    when in_range(src, st)
{
    proof {
        lemma_comparison(src, emit(st, open));
    }
    match comparison(src, emit(st, open)) {
        Ok(s1) => match {
            proof {
                lemma_advance(src, s1);
            }
            expect(src, s1, mid)
        } {
            Ok(s2) => match {
                proof {
                    lemma_skip_newlines(src, s2);
                }
                nl(src, s2)
            } {
                Ok(s3) => match block(src, emit_line(s3, "){"@), end) {
                    Ok(s4) => match expect(src, s4, end) {
                        Ok(s5) => Ok(emit_line(s5, "}"@)),
                        Err(e) => Err(e),
                    },
                    Err(e) => Err(e),
                },
                Err(e) => Err(e),
            },
            Err(e) => Err(e),
        },
        Err(e) => Err(e),
    }
}

/// `{ statement }` up to a token of kind `end`, which is not taken.
/// Each statement takes at least one token (`lemma_statement_progress`), so the
/// recursion always goes on.
pub open spec fn block(src: Seq<char>, st: PState, end: TokenType) -> Step
    decreases measure(src, st), 1int,
    when in_range(src, st)
{
    if st.cur.kind == end {
        Ok(st)
    } else {
        match statement(src, st) {
            Ok(s1) => if in_range(src, s1) && measure(src, s1) < measure(src, st) {
                block(src, s1, end)
            } else {
                Ok(s1)
            },
            Err(e) => Err(e),
        }
    }
}

/// The first label in `gotoed` that is not in `declared`.
pub open spec fn first_undeclared(gotoed: Seq<Seq<char>>, declared: Seq<Seq<char>>) -> Option<Seq<char>>
    decreases gotoed.len(),
{
    if gotoed.len() == 0 {
        None
    } else if !declared.contains(gotoed[0]) {
        Some(gotoed[0])
    } else {
        first_undeclared(gotoed.drop_first(), declared)
    }
}

pub open spec fn eof_lexeme() -> Lexeme {
    Lexeme { kind: TokenType::EOF, text: Seq::empty() }
}

/// The state before the first token is read.
pub open spec fn initial() -> PState {
    PState {
        pos: 0,
        cur: eof_lexeme(),
        peek: eof_lexeme(),
        symbols: Seq::empty(),
        declared: Seq::empty(),
        gotoed: Seq::empty(),
        header: Seq::empty(),
        body: Seq::empty(),
    }
}

/// The fixed start of every output.
pub open spec fn preamble() -> Seq<char> {
    "#include <stdio.h>"@.push('\n') + "int main(void){"@.push('\n')
}

/// The statements of a whole program, between the preamble and the closing code.
pub open spec fn program_body(src: Seq<char>, st: PState) -> Step {
    match skip_newlines(src, st) {
        Ok(s1) => block(src, s1, TokenType::EOF),
        Err(e) => Err(e),
    }
}

/// Everything of `program` but the final label check: primes the lookahead,
/// writes the preamble, translates the statements and closes `main`.
pub open spec fn traversal(src: Seq<char>, st: PState) -> Step {
    match advance(src, st) {
        Ok(s1) => match advance(src, s1) {
            Ok(s2) => {
                let s3 = header_line(header_line(s2, "#include <stdio.h>"@), "int main(void){"@);
                match program_body(src, s3) {
                    Ok(s4) => Ok(emit_line(emit_line(s4, "return 0;"@), "}"@)),
                    Err(e) => Err(e),
                }
            },
            Err(e) => Err(e),
        },
        Err(e) => Err(e),
    }
}

/// `program := { statement } EOF`: the whole traversal, then the check that
/// every label jumped to is declared somewhere.
pub open spec fn program(src: Seq<char>, st: PState) -> Step {
    match traversal(src, st) {
        Ok(s) => match first_undeclared(s.gotoed, s.declared) {
            Some(l) => Err(ErrorModel::UndeclaredLabel(l)),
            None => Ok(s),
        },
        Err(e) => Err(e),
    }
}

/// The translation of `src`: the header and then the body, or the first error.
pub open spec fn translation(src: Seq<char>) -> Result<Seq<char>, ErrorModel> {
    match program(src, initial()) {
        Ok(s) => Ok(s.header + s.body),
        Err(e) => Err(e),
    }
}

/// Only the position, the lookahead and the body may have changed, and the
/// state stayed in range without growing its measure.
pub open spec fn moves_on(src: Seq<char>, st: PState, r: Step) -> bool {
    match r {
        Ok(s2) => {
            &&& in_range(src, s2)
            &&& measure(src, s2) <= measure(src, st)
            &&& s2.symbols == st.symbols
            &&& s2.declared == st.declared
            &&& s2.gotoed == st.gotoed
            &&& s2.header == st.header
        },
        Err(_) => true,
    }
}

pub proof fn lemma_advance(src: Seq<char>, st: PState)
    requires
        in_range(src, st),
    ensures
        moves_on(src, st, advance(src, st)),
        st.cur.kind != TokenType::EOF && advance(src, st) is Ok ==> measure(src, advance(src, st)->Ok_0)
            < measure(src, st),
{
    crate::lexer::lemma_scan_progress(src, st.pos);
}

pub proof fn lemma_primary(src: Seq<char>, st: PState)
    requires
        in_range(src, st),
    ensures
        moves_on(src, st, primary(src, st)),
{
    lemma_advance(src, emit(st, st.cur.text));
}

pub proof fn lemma_unary(src: Seq<char>, st: PState)
    requires
        in_range(src, st),
    ensures
        moves_on(src, st, unary(src, st)),
{
    lemma_advance(src, emit(st, " "@ + st.cur.text));
    lemma_primary(src, st);
    if let Ok(s1) = sign(src, st) {
        lemma_primary(src, s1);
    }
}

pub proof fn lemma_term_rest(src: Seq<char>, st: PState)
    requires
        in_range(src, st),
    ensures
        moves_on(src, st, term_rest(src, st)),
    decreases measure(src, st),
{
    if is_multiplicative(st.cur.kind) {
        lemma_advance(src, emit(st, st.cur.text));
        if let Ok(s1) = operator(src, st) {
            lemma_unary(src, s1);
            if let Ok(s2) = unary(src, s1) {
                lemma_term_rest(src, s2);
            }
        }
    }
}

pub proof fn lemma_term(src: Seq<char>, st: PState)
    requires
        in_range(src, st),
    ensures
        moves_on(src, st, term(src, st)),
{
    lemma_unary(src, st);
    if let Ok(s1) = unary(src, st) {
        lemma_term_rest(src, s1);
    }
}

pub proof fn lemma_expression_rest(src: Seq<char>, st: PState)
    requires
        in_range(src, st),
    ensures
        moves_on(src, st, expression_rest(src, st)),
    decreases measure(src, st),
{
    if is_additive(st.cur.kind) {
        lemma_advance(src, emit(st, st.cur.text));
        if let Ok(s1) = operator(src, st) {
            lemma_term(src, s1);
            if let Ok(s2) = term(src, s1) {
                lemma_expression_rest(src, s2);
            }
        }
    }
}

pub proof fn lemma_expression(src: Seq<char>, st: PState)
    requires
        in_range(src, st),
    ensures
        moves_on(src, st, expression(src, st)),
{
    lemma_term(src, st);
    if let Ok(s1) = term(src, st) {
        lemma_expression_rest(src, s1);
    }
}

pub proof fn lemma_comparison_rest(src: Seq<char>, st: PState)
    requires
        in_range(src, st),
    ensures
        moves_on(src, st, comparison_rest(src, st)),
    decreases measure(src, st),
{
    if is_comparison(st.cur.kind) {
        lemma_advance(src, emit(st, st.cur.text));
        if let Ok(s1) = operator(src, st) {
            lemma_expression(src, s1);
            if let Ok(s2) = expression(src, s1) {
                lemma_comparison_rest(src, s2);
            }
        }
    }
}

pub proof fn lemma_comparison(src: Seq<char>, st: PState)
    requires
        in_range(src, st),
    ensures
        moves_on(src, st, comparison(src, st)),
{
    lemma_expression(src, st);
    if let Ok(s1) = expression(src, st) {
        lemma_comparison_rest(src, s1);
    }
}

pub proof fn lemma_skip_newlines(src: Seq<char>, st: PState)
    requires
        in_range(src, st),
    ensures
        moves_on(src, st, skip_newlines(src, st)),
    decreases measure(src, st),
{
    if st.cur.kind == TokenType::NEWLINE {
        lemma_advance(src, st);
        if let Ok(s1) = advance(src, st) {
            lemma_skip_newlines(src, s1);
        }
    }
}

/// The declarations of `names`, one line each, in order.
pub open spec fn declarations(names: Seq<Seq<char>>) -> Seq<char>
    decreases names.len(),
{
    if names.len() == 0 {
        Seq::empty()
    } else {
        declarations(names.drop_last()) + declaration(names.last()).push('\n')
    }
}

/// How the tables may change: variables are only added, each new one with its
/// declaration at the end of the header, and no variable nor label comes twice.
pub open spec fn grows(st: PState, s2: PState) -> bool {
    &&& st.symbols.len() <= s2.symbols.len()
    &&& s2.symbols.subrange(0, st.symbols.len() as int) == st.symbols
    &&& s2.header == st.header + declarations(
        s2.symbols.subrange(st.symbols.len() as int, s2.symbols.len() as int),
    )
    &&& (st.symbols.no_duplicates() ==> s2.symbols.no_duplicates())
    &&& st.declared.len() <= s2.declared.len()
    &&& s2.declared.subrange(0, st.declared.len() as int) == st.declared
    &&& (st.declared.no_duplicates() ==> s2.declared.no_duplicates())
}

/// The state stayed in range, its measure did not grow, and its tables grew
/// as `grows` allows.
pub open spec fn stays(src: Seq<char>, st: PState, r: Step) -> bool {
    match r {
        Ok(s2) => in_range(src, s2) && measure(src, s2) <= measure(src, st) && grows(st, s2),
        Err(_) => true,
    }
}

proof fn lemma_declarations_concat(a: Seq<Seq<char>>, b: Seq<Seq<char>>)
    ensures
        declarations(a + b) == declarations(a) + declarations(b),
    decreases b.len(),
{
    if b.len() == 0 {
        assert(a + b =~= a);
        assert(declarations(a) + declarations(b) =~= declarations(a));
    } else {
        lemma_declarations_concat(a, b.drop_last());
        assert((a + b).drop_last() =~= a + b.drop_last());
        assert((a + b).last() == b.last());
        assert(declarations(a + b) =~= declarations(a) + declarations(b));
    }
}

proof fn lemma_tables_kept(st: PState, s2: PState)
    requires
        s2.symbols == st.symbols,
        s2.header == st.header,
        s2.declared == st.declared,
    ensures
        grows(st, s2),
{
    assert(s2.symbols.subrange(0, st.symbols.len() as int) =~= st.symbols);
    assert(s2.declared.subrange(0, st.declared.len() as int) =~= st.declared);
    assert(s2.symbols.subrange(st.symbols.len() as int, s2.symbols.len() as int) =~= Seq::<
        Seq<char>,
    >::empty());
    assert(st.header + Seq::<char>::empty() =~= st.header);
}

proof fn lemma_grows_trans(a: PState, b: PState, c: PState)
    requires
        grows(a, b),
        grows(b, c),
    ensures
        grows(a, c),
{
    let na = a.symbols.len() as int;
    let nb = b.symbols.len() as int;
    let nc = c.symbols.len() as int;
    assert(c.symbols.subrange(0, na) =~= b.symbols.subrange(0, na));
    assert(c.declared.subrange(0, a.declared.len() as int) =~= b.declared.subrange(
        0,
        a.declared.len() as int,
    ));
    assert(c.symbols.subrange(na, nb) =~= b.symbols.subrange(na, nb));
    assert(c.symbols.subrange(na, nc) =~= c.symbols.subrange(na, nb) + c.symbols.subrange(nb, nc));
    lemma_declarations_concat(c.symbols.subrange(na, nb), c.symbols.subrange(nb, nc));
    assert(c.header =~= a.header + declarations(c.symbols.subrange(na, nc)));
}

proof fn lemma_push_unique(s: Seq<Seq<char>>, x: Seq<char>)
    requires
        s.no_duplicates(),
        !s.contains(x),
    ensures
        s.push(x).no_duplicates(),
{
    assert forall|i: int, j: int|
        0 <= i < s.push(x).len() && 0 <= j < s.push(x).len() && i != j implies s.push(x)[i]
        != s.push(x)[j] by {
        if i < s.len() && j == s.len() {
            assert(s.contains(s[i]));
        }
        if j < s.len() && i == s.len() {
            assert(s.contains(s[j]));
        }
    }
}

proof fn lemma_declare(st: PState, name: Seq<char>)
    ensures
        grows(st, declare(st, name)),
        declare(st, name).declared == st.declared,
        declare(st, name).body == st.body,
        declare(st, name).symbols.contains(name),
{
    if st.symbols.contains(name) {
        lemma_tables_kept(st, st);
    } else {
        let s2 = declare(st, name);
        let n = st.symbols.len() as int;
        assert(s2.symbols.subrange(0, n) =~= st.symbols);
        assert(s2.declared.subrange(0, st.declared.len() as int) =~= st.declared);
        let added = s2.symbols.subrange(n, n + 1);
        assert(added.drop_last() =~= Seq::<Seq<char>>::empty());
        assert(added.last() == name);
        assert(declarations(added.drop_last()) =~= Seq::<char>::empty());
        assert(declarations(added) =~= declaration(name).push('\n'));
        if st.symbols.no_duplicates() {
            lemma_push_unique(st.symbols, name);
        }
        assert(s2.symbols[n] == name);
    }
}

proof fn lemma_moves_on_stays(src: Seq<char>, st: PState, r: Step)
    requires
        moves_on(src, st, r),
    ensures
        stays(src, st, r),
{
    if let Ok(s2) = r {
        lemma_tables_kept(st, s2);
    }
}

/// `lemma_moves_on_stays` after `grows`: the tables of `a` grew into those of
/// `b`, and the step `r` from `b` only moves on.
proof fn lemma_then_moves_on(src: Seq<char>, a: PState, b: PState, r: Step)
    requires
        grows(a, b),
        measure(src, b) <= measure(src, a),
        moves_on(src, b, r),
    ensures
        stays(src, a, r),
{
    if let Ok(s2) = r {
        lemma_tables_kept(b, s2);
        lemma_grows_trans(a, b, s2);
    }
}

proof fn lemma_rests(src: Seq<char>, st: PState)
    requires
        in_range(src, st),
    ensures
        stays(src, st, print_rest(src, st)),
        stays(src, st, label_rest(src, st)),
        stays(src, st, goto_rest(src, st)),
        stays(src, st, let_rest(src, st)),
        stays(src, st, input_rest(src, st)),
{
    let name = st.cur.text;
    lemma_tables_kept(st, st);
    // PRINT
    let printed = emit_line(st, "printf(\""@ + name + "\");"@);
    lemma_advance(src, printed);
    lemma_then_moves_on(src, st, printed, advance(src, printed));
    let opened = emit(st, "printf(\"%.2f\\n\", (float)("@);
    lemma_expression(src, opened);
    lemma_then_moves_on(src, st, opened, expression(src, opened));
    // LABEL
    let l1 = PState { declared: st.declared.push(name), ..st };
    let l2 = emit_line(l1, name + ":"@);
    lemma_advance(src, l2);
    if st.cur.kind == TokenType::IDENT && !st.declared.contains(name) {
        if st.declared.no_duplicates() {
            lemma_push_unique(st.declared, name);
        }
        assert(grows(st, l2)) by {
            assert(l2.symbols.subrange(0, st.symbols.len() as int) =~= st.symbols);
            assert(l2.declared.subrange(0, st.declared.len() as int) =~= st.declared);
            assert(l2.symbols.subrange(st.symbols.len() as int, l2.symbols.len() as int)
                =~= Seq::<Seq<char>>::empty());
            assert(st.header + Seq::<char>::empty() =~= st.header);
        }
        lemma_then_moves_on(src, st, l2, advance(src, l2));
    }
    // GOTO
    let g1 = PState { gotoed: st.gotoed.push(name), ..st };
    let g2 = emit_line(g1, "goto "@ + name + ";"@);
    lemma_advance(src, g2);
    lemma_then_moves_on(src, st, g2, advance(src, g2));
    // LET
    let d = declare(st, name);
    lemma_declare(st, name);
    let t1 = emit(d, name + " = "@);
    lemma_advance(src, t1);
    lemma_then_moves_on(src, st, t1, advance(src, t1));
    if let Ok(t2) = advance(src, t1) {
        lemma_advance(src, t2);
        lemma_then_moves_on(src, st, t2, expect(src, t2, TokenType::EQ));
        if let Ok(t3) = expect(src, t2, TokenType::EQ) {
            lemma_expression(src, t3);
            lemma_then_moves_on(src, st, t3, expression(src, t3));
        }
    }
    // INPUT
    let i1 = input_code(d, name);
    lemma_advance(src, i1);
    lemma_then_moves_on(src, st, i1, advance(src, i1));
}

/// A statement always takes input: it never leaves the measure as it was.
pub proof fn lemma_statement_progress(src: Seq<char>, st: PState)
    requires
        in_range(src, st),
    ensures
        stays(src, st, statement(src, st)),
        statement(src, st) is Ok ==> measure(src, statement(src, st)->Ok_0) < measure(src, st),
    decreases measure(src, st), 0int,
{
    let k = st.cur.kind;
    if starts_statement(k) {
        lemma_advance(src, st);
        if let Ok(s1) = advance(src, st) {
            lemma_moves_on_stays(src, st, advance(src, st));
            lemma_rests(src, s1);
            lemma_conditional(src, s1, "if("@, TokenType::THEN, TokenType::ENDIF);
            lemma_conditional(src, s1, "while("@, TokenType::REPEAT, TokenType::ENDWHILE);
            let r = if k == TokenType::PRINT {
                print_rest(src, s1)
            } else if k == TokenType::IF {
                conditional(src, s1, "if("@, TokenType::THEN, TokenType::ENDIF)
            } else if k == TokenType::WHILE {
                conditional(src, s1, "while("@, TokenType::REPEAT, TokenType::ENDWHILE)
            } else if k == TokenType::LABEL {
                label_rest(src, s1)
            } else if k == TokenType::GOTO {
                goto_rest(src, s1)
            } else if k == TokenType::LET {
                let_rest(src, s1)
            } else {
                input_rest(src, s1)
            };
            if let Ok(s2) = r {
                lemma_grows_trans(st, s1, s2);
                lemma_skip_newlines(src, s2);
                lemma_then_moves_on(src, st, s2, nl(src, s2));
            }
        }
    }
}

#[verifier::rlimit(50)]
proof fn lemma_conditional(src: Seq<char>, st: PState, open: Seq<char>, mid: TokenType, end: TokenType)
    requires
        in_range(src, st),
    ensures
        stays(src, st, conditional(src, st, open, mid, end)),
    decreases measure(src, st), 2int,
{
    lemma_comparison(src, emit(st, open));
    lemma_tables_kept(st, emit(st, open));
    if let Ok(s1) = comparison(src, emit(st, open)) {
        lemma_tables_kept(st, s1);
        lemma_advance(src, s1);
        if let Ok(s2) = expect(src, s1, mid) {
            lemma_tables_kept(st, s2);
            lemma_skip_newlines(src, s2);
            if let Ok(s3) = nl(src, s2) {
                let s4 = emit_line(s3, "){"@);
                lemma_tables_kept(st, s4);
                lemma_block(src, s4, end);
                if let Ok(s5) = block(src, s4, end) {
                    lemma_grows_trans(st, s4, s5);
                    lemma_advance(src, s5);
                    if let Ok(s6) = expect(src, s5, end) {
                        lemma_then_moves_on(src, st, s5, expect(src, s5, end));
                        lemma_tables_kept(s6, emit_line(s6, "}"@));
                        lemma_grows_trans(st, s6, emit_line(s6, "}"@));
                    }
                }
            }
        }
    }
}

pub proof fn lemma_block(src: Seq<char>, st: PState, end: TokenType)
    requires
        in_range(src, st),
    ensures
        stays(src, st, block(src, st, end)),
    decreases measure(src, st), 1int,
{
    if st.cur.kind != end {
        lemma_statement_progress(src, st);
        if let Ok(s1) = statement(src, st) {
            lemma_block(src, s1, end);
            if let Ok(s2) = block(src, s1, end) {
                lemma_grows_trans(st, s1, s2);
            }
        }
    } else {
        lemma_tables_kept(st, st);
    }
}

} // verus!
