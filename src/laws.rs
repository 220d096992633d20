use vstd::prelude::*;
use crate::grammar::{
    advance, block, declarations, first_undeclared, header_line,
    initial, lemma_advance, lemma_block, lemma_skip_newlines, preamble, program,
    skip_newlines,
};
use crate::grammar::{
    expression, expression_rest, in_range, is_additive, is_multiplicative, lemma_term, PState,
    lemma_unary, measure, operator, primary, sign, term, term_rest, unary, Step,
};
use crate::grammar::{
    declare, emit, expect, goto_rest, input_rest, label_rest, let_rest, lemma_expression, print_rest, statement, traversal,
    ErrorModel, emit_line,
};
use crate::token::TokenType;

verus! {

proof fn lemma_first_undeclared(g: Seq<Seq<char>>, d: Seq<Seq<char>>)
    ensures
        first_undeclared(g, d) is None <==> (forall|i: int| 0 <= i < g.len() ==> d.contains(g[i])),
        first_undeclared(g, d) matches Some(l) ==> g.contains(l) && !d.contains(l),
    decreases g.len(),
{
    if g.len() > 0 {
        lemma_first_undeclared(g.drop_first(), d);
        if d.contains(g[0]) {
            assert forall|i: int| 0 <= i < g.len() && (forall|j: int| 0 <= j < g.drop_first().len() ==> d.contains(g.drop_first()[j])) implies d.contains(g[i]) by {
                if i > 0 {
                    assert(g[i] == g.drop_first()[i - 1]);
                }
            }
            if let Some(l) = first_undeclared(g, d) {
                let k = choose|k: int| 0 <= k < g.drop_first().len() && g.drop_first()[k] == l;
                assert(g[k + 1] == l);
            }
            if !(forall|i: int| 0 <= i < g.drop_first().len() ==> d.contains(g.drop_first()[i])) {
                let i = choose|i: int| 0 <= i < g.drop_first().len() && !d.contains(g.drop_first()[i]);
                assert(g[i + 1] == g.drop_first()[i]);
            }
        } else {
            assert(g.contains(g[0]));
        }
    }
}

/// The tables of a successful run, from the state that follows the preamble.
proof fn lemma_program_grows(src: Seq<char>)
    ensures
        program(src, initial()) is Ok ==> {
            let s = program(src, initial())->Ok_0;
            &&& s.header == preamble() + declarations(s.symbols)
            &&& s.symbols.no_duplicates()
            &&& s.declared.no_duplicates()
            &&& first_undeclared(s.gotoed, s.declared) is None
        },
{
    let st = initial();
    lemma_advance(src, st);
    if let Ok(s1) = advance(src, st) {
        lemma_advance(src, s1);
        if let Ok(s2) = advance(src, s1) {
            let s3 = header_line(header_line(s2, "#include <stdio.h>"@), "int main(void){"@);
            assert(s3.header =~= preamble());
            lemma_skip_newlines(src, s3);
            if let Ok(s4) = skip_newlines(src, s3) {
                lemma_block(src, s4, TokenType::EOF);
                if let Ok(s5) = block(src, s4, TokenType::EOF) {
                    assert(s5.symbols.subrange(0, 0) =~= Seq::<Seq<char>>::empty());
                    assert(s5.symbols.subrange(0, s5.symbols.len() as int) =~= s5.symbols);
                    assert(Seq::<Seq<char>>::empty().no_duplicates());
                }
            }
        }
    }
}

/// Every variable is declared exactly once, however often it is assigned: on
/// success the header is the preamble followed by one declaration per entry of
/// the symbol table, in the order of first assignment, and the table holds no
/// name twice.
pub proof fn lemma_one_declaration_each(src: Seq<char>)
    ensures
        program(src, initial()) is Ok ==> {
            let s = program(src, initial())->Ok_0;
            &&& s.header == preamble() + declarations(s.symbols)
            &&& s.symbols.no_duplicates()
        },
{
    lemma_program_grows(src);
}

/// Labels are consistent whenever translation succeeds, whatever the order of
/// jumps and labels: every label jumped to is declared, and no label is
/// declared twice.
pub proof fn lemma_labels_consistent(src: Seq<char>)
    ensures
        program(src, initial()) is Ok ==> {
            let s = program(src, initial())->Ok_0;
            &&& forall|i: int| 0 <= i < s.gotoed.len() ==> s.declared.contains(s.gotoed[i])
            &&& s.declared.no_duplicates()
        },
{
    lemma_program_grows(src);
    if let Ok(s) = program(src, initial()) {
        lemma_first_undeclared(s.gotoed, s.declared);
    }
}

/// The symbol table holds exactly the targets of `LET` and `INPUT`, in the
/// order of first use: such a statement adds its target unless it is there
/// already, and a `PRINT`, `LABEL` or `GOTO` leaves the table as it was.
pub proof fn lemma_table_holds_targets(src: Seq<char>, st: PState)
    requires
        in_range(src, st),
    ensures
        statement(src, st) is Ok && (st.cur.kind == TokenType::LET || st.cur.kind == TokenType::INPUT)
            ==> statement(src, st)->Ok_0.symbols == declare(st, st.peek.text).symbols,
        statement(src, st) is Ok && (st.cur.kind == TokenType::PRINT || st.cur.kind == TokenType::LABEL
            || st.cur.kind == TokenType::GOTO) ==> statement(src, st)->Ok_0.symbols == st.symbols,
{
    lemma_advance(src, st);
    if let Ok(s1) = advance(src, st) {
        let name = s1.cur.text;
        let k = st.cur.kind;
        let r = if k == TokenType::PRINT {
            print_rest(src, s1)
        } else if k == TokenType::LABEL {
            label_rest(src, s1)
        } else if k == TokenType::GOTO {
            goto_rest(src, s1)
        } else if k == TokenType::LET {
            let_rest(src, s1)
        } else {
            input_rest(src, s1)
        };
        lemma_expression(src, emit(s1, "printf(\"%.2f\\n\", (float)("@));
        lemma_advance(src, emit_line(s1, "printf(\""@ + name + "\");"@));
        let t1 = emit(declare(s1, name), name + " = "@);
        lemma_advance(src, t1);
        if let Ok(t2) = advance(src, t1) {
            lemma_advance(src, t2);
            if let Ok(t3) = expect(src, t2, TokenType::EQ) {
                lemma_expression(src, t3);
            }
        }
        if let Ok(s2) = r {
            lemma_skip_newlines(src, s2);
        }
    }
}

/// The label check decides once the whole program has been traversed, in
/// whatever order jumps and labels came: the translation succeeds exactly when
/// every label jumped to is declared, and otherwise fails naming a label that
/// is jumped to and declared nowhere.
pub proof fn lemma_labels_checked_after_traversal(src: Seq<char>)
    ensures
        traversal(src, initial()) is Err ==> program(src, initial()) == traversal(src, initial()),
        traversal(src, initial()) is Ok ==> {
            let s = traversal(src, initial())->Ok_0;
            &&& (program(src, initial()) is Ok <==> forall|i: int|
                0 <= i < s.gotoed.len() ==> s.declared.contains(s.gotoed[i]))
            &&& (program(src, initial()) is Err ==> exists|l: Seq<char>|
                program(src, initial()) == Err::<PState, ErrorModel>(ErrorModel::UndeclaredLabel(l))
                    && s.gotoed.contains(l) && !s.declared.contains(l))
        },
{
    if let Ok(s) = traversal(src, initial()) {
        lemma_first_undeclared(s.gotoed, s.declared);
        if let Some(l) = first_undeclared(s.gotoed, s.declared) {
            assert(program(src, initial()) == Err::<PState, ErrorModel>(ErrorModel::UndeclaredLabel(l)));
        }
    }
}

/// A label once declared stays declared through every later statement, and a
/// `LABEL` of a name already declared fails, so no program that declares a
/// label twice is translated.
pub proof fn lemma_repeated_label_fails(src: Seq<char>, st: PState, end: TokenType)
    requires
        in_range(src, st),
    ensures
        block(src, st, end) is Ok ==> forall|x: Seq<char>|
            st.declared.contains(x) ==> #[trigger] block(src, st, end)->Ok_0.declared.contains(x),
        st.cur.kind == TokenType::IDENT && st.declared.contains(st.cur.text) ==> label_rest(src, st)
            == Err::<PState, ErrorModel>(ErrorModel::DuplicateLabel(st.cur.text)),
{
    lemma_block(src, st, end);
    if let Ok(s2) = block(src, st, end) {
        assert forall|x: Seq<char>| st.declared.contains(x) implies #[trigger] s2.declared.contains(x) by {
            let i = choose|i: int| 0 <= i < st.declared.len() && st.declared[i] == x;
            assert(s2.declared.subrange(0, st.declared.len() as int)[i] == x);
            assert(s2.declared[i] == x);
        }
    }
}

/// Copies the current token to the body, after a space where `signed`, and
/// takes it.
pub open spec fn copy(src: Seq<char>, st: PState, signed: bool) -> Step {
    if signed {
        sign(src, st)
    } else {
        operator(src, st)
    }
}

/// The state after the next tokens were each copied to the body and then
/// taken, one for each entry of `signs`, with nothing else written.
pub open spec fn echo(src: Seq<char>, st: PState, signs: Seq<bool>) -> Step
    decreases signs.len(),
{
    if signs.len() == 0 {
        Ok(st)
    } else {
        match copy(src, st, signs[0]) {
            Ok(s1) => echo(src, s1, signs.drop_first()),
            Err(e) => Err(e),
        }
    }
}

pub open spec fn is_operand(k: TokenType) -> bool {
    k == TokenType::NUMBER || k == TokenType::IDENT
}

/// Whether the copies of `echo(src, st, signs)` keep signs apart: every token
/// copied after a space is a `+` or `-`, and every `+` or `-` copied without
/// one comes right after an operand (`after_operand` tells of the token
/// copied before `st`).
pub open spec fn spaced(src: Seq<char>, st: PState, signs: Seq<bool>, after_operand: bool) -> bool
    decreases signs.len(),
{
    if signs.len() == 0 {
        true
    } else {
        let k = st.cur.kind;
        &&& (signs[0] ==> is_additive(k))
        &&& (!signs[0] && is_additive(k) ==> after_operand)
        &&& match copy(src, st, signs[0]) {
            Ok(s1) => spaced(src, s1, signs.drop_first(), is_operand(k)),
            Err(_) => true,
        }
    }
}

/// Whether the last token copied by `echo(src, st, signs)` is an operand.
pub open spec fn ends_operand(src: Seq<char>, st: PState, signs: Seq<bool>, after_operand: bool) -> bool
    decreases signs.len(),
{
    if signs.len() == 0 {
        after_operand
    } else {
        match copy(src, st, signs[0]) {
            Ok(s1) => ends_operand(src, s1, signs.drop_first(), is_operand(st.cur.kind)),
            Err(_) => after_operand,
        }
    }
}

proof fn lemma_echo_compose(src: Seq<char>, st: PState, a: Seq<bool>, b: Seq<bool>, f: bool)
    requires
        echo(src, st, a) is Ok,
    ensures
        echo(src, echo(src, st, a)->Ok_0, b) == echo(src, st, a + b),
        spaced(src, st, a + b, f) == (spaced(src, st, a, f) && spaced(
            src,
            echo(src, st, a)->Ok_0,
            b,
            ends_operand(src, st, a, f),
        )),
        ends_operand(src, st, a + b, f) == ends_operand(
            src,
            echo(src, st, a)->Ok_0,
            b,
            ends_operand(src, st, a, f),
        ),
    decreases a.len(),
{
    if a.len() == 0 {
        assert(a + b =~= b);
    } else {
        assert((a + b)[0] == a[0]);
        assert((a + b).drop_first() =~= a.drop_first() + b);
        let s1 = copy(src, st, a[0])->Ok_0;
        lemma_echo_compose(src, s1, a.drop_first(), b, is_operand(st.cur.kind));
    }
}

proof fn lemma_single(src: Seq<char>, st: PState, x: bool, f: bool)
    ensures
        echo(src, st, seq![x]) == copy(src, st, x),
        spaced(src, st, seq![x], f) == ((x ==> is_additive(st.cur.kind)) && (!x && is_additive(
            st.cur.kind,
        ) ==> f)),
        copy(src, st, x) is Ok ==> ends_operand(src, st, seq![x], f) == is_operand(st.cur.kind),
{
    let one = seq![x];
    assert(one.drop_first() =~= Seq::<bool>::empty());
    assert(one[0] == x);
    assert(one.len() == 1);
    if let Ok(s1) = copy(src, st, x) {
        assert(echo(src, s1, Seq::<bool>::empty()) == Ok::<PState, crate::grammar::ErrorModel>(s1));
        assert(spaced(src, s1, Seq::<bool>::empty(), is_operand(st.cur.kind)));
        assert(ends_operand(src, s1, Seq::<bool>::empty(), is_operand(st.cur.kind)) == is_operand(
            st.cur.kind,
        ));
    }
}

proof fn lemma_primary_echo(src: Seq<char>, st: PState, f: bool) -> (signs: Seq<bool>)
    ensures
        primary(src, st) is Ok ==> {
            &&& echo(src, st, signs) == primary(src, st)
            &&& spaced(src, st, signs, f)
            &&& ends_operand(src, st, signs, f)
        },
{
    lemma_single(src, st, false, f);
    seq![false]
}

proof fn lemma_unary_echo(src: Seq<char>, st: PState, f: bool) -> (signs: Seq<bool>)
    ensures
        unary(src, st) is Ok ==> {
            &&& echo(src, st, signs) == unary(src, st)
            &&& spaced(src, st, signs, f)
            &&& ends_operand(src, st, signs, f)
        },
{
    if is_additive(st.cur.kind) {
        lemma_single(src, st, true, f);
        if let Ok(s1) = sign(src, st) {
            let p = lemma_primary_echo(src, s1, false);
            lemma_echo_compose(src, st, seq![true], p, f);
            return seq![true] + p;
        }
        seq![true]
    } else {
        lemma_primary_echo(src, st, f)
    }
}

proof fn lemma_term_rest_echo(src: Seq<char>, st: PState) -> (signs: Seq<bool>)
    requires
        in_range(src, st),
    ensures
        term_rest(src, st) is Ok ==> {
            &&& echo(src, st, signs) == term_rest(src, st)
            &&& spaced(src, st, signs, true)
            &&& ends_operand(src, st, signs, true)
        },
    decreases measure(src, st),
{
    if is_multiplicative(st.cur.kind) {
        crate::grammar::lemma_advance(src, crate::grammar::emit(st, st.cur.text));
        lemma_single(src, st, false, true);
        if let Ok(s1) = operator(src, st) {
            lemma_unary(src, s1);
            let u = lemma_unary_echo(src, s1, false);
            if let Ok(s2) = unary(src, s1) {
                let m = lemma_term_rest_echo(src, s2);
                lemma_echo_compose(src, st, seq![false], u, true);
                lemma_echo_compose(src, st, seq![false] + u, m, true);
                return seq![false] + u + m;
            }
        }
        Seq::empty()
    } else {
        Seq::empty()
    }
}

proof fn lemma_term_echo(src: Seq<char>, st: PState, f: bool) -> (signs: Seq<bool>)
    requires
        in_range(src, st),
    ensures
        term(src, st) is Ok ==> {
            &&& echo(src, st, signs) == term(src, st)
            &&& spaced(src, st, signs, f)
            &&& ends_operand(src, st, signs, f)
        },
{
    lemma_unary(src, st);
    let u = lemma_unary_echo(src, st, f);
    if let Ok(s1) = unary(src, st) {
        let m = lemma_term_rest_echo(src, s1);
        if term(src, st) is Ok {
            lemma_echo_compose(src, st, u, m, f);
        }
        u + m
    } else {
        Seq::empty()
    }
}

proof fn lemma_expression_rest_echo(src: Seq<char>, st: PState) -> (signs: Seq<bool>)
    requires
        in_range(src, st),
    ensures
        expression_rest(src, st) is Ok ==> {
            &&& echo(src, st, signs) == expression_rest(src, st)
            &&& spaced(src, st, signs, true)
            &&& ends_operand(src, st, signs, true)
        },
    decreases measure(src, st),
{
    if is_additive(st.cur.kind) {
        crate::grammar::lemma_advance(src, crate::grammar::emit(st, st.cur.text));
        lemma_single(src, st, false, true);
        if let Ok(s1) = operator(src, st) {
            lemma_term(src, s1);
            let t = lemma_term_echo(src, s1, false);
            if let Ok(s2) = term(src, s1) {
                let m = lemma_expression_rest_echo(src, s2);
                lemma_echo_compose(src, st, seq![false], t, true);
                lemma_echo_compose(src, st, seq![false] + t, m, true);
                return seq![false] + t + m;
            }
        }
        Seq::empty()
    } else {
        Seq::empty()
    }
}

/// An arithmetic expression is translated token for token: the body grows by
/// the texts of the tokens taken, in source order, with a space before each
/// unary sign and nothing else added. Every `+` or `-` written without that
/// space comes right after an operand, so two signs never run together into
/// C's `--` or `++`; C then groups the operators as the grammar does, unary
/// signs first, then `*` and `/`, then `+` and `-`, each left to right.
pub proof fn lemma_expression_copies_tokens(src: Seq<char>, st: PState)
    requires
        in_range(src, st),
    ensures
        expression(src, st) is Ok ==> exists|signs: Seq<bool>|
            echo(src, st, signs) == expression(src, st) && spaced(src, st, signs, false),
{
    lemma_term(src, st);
    let t = lemma_term_echo(src, st, false);
    if let Ok(s1) = term(src, st) {
        let m = lemma_expression_rest_echo(src, s1);
        if expression(src, st) is Ok {
            lemma_echo_compose(src, st, t, m, false);
            assert(echo(src, st, t + m) == expression(src, st) && spaced(src, st, t + m, false));
        }
    }
}

} // verus!
