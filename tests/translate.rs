use teenytiny::parser::{translate, Parser, TranslateError};
use teenytiny::token::TokenType;

const PRE: &str = "#include <stdio.h>\nint main(void){\n";

fn out(src: &str) -> String {
    match translate(src.to_string()) {
        Ok(s) => s,
        Err(e) => panic!("translation failed: {:?}", e),
    }
}

#[test]
fn print_string_literal() {
    let o = out("PRINT \"HELLO\"\n");
    assert_eq!(o, format!("{}printf(\"HELLO\");\nreturn 0;\n}}\n", PRE));
    assert!(!o.contains("float "));
}

#[test]
fn let_then_print_variable() {
    let o = out("LET a = 3\nPRINT a\n");
    assert_eq!(
        o,
        format!("{}float a;\na = 3;\nprintf(\"%.2f\\n\", (float)(a));\nreturn 0;\n}}\n", PRE)
    );
    assert_eq!(o.matches("float a;").count(), 1);
}

#[test]
fn label_and_backward_goto() {
    let o = out("LABEL start\nGOTO start\n");
    assert_eq!(o, format!("{}start:\ngoto start;\nreturn 0;\n}}\n", PRE));
}

#[test]
fn forward_goto_is_accepted() {
    let o = out("GOTO end\nPRINT \"skipped\"\nLABEL end\n");
    assert!(o.contains("goto end;\n"));
    assert!(o.contains("end:\n"));
}

#[test]
fn goto_without_label_fails() {
    match translate("GOTO missing\n".to_string()) {
        Err(TranslateError::UndeclaredLabel(l)) => assert_eq!(l, "missing"),
        other => panic!("unexpected {:?}", other),
    }
}

#[test]
fn first_undeclared_label_is_reported() {
    match translate("LABEL a\nGOTO a\nGOTO b\nGOTO c\n".to_string()) {
        Err(TranslateError::UndeclaredLabel(l)) => assert_eq!(l, "b"),
        other => panic!("unexpected {:?}", other),
    }
}

#[test]
fn duplicate_label_fails() {
    match translate("LABEL a\nLABEL a\n".to_string()) {
        Err(TranslateError::DuplicateLabel(l)) => assert_eq!(l, "a"),
        other => panic!("unexpected {:?}", other),
    }
}

#[test]
fn unassigned_variable_fails() {
    match translate("PRINT a\n".to_string()) {
        Err(TranslateError::Unbound(v)) => assert_eq!(v, "a"),
        other => panic!("unexpected {:?}", other),
    }
}

#[test]
fn if_wraps_body_in_conditional() {
    let o = out("IF 1 > 2 THEN\nPRINT \"X\"\nENDIF\n");
    assert_eq!(o, format!("{}if(1>2){{\nprintf(\"X\");\n}}\nreturn 0;\n}}\n", PRE));
}

#[test]
fn while_loop_with_input() {
    let o = out("INPUT n\nWHILE n > 0 REPEAT\nLET n = n - 1\nENDWHILE\n");
    let expected = format!(
        "{}float n;\nif(0 == scanf(\"%f\", &n)) {{\nn = 0;\nscanf(\"%*s\");\n}}\nwhile(n>0){{\nn = n-1;\n}}\nreturn 0;\n}}\n",
        PRE
    );
    assert_eq!(o, expected);
}

#[test]
fn one_declaration_per_variable() {
    let o = out("LET a = 1\nLET b = a\nLET a = 2\nINPUT a\nINPUT b\n");
    assert_eq!(o.matches("float a;").count(), 1);
    assert_eq!(o.matches("float b;").count(), 1);
    assert!(o.starts_with(&format!("{}float a;\nfloat b;\n", PRE)));
}

#[test]
fn expression_keeps_precedence_shape() {
    let o = out("LET x = 1 + 2 * 3\nLET y = -x / 4 - 5\n");
    assert!(o.contains("x = 1+2*3;\n"));
    assert!(o.contains("y =  -x/4-5;\n"));
}

#[test]
fn unary_sign_is_kept_apart() {
    let o = out("LET a = 1 - -2\nLET b = a + +2\nLET c = a - -b * -1\n");
    assert!(o.contains("a = 1- -2;\n"));
    assert!(o.contains("b = a+ +2;\n"));
    assert!(o.contains("c = a- -b* -1;\n"));
    assert!(!o.contains("--"));
    assert!(!o.contains("++"));
}

#[test]
fn chained_comparison() {
    let o = out("IF 1 < 2 == 1 THEN\nENDIF\n");
    assert!(o.contains("if(1<2==1){\n}\n"));
}

#[test]
fn translation_is_deterministic() {
    let src = "LET a = 1.5\nLABEL l\nIF a >= 1 THEN\nGOTO l\nENDIF\n";
    assert_eq!(translate(src.to_string()).unwrap(), translate(src.to_string()).unwrap());
}

#[test]
fn leading_newlines_and_comments() {
    let o = out("\n\n# a comment\nPRINT 1.25\n");
    assert!(o.contains("printf(\"%.2f\\n\", (float)(1.25));\n"));
}

#[test]
fn empty_program() {
    assert_eq!(out(""), format!("{}return 0;\n}}\n", PRE));
}

#[test]
fn missing_newline_after_statement_fails() {
    match translate("PRINT 1 PRINT 2\n".to_string()) {
        Err(TranslateError::Expected(want, got)) => {
            assert_eq!(want, TokenType::NEWLINE);
            assert_eq!(got, TokenType::PRINT);
        }
        other => panic!("unexpected {:?}", other),
    }
}

#[test]
fn invalid_statement_fails() {
    match translate("THEN\n".to_string()) {
        Err(TranslateError::BadStatement(t, _)) => assert_eq!(t, "THEN"),
        other => panic!("unexpected {:?}", other),
    }
}

#[test]
fn condition_without_comparison_fails() {
    match translate("IF 1 THEN\nENDIF\n".to_string()) {
        Err(TranslateError::NoComparison(t)) => assert_eq!(t, "THEN"),
        other => panic!("unexpected {:?}", other),
    }
}

#[test]
fn bad_operand_fails() {
    match translate("LET a = *\n".to_string()) {
        Err(TranslateError::BadPrimary(t)) => assert_eq!(t, "*"),
        other => panic!("unexpected {:?}", other),
    }
}

#[test]
fn lexical_error_surfaces() {
    match translate("PRINT \"50%\"\n".to_string()) {
        Err(TranslateError::Lex(teenytiny::lexer::LexError::IllegalStringChar(c, p))) => {
            assert_eq!(c, '%');
            assert_eq!(p, 9);
        }
        other => panic!("unexpected {:?}", other),
    }
}

#[test]
fn parser_program_fills_both_streams() {
    let mut p = Parser::new("LET v = 2\nPRINT v * v\n".to_string(), "prog.c".to_string());
    assert!(p.program().is_ok());
    assert!(p.check_token(TokenType::EOF));
    assert!(p.check_peek(TokenType::EOF));
    assert_eq!(p.emitter.header, format!("{}float v;\n", PRE));
    assert_eq!(
        p.emitter.code,
        "v = 2;\nprintf(\"%.2f\\n\", (float)(v*v));\nreturn 0;\n}\n"
    );
    assert_eq!(p.emitter.output_filename, "prog.c");
}
