use teenytiny::emitter::Emitter;

#[test]
fn header_precedes_body() {
    let mut e = Emitter::new("out.c".to_string());
    e.emit("x = ".to_string());
    e.emit_line("1;".to_string());
    e.header_line("float x;".to_string());
    assert_eq!(e.header, "float x;\n");
    assert_eq!(e.code, "x = 1;\n");
    assert_eq!(e.materialize(), "float x;\nx = 1;\n");
    assert_eq!(e.output_filename, "out.c");
}
