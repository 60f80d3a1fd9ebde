use harpy::parser::{parse_program, Assignment, HttpMethod, ParseError, Program, Value};
use harpy::tokens::generate_tokens;

fn parse(src: &str) -> Result<Program, Vec<ParseError>> {
    let (tokens, lex_errors) = generate_tokens(src);
    assert!(lex_errors.is_empty(), "unexpected lexing errors in {:?}", src);
    parse_program(&tokens)
}

fn show_value(v: &Value) -> String {
    match v {
        Value::String(s) => format!("S({})", s),
        Value::Execute(s) => format!("E({})", s),
        Value::Print(b) => format!("P({})", show_value(b)),
    }
}

fn show_body(body: &[Assignment]) -> Vec<String> {
    body.iter()
        .map(|a| format!("{}={}", a.name, show_value(&a.value)))
        .collect()
}

fn errors_of(src: &str) -> Vec<(String, usize, usize)> {
    match parse(src) {
        Ok(_) => vec![],
        Err(es) => es.into_iter().map(|e| (e.message, e.line, e.column)).collect(),
    }
}

fn err(m: &str, line: usize, column: usize) -> (String, usize, usize) {
    (m.to_string(), line, column)
}

#[test]
fn parses_the_documented_example() {
    let program = parse("GET /X\nmain handler {\n  l = $get_any\n  return l\n}").unwrap();
    assert_eq!(program.blocks.len(), 1);
    let b = &program.blocks[0];
    assert_eq!(b.docs, None);
    assert_eq!(b.method, Some(HttpMethod::Get));
    assert_eq!(b.path.as_deref(), Some("/X"));
    assert_eq!(b.handler_name.as_deref(), Some("handler"));
    assert_eq!(show_body(&b.body), vec!["l=E($get_any)", "return=S(l)"]);
}

#[test]
fn docs_lines_are_joined_with_newlines() {
    let program = parse("## one\n## two\nPOST /a { x = \"v\" }").unwrap();
    let b = &program.blocks[0];
    assert_eq!(b.docs.as_deref(), Some("## one\n## two"));
    assert_eq!(b.method, Some(HttpMethod::Post));
    assert_eq!(b.handler_name, None);
    assert_eq!(show_body(&b.body), vec!["x=S(\"v\")"]);
}

#[test]
fn every_method() {
    let program = parse("PUT /a {}\nDELETE /b {}\nPATCH /c {}\nGET /d {}").unwrap();
    let methods: Vec<_> = program.blocks.iter().map(|b| b.method).collect();
    assert_eq!(
        methods,
        vec![
            Some(HttpMethod::Put),
            Some(HttpMethod::Delete),
            Some(HttpMethod::Patch),
            Some(HttpMethod::Get)
        ]
    );
    let paths: Vec<_> = program.blocks.iter().map(|b| b.path.clone().unwrap()).collect();
    assert_eq!(paths, vec!["/a", "/b", "/c", "/d"]);
}

#[test]
fn block_without_method_is_an_error() {
    assert_eq!(errors_of("{ }"), vec![err("expected HTTP method", 1, 1)]);
    assert_eq!(
        errors_of("/x { a = \"b\" }\nGET /y {}"),
        vec![err("expected HTTP method", 1, 1)]
    );
    assert_eq!(
        errors_of("main h { }\nGET /y {}"),
        vec![err("expected HTTP method", 1, 1)]
    );
}

#[test]
fn block_without_path_is_an_error() {
    assert_eq!(
        errors_of("GET {}"),
        vec![err("expected path after HTTP method", 1, 5)]
    );
    assert_eq!(
        errors_of("GET GET /y {}"),
        vec![err("expected path after HTTP method", 1, 5)]
    );
    assert_eq!(
        errors_of("POST"),
        vec![err("expected path after HTTP method", 1, 1)]
    );
}

#[test]
fn print_statements_and_print_values() {
    let program =
        parse("GET /p {\n print(\"hi\")\n print($x)\n print(7)\n print(n)\n a = print($y)\n b = print(\"s\")\n}")
            .unwrap();
    assert_eq!(
        show_body(&program.blocks[0].body),
        vec![
            "print=S(\"hi\")",
            "print=E($x)",
            "print=S(7)",
            "print=S(n)",
            "a=P(E($y))",
            "b=P(S(\"s\"))"
        ]
    );
}

#[test]
fn return_values() {
    let program = parse("GET /r { return $x }\nGET /s { return \"q\" }\nGET /t { return 5 }").unwrap();
    let bodies: Vec<_> = program.blocks.iter().map(|b| show_body(&b.body)).collect();
    assert_eq!(
        bodies,
        vec![vec!["return=E($x)"], vec!["return=S(\"q\")"], vec!["return=S(5)"]]
    );
}

#[test]
fn empty_token_stream_is_an_empty_program() {
    let program = parse_program(&[]).unwrap();
    assert!(program.blocks.is_empty());
    let program = parse("## only docs").unwrap();
    assert!(program.blocks.is_empty());
}

#[test]
fn missing_equal_sign() {
    assert_eq!(
        errors_of("GET /a {\n x \"v\"\n}"),
        vec![err("expected '=' after variable name", 2, 4)]
    );
}

#[test]
fn missing_closing_brace_is_reported_at_the_last_token() {
    assert_eq!(
        errors_of("GET /a {\n x = \"v\""),
        vec![err("expected '}' to close block body", 2, 6)]
    );
}

#[test]
fn bad_assignment_value() {
    assert_eq!(
        errors_of("GET /a { x = y }"),
        vec![err("expected string or execute value", 1, 14)]
    );
    assert_eq!(
        errors_of("GET /a { x ="),
        vec![
            err("expected value but found end of input", 1, 12),
            err("expected '}' to close block body", 1, 12)
        ]
    );
}

#[test]
fn return_without_value() {
    assert_eq!(
        errors_of("GET /a { return }"),
        vec![err("expected return value after 'return'", 1, 17)]
    );
    assert_eq!(
        errors_of("GET /a { return = }"),
        vec![err("expected value after 'return'", 1, 17)]
    );
}

#[test]
fn bad_print_statements() {
    assert_eq!(
        errors_of("GET /a { print x }"),
        vec![
            err("expected '(' after 'print'", 1, 16),
            err("expected '=' after variable name", 1, 18),
            err("expected '}' to close block body", 1, 18),
        ]
    );
    assert_eq!(
        errors_of("GET /a { print() }"),
        vec![err("expected value inside print(...)", 1, 16)]
    );
    assert_eq!(
        errors_of("GET /a { print(=) }"),
        vec![err("expected printable value inside print(...)", 1, 16)]
    );
}

#[test]
fn missing_brace_after_path_recovers_at_the_next_method() {
    assert_eq!(
        errors_of("GET /a x = \"1\" }\nGET /b { y = \"2\" }"),
        vec![err("expected '{' or `main <handler> {` after path", 1, 8)]
    );
    assert_eq!(
        errors_of("GET /a main { }"),
        vec![err("expected handler name after 'main'", 1, 13)]
    );
    assert_eq!(
        errors_of("GET /a main h x }"),
        vec![err("expected '{' after handler name", 1, 15)]
    );
}

#[test]
fn every_error_is_collected() {
    let errs = errors_of("GET /a { x y }\nGET /b { return }\nGET /c { z = }");
    assert_eq!(
        errs,
        vec![
            err("expected '=' after variable name", 1, 12),
            err("expected return value after 'return'", 2, 17),
            err("expected string or execute value", 3, 14),
            err("expected '}' to close block body", 3, 14),
        ]
    );
}

#[test]
fn error_positions_are_token_positions() {
    for src in [
        "GET /a { x y }\nGET /b { return }\nGET /c { z = }",
        "main {",
        "GET /a { print(",
        "} } {",
        "GET /a main",
    ] {
        let (tokens, _) = generate_tokens(src);
        if let Err(errs) = parse_program(&tokens) {
            for e in errs {
                assert!(
                    tokens.iter().any(|t| t.line == e.line && t.column == e.column),
                    "{:?} in {:?}",
                    e,
                    src
                );
            }
        }
    }
}

#[test]
fn derived_program_with_every_statement_form() {
    let src = "## a\n## b\nDELETE /d main h {\n x = \"s\"\n y = $e\n z = print(n)\n return 1\n print($p)\n}\nPATCH /e {\n}";
    let program = parse(src).unwrap();
    assert_eq!(program.blocks.len(), 2);
    let b = &program.blocks[0];
    assert_eq!(b.docs.as_deref(), Some("## a\n## b"));
    assert_eq!(b.method, Some(HttpMethod::Delete));
    assert_eq!(b.path.as_deref(), Some("/d"));
    assert_eq!(b.handler_name.as_deref(), Some("h"));
    assert_eq!(
        show_body(&b.body),
        vec!["x=S(\"s\")", "y=E($e)", "z=P(S(n))", "return=S(1)", "print=E($p)"]
    );
    let b2 = &program.blocks[1];
    assert!(b2.docs.is_none() && b2.method == Some(HttpMethod::Patch));
    assert_eq!(b2.path.as_deref(), Some("/e"));
    assert!(b2.handler_name.is_none() && b2.body.is_empty());
}

#[test]
fn concatenated_streams_parse_to_concatenated_blocks() {
    let (a, _) = generate_tokens("## d\nGET /a { x = \"1\" }\nPOST /b main h { return $r }");
    let (b, _) = generate_tokens("## e\nPUT /c { print(7) }");
    let pa = parse_program(&a).unwrap();
    let pb = parse_program(&b).unwrap();
    let mut ab = generate_tokens("## d\nGET /a { x = \"1\" }\nPOST /b main h { return $r }").0;
    ab.extend(b);
    let pab = parse_program(&ab).unwrap();
    assert_eq!(pab.blocks.len(), pa.blocks.len() + pb.blocks.len());
    let show = |p: &Program| -> Vec<String> {
        p.blocks
            .iter()
            .map(|b| format!("{:?} {:?} {:?} {:?} {:?}", b.docs, b.method, b.path, b.handler_name, show_body(&b.body)))
            .collect()
    };
    let mut expected = show(&pa);
    expected.extend(show(&pb));
    assert_eq!(show(&pab), expected);
}

#[test]
fn parse_errors_come_in_source_order() {
    let errs = errors_of("{ }\nGET { }\nGET /a { x y }\nGET /b { return }\nPOST /c main { }");
    assert_eq!(
        errs,
        vec![
            err("expected HTTP method", 1, 1),
            err("expected path after HTTP method", 2, 5),
            err("expected '=' after variable name", 3, 12),
            err("expected return value after 'return'", 4, 17),
            err("expected handler name after 'main'", 5, 14),
        ]
    );
    let positions: Vec<(usize, usize)> = errs.iter().map(|e| (e.1, e.2)).collect();
    let mut sorted = positions.clone();
    sorted.sort();
    assert_eq!(positions, sorted);
}
