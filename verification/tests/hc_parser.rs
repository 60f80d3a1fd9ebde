use harpy::hc::tokens::route_token_kinds;
use harpy::hc::parser::{parse_program, HttpMethod, Program, Value};
use harpy::parser::ParseError;
use harpy::tokens::{generate_tokens, Token, TokenKind};

/// Tokens as the route language sees them: `return` and the other missing
/// keywords are plain identifiers.
fn route_tokens(src: &str) -> Vec<TokenKind> {
    let (tokens, lex_errors) = generate_tokens(src);
    assert!(lex_errors.is_empty());
    route_token_kinds(&tokens)
}

#[test]
fn route_kinds_turn_missing_keywords_into_identifiers() {
    let (tokens, _) = generate_tokens("fn POST PUT DELETE PATCH return print GET main x { } \"s\"");
    let kinds: Vec<Token> = route_token_kinds(&tokens).iter().map(|t| t.token).collect();
    assert_eq!(
        kinds,
        vec![
            Token::Identifier,
            Token::Identifier,
            Token::Identifier,
            Token::Identifier,
            Token::Identifier,
            Token::Identifier,
            Token::Identifier,
            Token::Get,
            Token::Fn,
            Token::Identifier,
            Token::LeftBrace,
            Token::RightBrace,
            Token::String
        ]
    );
    let routed = route_token_kinds(&tokens);
    assert_eq!(routed[5].value, "return");
    assert_eq!((routed[5].line, routed[5].column), (tokens[5].line, tokens[5].column));
}

fn parse(src: &str) -> Result<Program, Vec<ParseError>> {
    parse_program(&route_tokens(src))
}

fn errors_of(src: &str) -> Vec<(String, usize, usize)> {
    match parse(src) {
        Ok(_) => vec![],
        Err(es) => es.into_iter().map(|e| (e.message, e.line, e.column)).collect(),
    }
}

#[test]
fn parses_a_route() {
    let program = parse("## docs\nGET /X\nmain handler {\n  l = $get_any\n  s = \"x\"\n  return l\n}").unwrap();
    assert_eq!(program.routes.len(), 1);
    let r = &program.routes[0];
    assert_eq!(r.docs.as_deref(), Some("## docs"));
    assert_eq!(r.method, HttpMethod::Get);
    assert_eq!(r.path, "/X");
    assert_eq!(r.body.len(), 2);
    assert_eq!(r.body[0].name, "l");
    assert!(matches!(&r.body[0].value, Value::Execute(v) if v == "$get_any"));
    assert_eq!(r.body[1].name, "s");
    assert!(matches!(&r.body[1].value, Value::String(v) if v == "\"x\""));
}

#[test]
fn only_get_starts_a_route() {
    assert_eq!(
        errors_of("POST /a { }"),
        vec![
            ("expected 'GET' or docs line".to_string(), 1, 1),
            ("expected 'GET' or docs line".to_string(), 1, 6),
            ("expected 'GET' or docs line".to_string(), 1, 9),
            ("expected 'GET' or docs line".to_string(), 1, 11),
        ]
    );
}

#[test]
fn route_needs_a_path() {
    assert_eq!(
        errors_of("GET { }\nGET /b { }"),
        vec![("expected route path after GET".to_string(), 1, 5)]
    );
}

#[test]
fn return_keyword_is_an_identifier_and_values_are_checked() {
    let program = parse("GET /a { return 5 }").unwrap();
    assert!(program.routes[0].body.is_empty());
    assert_eq!(
        errors_of("GET /a { return /p }"),
        vec![("expected value after 'return'".to_string(), 1, 17)]
    );
    assert_eq!(
        errors_of("GET /a { return }"),
        vec![("expected return value after 'return'".to_string(), 1, 17)]
    );
}

#[test]
fn missing_closing_brace() {
    assert_eq!(
        errors_of("GET /a { x = $y"),
        vec![("expected '}' to close route body".to_string(), 1, 14)]
    );
}

#[test]
fn return_token_is_not_the_return_keyword() {
    let (tokens, _) = generate_tokens("GET /a { return x }");
    let errs: Vec<_> = parse_program(&tokens)
        .err()
        .unwrap()
        .into_iter()
        .map(|e| (e.message, e.column))
        .collect();
    assert_eq!(
        errs,
        vec![
            ("expected variable name".to_string(), 10),
            ("expected '=' after variable name".to_string(), 19),
            ("expected '}' to close route body".to_string(), 19),
        ]
    );
}

#[test]
fn empty_stream() {
    assert!(parse_program(&[]).unwrap().routes.is_empty());
}

#[test]
fn derived_routes_parse() {
    let program = parse("GET /a { }\n## one\n## two\nGET /b main h { return $x\n v = \"1\" }").unwrap();
    assert_eq!(program.routes.len(), 2);
    assert_eq!(program.routes[0].path, "/a");
    assert!(program.routes[0].docs.is_none() && program.routes[0].body.is_empty());
    let r = &program.routes[1];
    assert_eq!(r.docs.as_deref(), Some("## one\n## two"));
    assert_eq!(r.path, "/b");
    assert_eq!(r.body.len(), 1);
    assert_eq!(r.body[0].name, "v");
}
