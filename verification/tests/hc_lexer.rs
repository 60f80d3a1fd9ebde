use harpy::hc::tokens::{generate_tokens, Token};

fn scan(input: &str) -> Vec<(Result<Token, ()>, String)> {
    generate_tokens(input)
        .into_iter()
        .map(|s| (s.token, s.slice))
        .collect()
}

#[test]
fn route_tokens() {
    let got = scan("## d\nGET /x main h $run 12 + - =");
    let want = vec![
        (Ok(Token::Docs), "## d".to_string()),
        (Ok(Token::Get), "GET".to_string()),
        (Ok(Token::Path), "/x".to_string()),
        (Ok(Token::Fn), "main".to_string()),
        (Ok(Token::Identifier), "h".to_string()),
        (Ok(Token::Execute), "$run".to_string()),
        (Ok(Token::Number), "12".to_string()),
        (Ok(Token::Plus), "+".to_string()),
        (Ok(Token::Minus), "-".to_string()),
        (Ok(Token::Equal), "=".to_string()),
    ];
    assert_eq!(got, want);
}

#[test]
fn route_language_has_no_braces_strings_or_keywords_beyond_main_and_get() {
    let got = scan("{ \"s\" } return print fn");
    let want = vec![
        (Err(()), "{".to_string()),
        (Err(()), "\"".to_string()),
        (Ok(Token::Identifier), "s".to_string()),
        (Err(()), "\"".to_string()),
        (Err(()), "}".to_string()),
        (Ok(Token::Identifier), "return".to_string()),
        (Ok(Token::Identifier), "print".to_string()),
        (Ok(Token::Identifier), "fn".to_string()),
    ];
    assert_eq!(got, want);
}

#[test]
fn route_comments_and_whitespace_are_dropped() {
    assert_eq!(scan("# all gone\n  \t"), vec![]);
    assert_eq!(scan(""), vec![]);
}
