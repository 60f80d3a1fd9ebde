use harpy::tokens::{generate_tokens, line_column_at, Token};

fn kinds(input: &str) -> Vec<(Token, String, usize, usize)> {
    let (tokens, _) = generate_tokens(input);
    tokens
        .into_iter()
        .map(|t| (t.token, t.value, t.line, t.column))
        .collect()
}

fn errors(input: &str) -> Vec<(String, usize, usize)> {
    let (_, errors) = generate_tokens(input);
    errors
        .into_iter()
        .map(|e| (e.value, e.line, e.column))
        .collect()
}

fn tok(t: Token, v: &str, line: usize, column: usize) -> (Token, String, usize, usize) {
    (t, v.to_string(), line, column)
}

#[test]
fn lexes_a_block() {
    let got = kinds("GET /x\nmain handler {\n  l = $get_any\n  return l\n}");
    let want = vec![
        tok(Token::Get, "GET", 1, 1),
        tok(Token::Path, "/x", 1, 5),
        tok(Token::Fn, "main", 2, 1),
        tok(Token::Identifier, "handler", 2, 6),
        tok(Token::LeftBrace, "{", 2, 14),
        tok(Token::Identifier, "l", 3, 3),
        tok(Token::Equal, "=", 3, 5),
        tok(Token::Execute, "$get_any", 3, 7),
        tok(Token::Return, "return", 4, 3),
        tok(Token::Identifier, "l", 4, 10),
        tok(Token::RightBrace, "}", 5, 1),
    ];
    assert_eq!(got, want);
    assert!(errors("GET /x\nmain handler {\n  l = $get_any\n  return l\n}").is_empty());
}

#[test]
fn keywords_win_only_on_the_whole_word() {
    let got = kinds("main mainx fn fnord GET GETS get return print POST PUT DELETE PATCH");
    let want = vec![
        tok(Token::Fn, "main", 1, 1),
        tok(Token::Identifier, "mainx", 1, 6),
        tok(Token::Function, "fn", 1, 12),
        tok(Token::Identifier, "fnord", 1, 15),
        tok(Token::Get, "GET", 1, 21),
        tok(Token::Identifier, "GETS", 1, 25),
        tok(Token::Identifier, "get", 1, 30),
        tok(Token::Return, "return", 1, 34),
        tok(Token::Print, "print", 1, 41),
        tok(Token::Post, "POST", 1, 47),
        tok(Token::Put, "PUT", 1, 52),
        tok(Token::Delete, "DELETE", 1, 56),
        tok(Token::Patch, "PATCH", 1, 63),
    ];
    assert_eq!(got, want);
}

#[test]
fn longest_match_splits_numbers_from_names() {
    let got = kinds("123abc _x9 7");
    let want = vec![
        tok(Token::Number, "123", 1, 1),
        tok(Token::Identifier, "abc", 1, 4),
        tok(Token::Identifier, "_x9", 1, 8),
        tok(Token::Number, "7", 1, 12),
    ];
    assert_eq!(got, want);
}

#[test]
fn paths_executes_and_punctuation() {
    let got = kinds("/a/b-c_d $x/y-z+-=(){}/ $");
    let want = vec![
        tok(Token::Path, "/a/b-c_d", 1, 1),
        tok(Token::Execute, "$x/y-z", 1, 10),
        tok(Token::Plus, "+", 1, 16),
        tok(Token::Minus, "-", 1, 17),
        tok(Token::Equal, "=", 1, 18),
        tok(Token::LeftParent, "(", 1, 19),
        tok(Token::RightParent, ")", 1, 20),
        tok(Token::LeftBrace, "{", 1, 21),
        tok(Token::RightBrace, "}", 1, 22),
        tok(Token::Path, "/", 1, 23),
        tok(Token::Execute, "$", 1, 25),
    ];
    assert_eq!(got, want);
}

#[test]
fn strings_keep_quotes_and_escapes() {
    let got = kinds("a = \"x\\\"y\" \"two\nlines\" \"\"");
    let want = vec![
        tok(Token::Identifier, "a", 1, 1),
        tok(Token::Equal, "=", 1, 3),
        tok(Token::String, "\"x\\\"y\"", 1, 5),
        tok(Token::String, "\"two\nlines\"", 1, 12),
        tok(Token::String, "\"\"", 2, 8),
    ];
    assert_eq!(got, want);
}

#[test]
fn unterminated_string_is_one_error_to_the_end() {
    assert_eq!(errors("x = \"abc def"), vec![("\"abc def".to_string(), 1, 5)]);
    assert_eq!(kinds("x = \"abc def").len(), 2);
}

#[test]
fn escaped_newline_ends_a_string_error_at_the_newline() {
    assert_eq!(errors("\"a\\\nb"), vec![("\"a\\".to_string(), 1, 1)]);
    assert_eq!(kinds("\"a\\\nb"), vec![tok(Token::Identifier, "b", 2, 1)]);
}

#[test]
fn comments_are_dropped_and_docs_kept() {
    let got = kinds("## about x\n# not kept\nGET # trailing\n##");
    let want = vec![
        tok(Token::Docs, "## about x", 1, 1),
        tok(Token::Get, "GET", 3, 1),
        tok(Token::Docs, "##", 4, 1),
    ];
    assert_eq!(got, want);
}

#[test]
fn unknown_characters_are_single_errors() {
    assert_eq!(errors("a!b"), vec![("!".to_string(), 1, 2)]);
    assert_eq!(
        kinds("a!b"),
        vec![tok(Token::Identifier, "a", 1, 1), tok(Token::Identifier, "b", 1, 3)]
    );
    assert_eq!(errors("a\r\nb"), vec![("\r".to_string(), 1, 2)]);
}

#[test]
fn non_ascii_character_is_one_error_and_columns_count_bytes() {
    assert_eq!(errors("é x"), vec![("é".to_string(), 1, 1)]);
    assert_eq!(kinds("é x"), vec![tok(Token::Identifier, "x", 1, 4)]);
    assert_eq!(kinds("\"é\" y")[1], tok(Token::Identifier, "y", 1, 6));
}

#[test]
fn empty_and_blank_input_give_nothing() {
    assert!(kinds("").is_empty());
    assert!(errors("").is_empty());
    assert!(kinds(" \t\n\x0c ").is_empty());
}

#[test]
fn line_column_counts_newlines_and_bytes() {
    let s = "ab\ncd\n\nx";
    assert_eq!(line_column_at(s, 0), (1, 1));
    assert_eq!(line_column_at(s, 2), (1, 3));
    assert_eq!(line_column_at(s, 3), (2, 1));
    assert_eq!(line_column_at(s, 6), (3, 1));
    assert_eq!(line_column_at(s, 7), (4, 1));
    assert_eq!(line_column_at(s, 8), (4, 2));
    assert_eq!(line_column_at(s, 100), (4, 2));
}

#[test]
fn token_texts_and_skipped_text_rebuild_the_input() {
    let input = "## d\nGET /p {\n  a = \"s\" # c\n}\n";
    let (tokens, errs) = generate_tokens(input);
    assert!(errs.is_empty());
    let mut rebuilt = String::new();
    let mut last_end = 0;
    for t in &tokens {
        let start = input
            .lines()
            .take(t.line - 1)
            .map(|l| l.len() + 1)
            .sum::<usize>()
            + t.column
            - 1;
        assert!(start >= last_end);
        assert!(input[last_end..start]
            .trim_start_matches(|c: char| c == ' ' || c == '\n')
            .is_empty()
            || input[last_end..start].trim().starts_with('#'));
        assert_eq!(&input[start..start + t.value.len()], t.value);
        rebuilt.push_str(&t.value);
        last_end = start + t.value.len();
    }
    assert_eq!(rebuilt, "## dGET/p{a=\"s\"}");
}

#[test]
fn positions_increase_through_the_stream() {
    let (tokens, _) = generate_tokens("a b\nc\n\n  d e");
    for w in tokens.windows(2) {
        assert!((w[0].line, w[0].column) < (w[1].line, w[1].column));
    }
}

#[test]
fn lexing_errors_come_in_source_order() {
    let got = errors("a ! b\n@ c ~\n\"open");
    assert_eq!(
        got,
        vec![
            ("!".to_string(), 1, 3),
            ("@".to_string(), 2, 1),
            ("~".to_string(), 2, 5),
            ("\"open".to_string(), 3, 1)
        ]
    );
    let positions: Vec<(usize, usize)> = got.iter().map(|e| (e.1, e.2)).collect();
    let mut sorted = positions.clone();
    sorted.sort();
    assert_eq!(positions, sorted);
}
