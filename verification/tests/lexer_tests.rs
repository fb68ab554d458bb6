use tfidf_search::lexer::Lexer;

fn tokens_of_str(text: &str) -> Vec<String> {
    let chars: Vec<char> = text.chars().collect();
    let mut lexer = Lexer::new(chars.as_slice());
    let mut vec = Vec::new();
    while let Some(token) = lexer.next() {
        vec.push(token);
    }
    vec
}

#[test]
fn should_work() {
    let vec = tokens_of_str("hello 123 1.23 gl4 GL_INVALID_VALUE, who  are you! ✅");

    assert_eq!(
        vec,
        vec![
            "HELLO",
            "123",
            "1.23",
            "GL4",
            "GL_INVALID_VALUE",
            ",",
            "WHO",
            "ARE",
            "YOU",
            "!",
            "✅"
        ]
    );
}

#[test]
fn tokenizer_example_stream() {
    let vec = tokens_of_str("hello 123 1.23 gl4 GL_INVALID_VALUE, who are you! ✅");

    assert_eq!(
        vec,
        vec![
            "HELLO",
            "123",
            "1.23",
            "GL4",
            "GL_INVALID_VALUE",
            ",",
            "WHO",
            "ARE",
            "YOU",
            "!",
            "✅"
        ]
    );
}

#[test]
fn trailing_dot_splits() {
    assert_eq!(tokens_of_str("1."), vec!["1", "."]);
}

#[test]
fn empty_input_has_no_tokens() {
    assert_eq!(tokens_of_str(""), Vec::<String>::new());
    assert_eq!(tokens_of_str("   \t\n"), Vec::<String>::new());
}

#[test]
fn numbers_with_inner_dots() {
    assert_eq!(tokens_of_str("1.2.3"), vec!["1.2.3"]);
    assert_eq!(tokens_of_str("12..3"), vec!["12", ".", ".", "3"]);
    assert_eq!(tokens_of_str("7.x"), vec!["7", ".", "X"]);
}

#[test]
fn words_keep_digits_and_underscores() {
    assert_eq!(tokens_of_str("a_b2c d3"), vec!["A_B2C", "D3"]);
    assert_eq!(tokens_of_str("x-y"), vec!["X", "-", "Y"]);
}
