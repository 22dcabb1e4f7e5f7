use crystalrake::lexer::{JsonCharToken, JsonLexer, JsonNumberToken, JsonToken};

#[test]
fn tokenize_null() {
    let mut lexer = JsonLexer::new("null");
    match lexer.tokenize() {
        Ok(tokens) => {
            let v = Vec::from([JsonToken::Null]);
            assert!(v.iter().eq(tokens.tokens.iter()), "{:?}", tokens.tokens);
        },
        Err(e) => {
            panic!("{:?}", e);
        },
    }
}

#[test]
fn tokenize_number_with_terminator() {
    let mut lexer = JsonLexer::new("[12]");
    let tokens = lexer.tokenize().unwrap().tokens;
    let expected = Vec::from([
        JsonToken::BeginArray,
        JsonToken::Number(JsonNumberToken {
            is_minus: false,
            integer: "12".to_string(),
            frac: String::new(),
            exp: String::new(),
        }),
        JsonToken::EndArray,
    ]);
    assert_eq!(tokens, expected);
}

#[test]
fn tokenize_full_number() {
    let mut lexer = JsonLexer::new("-12.25e+3");
    let tokens = lexer.tokenize().unwrap().tokens;
    let expected = Vec::from([JsonToken::Number(JsonNumberToken {
        is_minus: true,
        integer: "12".to_string(),
        frac: "25".to_string(),
        exp: "+3".to_string(),
    })]);
    assert_eq!(tokens, expected);
}

#[test]
fn tokenize_exponent_without_sign() {
    let mut lexer = JsonLexer::new("1e5");
    let tokens = lexer.tokenize().unwrap().tokens;
    let expected = Vec::from([JsonToken::Number(JsonNumberToken {
        is_minus: false,
        integer: "1".to_string(),
        frac: String::new(),
        exp: "5".to_string(),
    })]);
    assert_eq!(tokens, expected);
}

#[test]
fn tokenize_string_escapes() {
    let mut lexer = JsonLexer::new(r#""a\tb\u0041""#);
    let tokens = lexer.tokenize().unwrap().tokens;
    let expected = Vec::from([JsonToken::String(Vec::from([
        JsonCharToken::UnEscaped('a'),
        JsonCharToken::Escape('\t'),
        JsonCharToken::UnEscaped('b'),
        JsonCharToken::Unicode(0x41),
    ]))]);
    assert_eq!(tokens, expected);
}

#[test]
fn tokenize_whitespace_tokens() {
    let mut lexer = JsonLexer::new(" \ttrue");
    let tokens = lexer.tokenize().unwrap().tokens;
    let expected = Vec::from([
        JsonToken::WhiteSpace(' '),
        JsonToken::WhiteSpace('\t'),
        JsonToken::True,
    ]);
    assert_eq!(tokens, expected);
}
