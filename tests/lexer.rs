use lox_rs::lexer::{LexError, Lexer, TokenKind};

fn scan(text: &str) -> Result<Vec<TokenKind>, LexError> {
    Lexer::new(text.to_string()).tokenize()
}

fn ident(s: &str) -> TokenKind {
    TokenKind::Identifier(s.to_string())
}

#[test]
fn tokenize_hello() {
    let mut lexer = Lexer::new("print \"Hello, World!\";\n".to_string());

    let hello_tokens = vec![
        TokenKind::Print,
        TokenKind::String("Hello, World!".to_string()),
        TokenKind::SemiColon,
    ];

    let mut tokens = lexer.clone();
    let token_vec = tokens.tokenize().unwrap();
    assert_eq!(token_vec, hello_tokens);

    for expected in hello_tokens {
        assert_eq!(lexer.next_token(), Ok(Some(expected)));
    }
    for _ in 0..4 {
        assert_eq!(lexer.next_token(), Ok(None));
    }
}

#[test]
fn tokenize_all() {
    let fibonacci = r#"
        fun main() {
            fun fibonacci(n) {
                if (n < 2) {
                    return 0;
                } else {
                    return fibonacci(n-1) + fibonacci(n-2);
                }
            }

            var n = 10;

            print "The fibonacci of 10 is:";
            print n;
        }

        while(true) {
            main();
        }
    "#;

    let mut lexer = Lexer::new(fibonacci.to_string());
    let tokens = lexer.tokenize().unwrap();

    println!("{:?}", tokens);
    assert_eq!(tokens[0], TokenKind::Fun);
    assert_eq!(tokens[1], ident("main"));
    assert_eq!(tokens[tokens.len() - 1], TokenKind::RightBrace);
    assert!(tokens.contains(&TokenKind::Number(10)));
    assert!(tokens.contains(&TokenKind::String("The fibonacci of 10 is:".to_string())));
    assert_eq!(lexer.next_token(), Ok(None));
}

#[test]
fn single_character_tokens() {
    assert_eq!(
        scan("(){},.-+;/*"),
        Ok(vec![
            TokenKind::LeftParen,
            TokenKind::RightParen,
            TokenKind::LeftBrace,
            TokenKind::RightBrace,
            TokenKind::Comma,
            TokenKind::Dot,
            TokenKind::Minus,
            TokenKind::Plus,
            TokenKind::SemiColon,
            TokenKind::Slash,
            TokenKind::Star,
        ])
    );
}

#[test]
fn short_and_long_operators() {
    assert_eq!(scan("!"), Ok(vec![TokenKind::Bang]));
    assert_eq!(scan("!="), Ok(vec![TokenKind::BangEqual]));
    assert_eq!(scan("="), Ok(vec![TokenKind::Equal]));
    assert_eq!(scan("=="), Ok(vec![TokenKind::EqualEqual]));
    assert_eq!(scan(">"), Ok(vec![TokenKind::Greater]));
    assert_eq!(scan(">="), Ok(vec![TokenKind::GreaterEqual]));
    assert_eq!(scan("<"), Ok(vec![TokenKind::Less]));
    assert_eq!(scan("<="), Ok(vec![TokenKind::LessEqual]));
    assert_eq!(scan("! ="), Ok(vec![TokenKind::Bang, TokenKind::Equal]));
    assert_eq!(scan("==="), Ok(vec![TokenKind::EqualEqual, TokenKind::Equal]));
}

#[test]
fn numbers() {
    assert_eq!(scan("123"), Ok(vec![TokenKind::Number(123)]));
    assert_eq!(scan("0"), Ok(vec![TokenKind::Number(0)]));
    assert_eq!(scan("007"), Ok(vec![TokenKind::Number(7)]));
    assert_eq!(
        scan("9223372036854775807"),
        Ok(vec![TokenKind::Number(i64::MAX)])
    );
    assert_eq!(scan("12.5"), Ok(vec![
        TokenKind::Number(12),
        TokenKind::Dot,
        TokenKind::Number(5),
    ]));
    assert_eq!(scan("-4"), Ok(vec![TokenKind::Minus, TokenKind::Number(4)]));
}

#[test]
fn number_overflow() {
    assert_eq!(scan("9223372036854775808"), Err(LexError::InvalidNumber));
    assert_eq!(scan("1 99999999999999999999999"), Err(LexError::InvalidNumber));
}

#[test]
fn strings() {
    assert_eq!(scan("\"\""), Ok(vec![TokenKind::String(String::new())]));
    assert_eq!(
        scan("\"a b\"\"c\""),
        Ok(vec![
            TokenKind::String("a b".to_string()),
            TokenKind::String("c".to_string()),
        ])
    );
    assert_eq!(
        scan("\"line\nbreak\""),
        Ok(vec![TokenKind::String("line\nbreak".to_string())])
    );
}

#[test]
fn unterminated_string() {
    assert_eq!(scan("\"abc"), Err(LexError::UnterminatedString));
    assert_eq!(scan("print \""), Err(LexError::UnterminatedString));
}

#[test]
fn keywords_and_identifiers() {
    assert_eq!(scan("fun"), Ok(vec![TokenKind::Fun]));
    assert_eq!(scan("funny"), Ok(vec![ident("funny")]));
    assert_eq!(scan("Fun"), Ok(vec![ident("Fun")]));
    assert_eq!(
        scan("and class else false fun for if nil or print return super this true var while"),
        Ok(vec![
            TokenKind::And,
            TokenKind::Class,
            TokenKind::Else,
            TokenKind::False,
            TokenKind::Fun,
            TokenKind::For,
            TokenKind::If,
            TokenKind::Nil,
            TokenKind::Or,
            TokenKind::Print,
            TokenKind::Return,
            TokenKind::Super,
            TokenKind::This,
            TokenKind::True,
            TokenKind::Var,
            TokenKind::While,
        ])
    );
    assert_eq!(scan("x1 a2b"), Ok(vec![ident("x1"), ident("a2b")]));
}

#[test]
fn underscores_start_identifiers() {
    assert_eq!(scan("_foo"), Ok(vec![ident("_foo")]));
    assert_eq!(scan("_"), Ok(vec![ident("_")]));
    assert_eq!(scan("foo_bar"), Ok(vec![ident("foo"), ident("_bar")]));
}

#[test]
fn unicode_identifiers() {
    assert_eq!(scan("héllo"), Ok(vec![ident("héllo")]));
    assert_eq!(scan("x² y"), Ok(vec![ident("x²"), ident("y")]));
    assert_eq!(scan("λ+1"), Ok(vec![ident("λ"), TokenKind::Plus, TokenKind::Number(1)]));
}

#[test]
fn whitespace_is_skipped() {
    assert_eq!(scan(""), Ok(vec![]));
    assert_eq!(scan(" \t\r\n "), Ok(vec![]));
    assert_eq!(
        scan("\t( \n)\u{3000}a\u{a0}b "),
        Ok(vec![TokenKind::LeftParen, TokenKind::RightParen, ident("a"), ident("b")])
    );
}

#[test]
fn unknown_character() {
    assert_eq!(scan("@"), Err(LexError::UnknownToken("@".to_string())));
    assert_eq!(
        scan("a #abcdefghijklmnop"),
        Err(LexError::UnknownToken("#abcdefghi".to_string()))
    );
    assert_eq!(scan("1 ?x"), Err(LexError::UnknownToken("?x".to_string())));
}

#[test]
fn failure_is_final() {
    let mut lexer = Lexer::new("+ @ -".to_string());
    assert_eq!(lexer.next_token(), Ok(Some(TokenKind::Plus)));
    let first = lexer.next_token();
    assert_eq!(first, Err(LexError::UnknownToken("@ -".to_string())));
    assert_eq!(lexer.next_token(), first);
    assert_eq!(lexer.next_token(), first);
}

#[test]
fn rescanning_is_deterministic() {
    let text = "var x = 10; print x >= 3 != \"s\";";
    let first = scan(text);
    let second = scan(text);
    assert!(first.is_ok());
    assert_eq!(first, second);
}

#[test]
fn tokens_one_at_a_time_match_tokenize() {
    let text = "if (a <= 12) { print \"ok\"; }";
    let all = scan(text).unwrap();
    let mut lexer = Lexer::new(text.to_string());
    let mut one_by_one = Vec::new();
    while let Some(t) = lexer.next_token().unwrap() {
        one_by_one.push(t);
    }
    assert_eq!(all, one_by_one);
    assert_eq!(all.len(), 11);
}

#[test]
fn buffer_keeps_the_text() {
    let mut lexer = Lexer::new("a b".to_string());
    lexer.tokenize().unwrap();
    assert_eq!(lexer.buffer, "a b");
}

#[test]
fn multibyte_text_between_tokens() {
    assert_eq!(
        scan("\"é\" x \"日本\"+ü"),
        Ok(vec![
            TokenKind::String("é".to_string()),
            ident("x"),
            TokenKind::String("日本".to_string()),
            TokenKind::Plus,
            ident("ü"),
        ])
    );
    assert_eq!(scan("\"é"), Err(LexError::UnterminatedString));
}
