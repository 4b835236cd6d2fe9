use arid::lexer::Lexer;
use arid::token::{Delim, Token, TokenKind};

fn collect_tokens(src: &str) -> Vec<Token> {
    let mut lexer = Lexer::new(src);
    let mut tokens = Vec::new();
    while let Some(t) = lexer.next_token() {
        tokens.push(t);
    }
    tokens
}

#[test]
fn lexer_new() {
    let l1 = Lexer::new("Hello, world!");
    assert_eq!(l1.source(), "Hello, world!".as_bytes());
    assert_eq!(l1.offset(), 0);

    let l2 = Lexer::new("👋🌍");
    assert_eq!(l2.source(), "👋🌍".as_bytes());
    assert_eq!(l2.offset(), 0);
}

#[test]
fn next_token_raw() {
    let mut l1 = Lexer::new(r#"fn main() { println!("Hello, world!"); }"#);
    assert_eq!(l1.next_token(), Some(Token::new(TokenKind::Raw, 0, 40)));

    let mut l2 = Lexer::new("pub fn add(left: usize, right: usize) -> usize { left + right }");
    assert_eq!(l2.next_token(), Some(Token::new(TokenKind::Raw, 0, 63)));
}

#[test]
fn next_token_delim() {
    let mut l1 = Lexer::new("{{}}");
    assert_eq!(l1.next_token(), Some(Token::new(TokenKind::OpenDelim(Delim::Expr), 0, 2)));
    assert_eq!(l1.next_token(), Some(Token::new(TokenKind::CloseDelim(Delim::Expr), 2, 4)));

    let mut l2 = Lexer::new("{%%}");
    assert_eq!(l2.next_token(), Some(Token::new(TokenKind::OpenDelim(Delim::Stmt), 0, 2)));
    assert_eq!(l2.next_token(), Some(Token::new(TokenKind::CloseDelim(Delim::Stmt), 2, 4)));

    let mut l3 = Lexer::new("{##}");
    assert_eq!(l3.next_token(), Some(Token::new(TokenKind::OpenDelim(Delim::Cmnt), 0, 2)));
    assert_eq!(l3.next_token(), Some(Token::new(TokenKind::CloseDelim(Delim::Cmnt), 2, 4)));
}

#[test]
fn single_raw_run() {
    let mut lexer = Lexer::new("Hello, world!");
    assert_eq!(lexer.next_token(), Some(Token::new(TokenKind::Raw, 0, 13)));
    assert_eq!(lexer.next_token(), None);
}

#[test]
fn statement_between_raw_runs() {
    let tokens = collect_tokens("a{%b%}c");
    assert_eq!(
        tokens,
        vec![
            Token::new(TokenKind::Raw, 0, 1),
            Token::new(TokenKind::OpenDelim(Delim::Stmt), 1, 3),
            Token::new(TokenKind::Raw, 3, 4),
            Token::new(TokenKind::CloseDelim(Delim::Stmt), 4, 6),
            Token::new(TokenKind::Raw, 6, 7),
        ]
    );
}

#[test]
fn unterminated_delimiter_is_not_an_error() {
    let mut lexer = Lexer::new("{{");
    assert_eq!(lexer.next_token(), Some(Token::new(TokenKind::OpenDelim(Delim::Expr), 0, 2)));
    assert_eq!(lexer.next_token(), None);
}

#[test]
fn empty_input() {
    let mut lexer = Lexer::new("");
    assert_eq!(lexer.next_token(), None);
    assert_eq!(lexer.next_token(), None);
}

#[test]
fn end_of_input_is_idempotent() {
    let mut lexer = Lexer::new("x{{");
    assert_eq!(lexer.next_token(), Some(Token::new(TokenKind::Raw, 0, 1)));
    assert_eq!(lexer.next_token(), Some(Token::new(TokenKind::OpenDelim(Delim::Expr), 1, 3)));
    for _ in 0..4 {
        assert_eq!(lexer.next_token(), None);
        assert_eq!(lexer.offset(), 3);
    }
}

#[test]
fn triple_brace_is_greedy_left_to_right() {
    let tokens = collect_tokens("{{{");
    assert_eq!(
        tokens,
        vec![
            Token::new(TokenKind::OpenDelim(Delim::Expr), 0, 2),
            Token::new(TokenKind::Raw, 2, 3),
        ]
    );

    let tokens = collect_tokens("a{{{b");
    assert_eq!(
        tokens,
        vec![
            Token::new(TokenKind::Raw, 0, 1),
            Token::new(TokenKind::OpenDelim(Delim::Expr), 1, 3),
            Token::new(TokenKind::Raw, 3, 5),
        ]
    );
}

#[test]
fn lone_delimiter_bytes_are_raw_text() {
    let tokens = collect_tokens("a{b}c%d#e");
    assert_eq!(tokens, vec![Token::new(TokenKind::Raw, 0, 9)]);

    let tokens = collect_tokens("abc{");
    assert_eq!(tokens, vec![Token::new(TokenKind::Raw, 0, 4)]);

    let tokens = collect_tokens("%");
    assert_eq!(tokens, vec![Token::new(TokenKind::Raw, 0, 1)]);
}

#[test]
fn emoji_spans_whole_code_points() {
    let src = "👋{{x}}🌍";
    let tokens = collect_tokens(src);
    assert_eq!(
        tokens,
        vec![
            Token::new(TokenKind::Raw, 0, 4),
            Token::new(TokenKind::OpenDelim(Delim::Expr), 4, 6),
            Token::new(TokenKind::Raw, 6, 7),
            Token::new(TokenKind::CloseDelim(Delim::Expr), 7, 9),
            Token::new(TokenKind::Raw, 9, 13),
        ]
    );
    for t in &tokens {
        assert!(src.is_char_boundary(t.start));
        assert!(src.is_char_boundary(t.end));
        assert!(std::str::from_utf8(&src.as_bytes()[t.start..t.end]).is_ok());
    }
}

#[test]
fn tokens_cover_the_source_exactly() {
    for src in ["", "plain", "{{x}} and {%y%} and {#z#}", "👋{{", "{{{%%}}}", "a}}b"] {
        let tokens = collect_tokens(src);
        let mut at = 0;
        let mut rebuilt = Vec::new();
        for t in &tokens {
            assert_eq!(t.start, at);
            assert!(t.start < t.end && t.end <= src.len());
            rebuilt.extend_from_slice(&src.as_bytes()[t.start..t.end]);
            at = t.end;
        }
        assert_eq!(at, src.len());
        assert_eq!(rebuilt, src.as_bytes());
    }
}

#[test]
fn raw_runs_are_maximal() {
    for src in ["plain text", "a{b{{c}}d", "{{}}{{}}", "x%}y#}z", "{%a%}{#b#}"] {
        let tokens = collect_tokens(src);
        for pair in tokens.windows(2) {
            assert!(
                !(pair[0].kind == TokenKind::Raw && pair[1].kind == TokenKind::Raw),
                "two consecutive raw tokens in {:?}",
                src
            );
        }
    }
}

#[test]
fn delimiter_tokens_span_exactly_two_bytes() {
    let delims = ["{{", "}}", "{%", "%}", "{#", "#}"];
    for src in ["{{x}}{%y%}{#z#}", "}}{{", "#}a{#", "%%}{%%"] {
        let tokens = collect_tokens(src);
        for t in &tokens {
            if t.kind != TokenKind::Raw {
                assert_eq!(t.end - t.start, 2);
                assert!(delims.contains(&&src[t.start..t.end]));
            }
        }
    }
}
