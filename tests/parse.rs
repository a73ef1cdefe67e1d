use nginx_config_parser::{tokenize, LexError, Structure, Token};

fn word(s: &str) -> Token {
    Token::Word(s.to_string())
}

fn stmt(args: Vec<Token>) -> Structure {
    Structure::Statement { args }
}

fn block(args: Vec<Token>, children: Vec<Structure>) -> Structure {
    Structure::Block { args, children }
}

fn has_comment(s: &Structure) -> bool {
    match s {
        Structure::Statement { args } => args.iter().any(|t| matches!(t, Token::Comment(_))),
        Structure::Block { args, children } => {
            args.iter().any(|t| matches!(t, Token::Comment(_))) || children.iter().any(has_comment)
        }
    }
}

fn render(s: &Structure, out: &mut Vec<String>) {
    match s {
        Structure::Statement { args } => {
            for a in args {
                out.push(a.to_string());
            }
            out.push(";".to_string());
        }
        Structure::Block { args, children } => {
            for a in args {
                out.push(a.to_string());
            }
            out.push("{".to_string());
            for c in children {
                render(c, out);
            }
            out.push("}".to_string());
        }
    }
}

#[test]
fn single_statement() {
    let root = Structure::parse("worker_processes 1;").unwrap();
    assert_eq!(root, block(vec![], vec![stmt(vec![word("worker_processes"), word("1")])]));
}

#[test]
fn nested_blocks() {
    let root = Structure::parse("http { server { listen 80; } }").unwrap();
    let expected = block(
        vec![],
        vec![block(
            vec![word("http")],
            vec![block(vec![word("server")], vec![stmt(vec![word("listen"), word("80")])])],
        )],
    );
    assert_eq!(root, expected);
}

#[test]
fn comments_never_become_arguments() {
    let text = "# head\nuser nginx; # trailing\nhttp { # open\n  gzip on;\n# inside\n}\n";
    let root = Structure::parse(text).unwrap();
    assert!(!has_comment(&root));
    let expected = block(
        vec![],
        vec![
            stmt(vec![word("user"), word("nginx")]),
            block(vec![word("http")], vec![stmt(vec![word("gzip"), word("on")])]),
        ],
    );
    assert_eq!(root, expected);
}

#[test]
fn quoted_string_keeps_quotes() {
    let root = Structure::parse("add_header X-Test \"a b c\";").unwrap();
    match root {
        Structure::Block { args, children } => {
            assert!(args.is_empty());
            assert_eq!(children.len(), 1);
            match &children[0] {
                Structure::Statement { args } => {
                    assert_eq!(args.len(), 3);
                    assert_eq!(args[2], Token::QuotedString("\"a b c\"".to_string()));
                    assert_eq!(args[2].to_string(), "\"a b c\"");
                }
                _ => panic!("expected a statement"),
            }
        }
        _ => panic!("expected a block"),
    }
}

#[test]
fn unknown_character_is_a_lexical_error() {
    assert_eq!(Structure::parse("a @;"), Err("2..3".to_string()));
    assert_eq!(tokenize("a @;"), Err(LexError { start: 2, end: 3 }));
}

#[test]
fn error_span_counts_bytes() {
    // 'é' takes two bytes, '©' is not alphanumeric and takes two bytes.
    assert_eq!(Structure::parse("é ©;"), Err("3..5".to_string()));
}

#[test]
fn unclosed_block_is_unreachable() {
    let root = Structure::parse("a { b;").unwrap();
    assert_eq!(root, block(vec![], vec![]));
}

#[test]
fn unclosed_block_after_statement() {
    let root = Structure::parse("x 1; a { b; c { d; }").unwrap();
    assert_eq!(root, block(vec![], vec![stmt(vec![word("x"), word("1")])]));
}

#[test]
fn trailing_statement_joins_root_header() {
    let root = Structure::parse("a; b c").unwrap();
    assert_eq!(root, block(vec![word("b"), word("c")], vec![stmt(vec![word("a")])]));
}

#[test]
fn close_ends_pending_statement() {
    let root = Structure::parse("x { y }").unwrap();
    assert_eq!(root, block(vec![], vec![block(vec![word("x")], vec![stmt(vec![word("y")])])]));
}

#[test]
fn excess_close_is_ignored() {
    let root = Structure::parse("a; } b;").unwrap();
    assert_eq!(root, block(vec![], vec![stmt(vec![word("a")]), stmt(vec![word("b")])]));
}

#[test]
fn excess_close_flushes_pending() {
    let root = Structure::parse("a }").unwrap();
    assert_eq!(root, block(vec![], vec![stmt(vec![word("a")])]));
}

#[test]
fn bare_semicolons_are_ignored() {
    let root = Structure::parse(";; a;;").unwrap();
    assert_eq!(root, block(vec![], vec![stmt(vec![word("a")])]));
}

#[test]
fn empty_input() {
    assert_eq!(Structure::parse("").unwrap(), block(vec![], vec![]));
    assert_eq!(Structure::parse(" \t\n").unwrap(), block(vec![], vec![]));
}

#[test]
fn braced_string_argument() {
    let root = Structure::parse("location ~ (\\.php|\\.cgi) { deny all; }").unwrap();
    let expected = block(
        vec![],
        vec![block(
            vec![word("location"), word("~"), Token::BracedString("(\\.php|\\.cgi)".to_string())],
            vec![stmt(vec![word("deny"), word("all")])],
        )],
    );
    assert_eq!(root, expected);
}

#[test]
fn empty_parentheses_fail() {
    assert_eq!(Structure::parse("a ();"), Err("2..3".to_string()));
}

#[test]
fn unterminated_quote_fails() {
    assert_eq!(Structure::parse("a \"bc;"), Err("2..3".to_string()));
}

#[test]
fn comment_needs_newline() {
    assert_eq!(Structure::parse("a;\n# end"), Err("3..4".to_string()));
    assert!(Structure::parse("a;\n# end\n").is_ok());
}

#[test]
fn carriage_return_fails() {
    assert_eq!(Structure::parse("a;\r\n"), Err("2..3".to_string()));
}

#[test]
fn word_character_set() {
    let text = "proxy_pass http://[::1]:8080/a-b+c!d*e~f'g.h=i^j$k;";
    let root = Structure::parse(text).unwrap();
    assert_eq!(
        root,
        block(vec![], vec![stmt(vec![word("proxy_pass"), word("http://[::1]:8080/a-b+c!d*e~f'g.h=i^j$k")])])
    );
}

#[test]
fn unicode_letters_form_words() {
    let root = Structure::parse("server_name éxample;").unwrap();
    assert_eq!(root, block(vec![], vec![stmt(vec![word("server_name"), word("éxample")])]));
}

#[test]
fn tokens_in_source_order() {
    let toks = tokenize("a \"q\" (r);\n# c\n{}").unwrap();
    assert_eq!(
        toks,
        vec![
            word("a"),
            Token::QuotedString("\"q\"".to_string()),
            Token::BracedString("(r)".to_string()),
            Token::Semicolon,
            Token::Newline,
            Token::Comment("# c\n".to_string()),
            Token::BracketOpen,
            Token::BracketClose,
        ]
    );
}

#[test]
fn token_text() {
    assert_eq!(Token::BracketOpen.to_string(), "{");
    assert_eq!(Token::BracketClose.to_string(), "}");
    assert_eq!(Token::Semicolon.to_string(), ";");
    assert_eq!(Token::Newline.to_string(), "\n");
    assert_eq!(Token::Comment("# x\n".to_string()).to_string(), "# x\n");
    assert_eq!(word("listen").to_string(), "listen");
}

#[test]
fn round_trip_of_balanced_input() {
    let text = "events { worker_connections 1024; }\n# c\nhttp {\n  include mime.types;\n  server { listen 80 default_server; location / { root \"/var/www\"; } }\n}\n";
    let root = Structure::parse(text).unwrap();
    let mut out = Vec::new();
    match &root {
        Structure::Block { args, children } => {
            assert!(args.is_empty());
            for c in children {
                render(c, &mut out);
            }
        }
        _ => panic!("expected a block"),
    }
    let expected: Vec<String> = tokenize(text)
        .unwrap()
        .iter()
        .filter(|t| !matches!(t, Token::Comment(_) | Token::Newline))
        .map(|t| t.to_string())
        .collect();
    assert_eq!(out, expected);
}

#[test]
fn args_accessor_changes_in_place() {
    let mut s = stmt(vec![word("a")]);
    s.args().push(word("b"));
    assert_eq!(s, stmt(vec![word("a"), word("b")]));
    let mut b = block(vec![word("http")], vec![]);
    assert_eq!(b.args().len(), 1);
    b.children().push(stmt(vec![word("x")]));
    assert_eq!(b, block(vec![word("http")], vec![stmt(vec![word("x")])]));
}
