use ferrite::parser::{ASTNode, ParseError, Parser, Token};
use ferrite::tokenizer::tokenize;

fn kw(s: &str) -> Token {
    Token::Keyword(s.to_string())
}

fn id(s: &str) -> Token {
    Token::Identifier(s.to_string())
}

fn parse(input: &str) -> Result<ASTNode, ParseError> {
    Parser::new(tokenize(input)).parse()
}

fn select(node: ASTNode) -> (Vec<String>, String, Option<(String, String)>) {
    match node {
        ASTNode::SelectStatement { projection, table, filter } => (
            projection.into_iter().map(|i| i.0).collect(),
            table,
            filter.map(|f| (f.column, f.value)),
        ),
    }
}

#[test]
fn tokenize_splits_words_and_marks_keywords() {
    assert_eq!(
        tokenize("SELECT * FROM users"),
        vec![kw("SELECT"), Token::Operator('*'), kw("FROM"), id("users"), Token::EOF]
    );
    assert_eq!(
        tokenize("  select name email\tfrom users where id = 2 "),
        vec![
            kw("select"),
            id("name"),
            id("email"),
            kw("from"),
            id("users"),
            kw("where"),
            id("id"),
            Token::Operator('='),
            id("2"),
            Token::EOF,
        ]
    );
    assert_eq!(tokenize(""), vec![Token::EOF]);
}

#[test]
fn tokenize_splits_words_at_their_first_equals() {
    assert_eq!(tokenize("id=2"), vec![id("id"), Token::Operator('='), id("2"), Token::EOF]);
    assert_eq!(tokenize("a=b=c"), vec![id("a"), Token::Operator('='), id("b=c"), Token::EOF]);
    assert_eq!(tokenize("a="), vec![id("a="), Token::EOF]);
    assert_eq!(tokenize("=b"), vec![id("=b"), Token::EOF]);
    assert_eq!(tokenize("="), vec![Token::Operator('='), Token::EOF]);
    assert_eq!(tokenize("**"), vec![id("**"), Token::EOF]);
}

#[test]
fn tokenize_keyword_case_follows_unicode_uppercasing() {
    assert_eq!(tokenize("WhErE"), vec![kw("WhErE"), Token::EOF]);
    assert_eq!(tokenize("\u{17f}elect"), vec![kw("\u{17f}elect"), Token::EOF]);
    assert_eq!(tokenize("selects"), vec![id("selects"), Token::EOF]);
    assert_eq!(tokenize("sel\u{e9}ct"), vec![id("sel\u{e9}ct"), Token::EOF]);
}

#[test]
fn parse_select_star() {
    let (projection, table, filter) = select(parse("SELECT * FROM users").unwrap());
    assert_eq!(projection, vec!["*"]);
    assert_eq!(table, "users");
    assert_eq!(filter, None);
}

#[test]
fn parse_select_with_where() {
    let (projection, table, filter) = select(parse("SELECT name email FROM users WHERE id = 2").unwrap());
    assert_eq!(projection, vec!["name", "email"]);
    assert_eq!(table, "users");
    assert_eq!(filter, Some(("id".to_string(), "2".to_string())));
    // the tokenizer makes a lone comma an identifier
    let (projection, _, filter) = select(parse("select a , b from t where x=y").unwrap());
    assert_eq!(projection, vec!["a", ",", "b"]);
    assert_eq!(filter, Some(("x".to_string(), "y".to_string())));
    let tokens = vec![kw("select"), id("a"), Token::Punctuation(','), id("b"), kw("from"), id("t"), Token::EOF];
    let (projection, table, filter) = select(Parser::new(tokens).parse().unwrap());
    assert_eq!(projection, vec!["a", "b"]);
    assert_eq!(table, "t");
    assert_eq!(filter, None);
}

#[test]
fn parse_accepts_literal_values() {
    let tokens = vec![kw("select"), id("a"), kw("from"), id("t"), kw("where"), id("a"), Token::Operator('='), Token::Literal("v".to_string())];
    let (_, _, filter) = select(Parser::new(tokens).parse().unwrap());
    assert_eq!(filter, Some(("a".to_string(), "v".to_string())));
}

#[test]
fn parse_errors_name_the_token_found() {
    assert_eq!(parse("FROM users").unwrap_err(), ParseError::ExpectedSelect(kw("FROM")));
    assert_eq!(parse("").unwrap_err(), ParseError::ExpectedSelect(Token::EOF));
    assert_eq!(parse("SELECT a").unwrap_err(), ParseError::UnexpectedInProjection(Token::EOF));
    assert_eq!(parse("SELECT a WHERE").unwrap_err(), ParseError::UnexpectedInProjection(kw("WHERE")));
    assert_eq!(parse("SELECT * users").unwrap_err(), ParseError::ExpectedFrom(id("users")));
    assert_eq!(parse("SELECT a FROM WHERE").unwrap_err(), ParseError::ExpectedTableName(kw("WHERE")));
    assert_eq!(parse("SELECT a FROM t WHERE = 2").unwrap_err(), ParseError::ExpectedColumnName(Token::Operator('=')));
    assert_eq!(parse("SELECT a FROM t WHERE x 2").unwrap_err(), ParseError::ExpectedEquals(id("2")));
    assert_eq!(parse("SELECT a FROM t WHERE x =").unwrap_err(), ParseError::ExpectedValue(Token::EOF));
    let tokens = vec![kw("select"), Token::Punctuation(';')];
    assert_eq!(Parser::new(tokens).parse().unwrap_err(), ParseError::UnexpectedInProjection(Token::Punctuation(';')));
}

#[test]
fn parse_ignores_what_follows_the_table() {
    let (projection, table, filter) = select(parse("SELECT a FROM t ORDER BY a").unwrap());
    assert_eq!(projection, vec!["a"]);
    assert_eq!(table, "t");
    assert_eq!(filter, None);
}

#[test]
fn peek_then_next_give_the_same_token() {
    let mut p = Parser::new(vec![Token::Identifier("a".to_string()), Token::Operator('=')]);
    assert_eq!(p.peek_token(), Token::Identifier("a".to_string()));
    assert_eq!(p.next_token(), Token::Identifier("a".to_string()));
    assert_eq!(p.peek_token(), Token::Operator('='));
    assert_eq!(p.next_token(), Token::Operator('='));
    assert_eq!(p.peek_token(), Token::EOF);
    assert_eq!(p.next_token(), Token::EOF);
    assert_eq!(p.next_token(), Token::EOF);
}

#[test]
fn tokenizing_joined_text_joins_the_tokens() {
    let a = "SELECT name,";
    let b = "email FROM users WHERE id=2";
    let x = tokenize(a);
    let y = tokenize(b);
    let joined = tokenize(&format!("{} {}", a, b));
    assert_eq!(joined, [&x[..x.len() - 1], &y[..]].concat());
}
