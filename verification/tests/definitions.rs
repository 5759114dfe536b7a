use csm::defs::{parse_pieces, TokenDef, TokenDefs};
use csm::error::ParseError;
use csm::token::Token;

fn ident(text: &str) -> Token {
    Token::Ident(text.to_string())
}

fn def(name: &str, value: &str) -> TokenDef {
    TokenDef { name: name.to_string(), value: value.to_string() }
}

fn list(defs: &TokenDefs) -> Vec<TokenDef> {
    (0..defs.len()).map(|i| defs.get(i).unwrap().clone()).collect()
}

#[test]
fn color_and_reference() {
    let tokens = vec![
        ident("red"),
        Token::Colon,
        Token::Hash,
        ident("EE0F0F"),
        Token::Comma,
        ident("danger"),
        Token::Colon,
        Token::Dollar,
        ident("red"),
        Token::Comma,
    ];
    let defs = TokenDefs::parse(&tokens).unwrap();
    assert_eq!(list(&defs), vec![def("red", "#EE0F0F"), def("danger", "var(--red)")]);
    assert_eq!(defs.to_css(), ":root { --red: #EE0F0F; --danger: var(--red); }");
}

#[test]
fn pieces_are_written_one_behind_the_other() {
    let tokens = vec![
        ident("brand"),
        Token::Hyphen,
        ident("mix"),
        Token::Colon,
        Token::Hash,
        ident("abc"),
        Token::Hash,
        ident("def"),
    ];
    let (parsed, next) = TokenDef::parse(&tokens, 0).unwrap();
    assert_eq!(parsed, def("brand-mix", "#abc#def"));
    assert_eq!(next, 8);
    assert_eq!(TokenDef::parse(&tokens, 8), Err(ParseError::MissingColon));
    assert_eq!(TokenDef::parse(&tokens, 2), Ok((def("mix", "#abc#def"), 8)));
    assert_eq!(parse_pieces(&tokens, 4, "x"), Ok(("#abc#def".to_string(), 8)));
    assert_eq!(parse_pieces(&tokens, 6, "x"), Ok(("#def".to_string(), 8)));
    assert_eq!(parse_pieces(&tokens, 8, "x"), Ok((String::new(), 8)));
    assert_eq!(parse_pieces(&tokens, 5, "x"), Err(ParseError::UnexpectedToken("x".to_string())));
}

#[test]
fn later_definition_replaces_the_earlier() {
    let tokens = vec![
        ident("a"),
        Token::Colon,
        Token::Hash,
        ident("one"),
        Token::Comma,
        ident("b"),
        Token::Colon,
        Token::Hash,
        ident("two"),
        Token::Comma,
        ident("a"),
        Token::Colon,
        Token::Dollar,
        ident("b"),
    ];
    let defs = TokenDefs::parse(&tokens).unwrap();
    assert_eq!(list(&defs), vec![def("a", "var(--b)"), def("b", "#two")]);
}

#[test]
fn no_tokens_are_no_definitions() {
    let defs = TokenDefs::parse(&vec![]).unwrap();
    assert_eq!(defs.len(), 0);
    assert_eq!(defs.to_css(), ":root { }");
}

#[test]
fn definition_errors() {
    let parse = |tokens: Vec<Token>| TokenDefs::parse(&tokens).map(|d| list(&d));
    // the name ends at a token that is no colon
    assert_eq!(
        parse(vec![ident("red"), Token::Hash, ident("f00")]),
        Err(ParseError::UnexpectedToken("red".to_string()))
    );
    // no name at all
    assert_eq!(
        parse(vec![Token::Colon, Token::Hash, ident("f00")]),
        Err(ParseError::UnexpectedToken(String::new()))
    );
    // the tokens end behind the name
    assert_eq!(parse(vec![ident("red")]), Err(ParseError::MissingColon));
    assert_eq!(parse(vec![ident("red"), Token::Hyphen]), Err(ParseError::MissingColon));
    // `$` without an identifier
    assert_eq!(
        parse(vec![ident("red"), Token::Colon, Token::Dollar]),
        Err(ParseError::MissingVariableIdentifier)
    );
    assert_eq!(
        parse(vec![ident("red"), Token::Colon, Token::Dollar, Token::Comma]),
        Err(ParseError::MissingVariableIdentifier)
    );
    // something behind a reference that is no comma
    assert_eq!(
        parse(vec![ident("red"), Token::Colon, Token::Dollar, ident("a"), ident("b")]),
        Err(ParseError::UnexpectedToken("red".to_string()))
    );
    // no value
    assert_eq!(
        parse(vec![ident("red"), Token::Colon]),
        Err(ParseError::UnexpectedToken("red".to_string()))
    );
    assert_eq!(
        parse(vec![ident("red"), Token::Colon, Token::Comma]),
        Err(ParseError::UnexpectedToken("red".to_string()))
    );
    // a piece without its `#`, and a `#` without its identifier
    assert_eq!(
        parse(vec![ident("red"), Token::Colon, ident("f00")]),
        Err(ParseError::UnexpectedToken("red".to_string()))
    );
    assert_eq!(
        parse(vec![ident("red"), Token::Colon, Token::Hash, ident("f"), ident("g")]),
        Err(ParseError::UnexpectedToken("red".to_string()))
    );
    assert_eq!(
        parse(vec![ident("red"), Token::Colon, Token::Hash]),
        Err(ParseError::UnexpectedToken("red".to_string()))
    );
    assert_eq!(
        parse(vec![
            ident("red"),
            Token::Colon,
            Token::Hash,
            Token::Int { digits: "123".to_string(), unit: String::new() }
        ]),
        Err(ParseError::UnexpectedToken("red".to_string()))
    );
    // an error in a later definition fails the whole
    assert_eq!(
        parse(vec![ident("a"), Token::Colon, Token::Hash, ident("f"), Token::Comma, ident("b")]),
        Err(ParseError::MissingColon)
    );
}
