use csm::error::ParseError;
use csm::rule::{Rule, Rules, ValueAtom};
use csm::token::Token;

fn ident(text: &str) -> Token {
    Token::Ident(text.to_string())
}

fn number(digits: &str, unit: &str) -> Token {
    Token::Int { digits: digits.to_string(), unit: unit.to_string() }
}

#[test]
fn display_and_width_give_two_classes() {
    let tokens = vec![
        ident("display"),
        Token::Colon,
        ident("flex"),
        Token::Comma,
        ident("width"),
        Token::Colon,
        number("5", "rem"),
    ];
    let rules = Rules::parse(&tokens).unwrap();
    assert_eq!(rules.class_names(), vec!["d_flex".to_string(), "w_5rem".to_string()]);
    assert_eq!(rules.to_css_classes(), ".d_flex { display: flex; }\n.w_5rem { width: 5rem; }");
}

#[test]
fn border_radius_with_pixels() {
    let tokens = vec![ident("border"), Token::Hyphen, ident("radius"), Token::Colon, number("9999", "px")];
    let rules = Rules::parse(&tokens).unwrap();
    assert_eq!(rules.0.len(), 1);
    assert_eq!(
        rules.0[0],
        Rule {
            prop: "border-radius".to_string(),
            values: vec![ValueAtom::NumericLiteral { magnitude: 9999, unit: "px".to_string() }],
        }
    );
    assert_eq!(rules.0[0].class_name(), "rounded_9999px");
    assert_eq!(rules.0[0].to_css(), "border-radius: 9999px;");
}

#[test]
fn second_display_is_rejected() {
    let tokens = vec![
        ident("display"),
        Token::Colon,
        ident("flex"),
        Token::Comma,
        ident("display"),
        Token::Colon,
        ident("block"),
    ];
    assert_eq!(Rules::parse(&tokens), Err(ParseError::DuplicateProperty("display".to_string())));
}

#[test]
fn literal_tokens_are_split_by_syn() {
    assert_eq!(Token::from_literal("9999px"), number("9999", "px"));
    assert_eq!(Token::from_literal("1_000"), number("1000", ""));
    assert_eq!(Token::from_literal("1.5"), Token::Other);
    assert_eq!(Token::from_ident("flex"), ident("flex"));
    assert_eq!(Token::from_ident("static"), Token::Other);
}

fn word(prop: &str, value: &str) -> Rule {
    Rule { prop: prop.to_string(), values: vec![ValueAtom::Identifier(value.to_string())] }
}

#[test]
fn values_keep_their_order() {
    // flex: 0 0 auto,
    let tokens = vec![
        ident("flex"),
        Token::Colon,
        number("0", ""),
        number("0", ""),
        ident("auto"),
        Token::Comma,
    ];
    let rules = Rules::parse(&tokens).unwrap();
    assert_eq!(rules.0.len(), 1);
    assert_eq!(rules.0[0].class_name(), "flex_0_0_auto");
    assert_eq!(rules.0[0].to_css(), "flex: 0 0 auto;");
    assert_eq!(rules.0[0].to_css_class(), ".flex_0_0_auto { flex: 0 0 auto; }");
}

#[test]
fn circle_pattern() {
    let mut tokens = Vec::new();
    for (prop, value) in [
        (vec!["display"], ident("flex")),
        (vec!["align", "items"], ident("center")),
        (vec!["justify", "content"], ident("center")),
        (vec!["width"], number("5", "rem")),
        (vec!["height"], number("5", "rem")),
        (vec!["border", "radius"], number("9999", "px")),
        (vec!["overflow"], ident("hidden")),
        (vec!["background", "color"], ident("red")),
        (vec!["font", "size"], number("12", "px")),
        (vec!["padding"], number("4", "")),
        (vec!["max", "width"], number("80", "ch")),
    ] {
        for (i, part) in prop.iter().enumerate() {
            if i > 0 {
                tokens.push(Token::Hyphen);
            }
            tokens.push(ident(part));
        }
        tokens.push(Token::Colon);
        tokens.push(value);
        tokens.push(Token::Comma);
    }
    let rules = Rules::parse(&tokens).unwrap();
    assert_eq!(
        rules.class_names(),
        vec![
            "d_flex",
            "items_center",
            "justify_center",
            "w_5rem",
            "h_5rem",
            "rounded_9999px",
            "overflow_hidden",
            "bg_red",
            "fs_12px",
            "p_4",
            "max_width_80ch",
        ]
    );
    assert_eq!(rules.declarations()[10], "max-width: 80ch;");
}

#[test]
fn shorthand_table() {
    let short = |prop: &str| Rule { prop: prop.to_string(), values: vec![] }.prop_ident();
    assert_eq!(short("display"), "d");
    assert_eq!(short("align-items"), "items");
    assert_eq!(short("justify-content"), "justify");
    assert_eq!(short("height"), "h");
    assert_eq!(short("width"), "w");
    assert_eq!(short("background-color"), "bg");
    assert_eq!(short("border-radius"), "rounded");
    assert_eq!(short("font-size"), "fs");
    assert_eq!(short("padding"), "p");
    assert_eq!(short("margin-left"), "margin_left");
    assert_eq!(short("-webkit-box-shadow"), "_webkit_box_shadow");
    assert_eq!(short("color"), "color");
    assert_eq!(short(""), "");
    assert_eq!(short("Display"), "Display");
}

#[test]
fn atoms_have_a_key_and_a_text() {
    let word = ValueAtom::Identifier("sans serif".to_string());
    assert_eq!(word.key(), "sans_serif");
    assert_eq!(word.rendered(), "sans_serif");
    let number = ValueAtom::NumericLiteral { magnitude: 0, unit: String::new() };
    assert_eq!(number.key(), "0");
    assert_eq!(number.rendered(), "0");
    let most = ValueAtom::NumericLiteral { magnitude: u32::MAX, unit: "px".to_string() };
    assert_eq!(most.key(), "4294967295px");
    assert_eq!(most.rendered(), "4294967295px");
    let variable = ValueAtom::VariableReference("danger".to_string());
    assert_eq!(variable.key(), "danger");
    assert_eq!(variable.rendered(), "var(--danger)");
    assert_eq!(variable.clone(), variable);
}

#[test]
fn rule_without_values() {
    let tokens = vec![ident("color"), Token::Colon, Token::Comma, ident("width"), Token::Colon];
    let rules = Rules::parse(&tokens).unwrap();
    assert_eq!(
        rules,
        Rules(vec![
            Rule { prop: "color".to_string(), values: vec![] },
            Rule { prop: "width".to_string(), values: vec![] },
        ])
    );
    assert_eq!(rules.0[0].class_name(), "color_");
    assert_eq!(rules.0[0].to_css_class(), ".color_ { color: ; }");
    assert_eq!(rules.clone(), rules);
}

#[test]
fn no_tokens_are_an_empty_set() {
    let rules = Rules::parse(&vec![]).unwrap();
    assert_eq!(rules, Rules(vec![]));
    assert_eq!(rules.class_names(), Vec::<String>::new());
    assert_eq!(rules.to_css_classes(), "");
}

#[test]
fn variable_reference_is_the_only_value() {
    let tokens = vec![
        ident("background"),
        Token::Hyphen,
        ident("color"),
        Token::Colon,
        Token::Dollar,
        ident("danger"),
        Token::Comma,
        ident("color"),
        Token::Colon,
        ident("white"),
    ];
    let rules = Rules::parse(&tokens).unwrap();
    assert_eq!(
        rules.0[0],
        Rule {
            prop: "background-color".to_string(),
            values: vec![ValueAtom::VariableReference("danger".to_string())],
        }
    );
    assert_eq!(rules.0[0].class_name(), "bg_danger");
    assert_eq!(rules.0[0].to_css(), "background-color: var(--danger);");
    assert_eq!(rules.0[1], word("color", "white"));

    // a second value behind the reference
    let tokens = vec![ident("color"), Token::Colon, Token::Dollar, ident("danger"), ident("white")];
    assert_eq!(Rules::parse(&tokens), Err(ParseError::UnexpectedToken("color".to_string())));
    let tokens = vec![ident("color"), Token::Colon, Token::Dollar, ident("a"), Token::Dollar, ident("b")];
    assert_eq!(Rules::parse(&tokens), Err(ParseError::UnexpectedToken("color".to_string())));
    // a reference behind another value
    let tokens = vec![ident("color"), Token::Colon, ident("white"), Token::Dollar, ident("danger")];
    assert_eq!(Rules::parse(&tokens), Err(ParseError::UnexpectedToken("color".to_string())));
}

#[test]
fn missing_variable_identifier() {
    let tokens = vec![ident("color"), Token::Colon, Token::Dollar];
    assert_eq!(Rules::parse(&tokens), Err(ParseError::MissingVariableIdentifier));
    let tokens = vec![ident("color"), Token::Colon, Token::Dollar, Token::Comma];
    assert_eq!(Rules::parse(&tokens), Err(ParseError::MissingVariableIdentifier));
    let tokens = vec![ident("color"), Token::Colon, Token::Dollar, number("1", "")];
    assert_eq!(Rules::parse(&tokens), Err(ParseError::MissingVariableIdentifier));
}

#[test]
fn missing_colon() {
    assert_eq!(Rules::parse(&vec![ident("display")]), Err(ParseError::MissingColon));
    assert_eq!(
        Rules::parse(&vec![ident("display"), Token::Hyphen, ident("flex")]),
        Err(ParseError::MissingColon)
    );
    assert_eq!(Rules::parse(&vec![Token::Hyphen]), Err(ParseError::MissingColon));
    let tokens = vec![ident("a"), Token::Colon, ident("b"), Token::Comma, ident("c")];
    assert_eq!(Rules::parse(&tokens), Err(ParseError::MissingColon));
}

#[test]
fn unexpected_token_names_the_property() {
    // in a name
    let tokens = vec![ident("border"), Token::Hyphen, Token::Hash, ident("radius")];
    assert_eq!(Rules::parse(&tokens), Err(ParseError::UnexpectedToken("border-".to_string())));
    let tokens = vec![ident("display"), Token::Comma];
    assert_eq!(Rules::parse(&tokens), Err(ParseError::UnexpectedToken("display".to_string())));
    let tokens = vec![ident("width"), number("5", "rem")];
    assert_eq!(Rules::parse(&tokens), Err(ParseError::UnexpectedToken("width".to_string())));
    // no name
    let tokens = vec![Token::Colon, ident("flex")];
    assert_eq!(Rules::parse(&tokens), Err(ParseError::UnexpectedToken(String::new())));
    let tokens = vec![Token::Comma];
    assert_eq!(Rules::parse(&tokens), Err(ParseError::UnexpectedToken(String::new())));
    let tokens = vec![Token::Other];
    assert_eq!(Rules::parse(&tokens), Err(ParseError::UnexpectedToken(String::new())));
    // among the values
    for bad in [Token::Colon, Token::Hash, Token::OpenBrace, Token::CloseBrace, Token::Other, Token::Hyphen] {
        let tokens = vec![ident("display"), Token::Colon, ident("flex"), bad];
        assert_eq!(Rules::parse(&tokens), Err(ParseError::UnexpectedToken("display".to_string())));
    }
    let tokens = vec![ident("margin"), Token::Colon, Token::Hyphen, ident("auto")];
    assert_eq!(Rules::parse(&tokens), Err(ParseError::UnexpectedToken("margin".to_string())));
}

#[test]
fn invalid_numeric_literal() {
    let parse = |digits: &str| Rules::parse(&vec![ident("width"), Token::Colon, number(digits, "px")]);
    assert_eq!(parse("4294967296"), Err(ParseError::InvalidNumericLiteral));
    assert_eq!(parse("99999999999999999999999999"), Err(ParseError::InvalidNumericLiteral));
    assert_eq!(parse(""), Err(ParseError::InvalidNumericLiteral));
    assert_eq!(parse("12a"), Err(ParseError::InvalidNumericLiteral));
    assert_eq!(parse("-5"), Err(ParseError::InvalidNumericLiteral));
    assert_eq!(parse("+5"), Err(ParseError::InvalidNumericLiteral));
    assert_eq!(parse("١٢"), Err(ParseError::InvalidNumericLiteral));
    assert_eq!(parse("4294967295").unwrap().0[0].class_name(), "w_4294967295px");
    assert_eq!(parse("007").unwrap().0[0].to_css(), "width: 7px;");
    assert_eq!(parse("0000000000000000000000000000001").unwrap().0[0].to_css(), "width: 1px;");
    // a negative number
    let tokens = vec![ident("margin"), Token::Colon, Token::Hyphen, number("5", "px")];
    assert_eq!(Rules::parse(&tokens), Err(ParseError::InvalidNumericLiteral));
}

#[test]
fn first_error_wins() {
    // the duplicate comes before the token that cannot be read
    let tokens = vec![
        ident("a"),
        Token::Colon,
        ident("x"),
        Token::Comma,
        ident("a"),
        Token::Colon,
        ident("y"),
        Token::Comma,
        Token::Other,
    ];
    assert_eq!(Rules::parse(&tokens), Err(ParseError::DuplicateProperty("a".to_string())));
    // the token that cannot be read comes before the duplicate
    let tokens = vec![
        ident("a"),
        Token::Colon,
        Token::Other,
        Token::Comma,
        ident("a"),
        Token::Colon,
        ident("y"),
    ];
    assert_eq!(Rules::parse(&tokens), Err(ParseError::UnexpectedToken("a".to_string())));
    // a third declaration of a property that was rejected never counts
    let tokens = vec![
        ident("a"),
        Token::Colon,
        Token::Comma,
        ident("b"),
        Token::Colon,
        Token::Comma,
        ident("b"),
        Token::Colon,
        Token::Comma,
        ident("a"),
        Token::Colon,
    ];
    assert_eq!(Rules::parse(&tokens), Err(ParseError::DuplicateProperty("b".to_string())));
}

#[test]
fn rules_are_read_from_a_position_on() {
    let tokens = vec![
        Token::OpenBrace,
        ident("display"),
        Token::Colon,
        ident("flex"),
        Token::Comma,
        ident("color"),
        Token::Colon,
        ident("red"),
        Token::CloseBrace,
    ];
    let inside = &tokens[1..8];
    assert_eq!(Rules::parse(inside), Ok(Rules(vec![word("display", "flex"), word("color", "red")])));
    assert_eq!(Rules::parse_from(inside, 4), Ok(Rules(vec![word("color", "red")])));
    assert_eq!(Rules::parse_from(inside, 7), Ok(Rules(vec![])));
    assert_eq!(Rules::parse_from(inside, 100), Ok(Rules(vec![])));
    assert_eq!(Rule::parse(inside, 0), Ok((word("display", "flex"), 4)));
    assert_eq!(Rule::parse(inside, 4), Ok((word("color", "red"), 7)));
    assert_eq!(
        Rule::parse(&tokens[..7], 5),
        Ok((Rule { prop: "color".to_string(), values: vec![] }, 7))
    );
    assert_eq!(Rule::parse(&tokens[..6], 5), Err(ParseError::MissingColon));
    assert_eq!(Rule::parse(inside, 7), Err(ParseError::MissingColon));
    assert_eq!(Rule::parse(inside, usize::MAX), Err(ParseError::MissingColon));
    assert_eq!(Rules::parse(&tokens), Err(ParseError::UnexpectedToken(String::new())));
    assert_eq!(Rules::parse_from(&tokens, 1), Err(ParseError::UnexpectedToken("color".to_string())));
}
