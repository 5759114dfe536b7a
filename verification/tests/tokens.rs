use csm::order::{chars_of, text_precedes};
use csm::parser::{declares, parse_name, parse_values};
use csm::recipe::{
    find_closing_brace, parse_body, parse_choices, parse_variants, put_choice, skip_comma, Choice,
    Variant,
};
use csm::rule::{Rule, Rules, ValueAtom};
use csm::error::ParseError;
use csm::text::{
    clone_strings, decimal_string, join_strings, parse_magnitude, replace_char, same_text,
    same_texts,
};
use csm::token::{Delimiter, Token};

fn ident(text: &str) -> Token {
    Token::Ident(text.to_string())
}

fn strings(items: &[&str]) -> Vec<String> {
    items.iter().map(|s| s.to_string()).collect()
}

#[test]
fn punctuation() {
    assert_eq!(Token::from_punct('-'), Token::Hyphen);
    assert_eq!(Token::from_punct(':'), Token::Colon);
    assert_eq!(Token::from_punct(','), Token::Comma);
    assert_eq!(Token::from_punct('$'), Token::Dollar);
    assert_eq!(Token::from_punct('#'), Token::Hash);
    for c in ['.', ';', '+', '{', '}', '_', '=', '!', '%', '@'] {
        assert_eq!(Token::from_punct(c), Token::Other);
    }
}

#[test]
fn group_ends() {
    assert_eq!(Token::opening(Delimiter::Brace), Some(Token::OpenBrace));
    assert_eq!(Token::closing(Delimiter::Brace), Some(Token::CloseBrace));
    assert_eq!(Token::opening(Delimiter::Parenthesis), Some(Token::Other));
    assert_eq!(Token::closing(Delimiter::Parenthesis), Some(Token::Other));
    assert_eq!(Token::opening(Delimiter::Bracket), Some(Token::Other));
    assert_eq!(Token::closing(Delimiter::Bracket), Some(Token::Other));
    assert_eq!(Token::opening(Delimiter::Invisible), None);
    assert_eq!(Token::closing(Delimiter::Invisible), None);
}

#[test]
fn identifiers_are_no_reserved_words() {
    for text in ["flex", "display", "default", "base", "auto", "r#static", "EE0F0F", "_x", "é"] {
        assert_eq!(Token::from_ident(text), ident(text));
    }
    for text in ["static", "type", "fn", "_", "self", "true", "", "5rem", "a b", "a-b", "{"] {
        assert_eq!(Token::from_ident(text), Token::Other);
    }
    assert_eq!(Token::ident_or_other("static", true), ident("static"));
    assert_eq!(Token::ident_or_other("flex", false), Token::Other);
}

#[test]
fn integer_literals_are_split() {
    let number = |digits: &str, unit: &str| Token::Int {
        digits: digits.to_string(),
        unit: unit.to_string(),
    };
    assert_eq!(Token::from_literal("5rem"), number("5", "rem"));
    assert_eq!(Token::from_literal("4"), number("4", ""));
    assert_eq!(Token::from_literal("007px"), number("7", "px"));
    assert_eq!(Token::from_literal("0xff"), number("255", ""));
    assert_eq!(Token::from_literal("0b101u8"), number("5", "u8"));
    assert_eq!(Token::from_literal("99999999999999999999999999px"), number("99999999999999999999999999", "px"));
    for text in ["1.5", "2e3", "\"text\"", "'c'", "flex", "", "1 2", "5 rem"] {
        assert_eq!(Token::from_literal(text), Token::Other);
    }
    assert_eq!(
        Token::int_or_other(Some(("12".to_string(), "px".to_string()))),
        number("12", "px")
    );
    assert_eq!(Token::int_or_other(None), Token::Other);
    assert_eq!(number("12", "px").clone(), number("12", "px"));
}

#[test]
fn texts_are_joined_and_replaced() {
    assert_eq!(join_strings(&strings(&[]), ", "), "");
    assert_eq!(join_strings(&strings(&["a"]), ", "), "a");
    assert_eq!(join_strings(&strings(&["a", "b", "c"]), ", "), "a, b, c");
    assert_eq!(join_strings(&strings(&["", ""]), "_"), "_");
    assert_eq!(join_strings(&strings(&["a", "b"]), ""), "ab");
    assert_eq!(replace_char("margin-left-x", '-', '_'), "margin_left_x");
    assert_eq!(replace_char("", '-', '_'), "");
    assert_eq!(replace_char("---", '-', '_'), "___");
    assert_eq!(replace_char("héllo wörld", ' ', '_'), "héllo_wörld");
    assert_eq!(clone_strings(&strings(&["a", "", "c"])), strings(&["a", "", "c"]));
    assert!(same_text("abc", "abc"));
    assert!(!same_text("abc", "abd"));
    assert!(!same_text("abc", "ab"));
    assert!(same_texts(&strings(&["a", "b"]), &strings(&["a", "b"])));
    assert!(!same_texts(&strings(&["a", "b"]), &strings(&["a"])));
    assert!(!same_texts(&strings(&["a", "b"]), &strings(&["a", "c"])));
    assert!(same_texts(&strings(&[]), &strings(&[])));
}

#[test]
fn numbers_are_written_and_read() {
    assert_eq!(decimal_string(0), "0");
    assert_eq!(decimal_string(7), "7");
    assert_eq!(decimal_string(10), "10");
    assert_eq!(decimal_string(9999), "9999");
    assert_eq!(decimal_string(1_000_000), "1000000");
    assert_eq!(decimal_string(u32::MAX), "4294967295");
    assert_eq!(parse_magnitude("0"), Some(0));
    assert_eq!(parse_magnitude("9999"), Some(9999));
    assert_eq!(parse_magnitude("0012"), Some(12));
    assert_eq!(parse_magnitude("4294967295"), Some(u32::MAX));
    assert_eq!(parse_magnitude("4294967296"), None);
    assert_eq!(parse_magnitude("42949672950"), None);
    assert_eq!(parse_magnitude("18446744073709551616"), None);
    assert_eq!(parse_magnitude(""), None);
    assert_eq!(parse_magnitude("1_000"), None);
    assert_eq!(parse_magnitude("12px"), None);
    assert_eq!(parse_magnitude(" 1"), None);
    for n in [0u32, 1, 9, 10, 99, 100, 65_535, 4_000_000_000] {
        assert_eq!(parse_magnitude(&decimal_string(n)), Some(n));
    }
}

#[test]
fn texts_are_ordered_character_by_character() {
    assert_eq!(chars_of("aé"), vec!['a', 'é']);
    assert!(text_precedes("", "a"));
    assert!(!text_precedes("", ""));
    assert!(!text_precedes("a", ""));
    assert!(text_precedes("a", "b"));
    assert!(!text_precedes("b", "a"));
    assert!(!text_precedes("a", "a"));
    assert!(text_precedes("a", "ab"));
    assert!(!text_precedes("ab", "a"));
    assert!(text_precedes("Z", "a"));
    assert!(text_precedes("_csm_defs", "a"));
    assert!(text_precedes("z", "é"));
    let mut names = vec!["b", "", "é", "ab", "a", "B", "_"];
    names.sort();
    for i in 0..names.len() {
        for j in 0..names.len() {
            assert_eq!(text_precedes(names[i], names[j]), i < j);
        }
    }
}

#[test]
fn names_and_values_by_hand() {
    let tokens = vec![
        ident("margin"),
        Token::Hyphen,
        Token::Hyphen,
        ident("left"),
        ident("x"),
        Token::Colon,
        ident("auto"),
        Token::Int { digits: "3".to_string(), unit: "px".to_string() },
        Token::Comma,
        ident("next"),
    ];
    assert_eq!(parse_name(&tokens, 0), ("margin--leftx".to_string(), 5));
    assert_eq!(parse_name(&tokens[..2], 0), ("margin-".to_string(), 2));
    assert_eq!(parse_name(&tokens, 5), (String::new(), 5));
    assert_eq!(parse_name(&tokens, 9), ("next".to_string(), 10));
    assert_eq!(parse_name(&tokens, 10), (String::new(), 10));
    assert_eq!(parse_name(&tokens, 11), (String::new(), 11));
    assert_eq!(
        parse_values(&tokens, 6, "p"),
        Ok((
            vec![
                ValueAtom::Identifier("auto".to_string()),
                ValueAtom::NumericLiteral { magnitude: 3, unit: "px".to_string() },
            ],
            9
        ))
    );
    assert_eq!(
        parse_values(&tokens[..7], 6, "p"),
        Ok((vec![ValueAtom::Identifier("auto".to_string())], 7))
    );
    assert_eq!(parse_values(&tokens, 8, "p"), Ok((vec![], 9)));
    assert_eq!(parse_values(&tokens, 10, "p"), Ok((vec![], 10)));
    assert_eq!(parse_values(&tokens, 12, "p"), Ok((vec![], 12)));
    assert_eq!(
        parse_values(&tokens, 5, "p"),
        Err(ParseError::UnexpectedToken("p".to_string()))
    );
    let rules = vec![Rule { prop: "a".to_string(), values: vec![] }];
    assert!(declares(&rules, &"a".to_string()));
    assert!(!declares(&rules, &"b".to_string()));
    assert!(!declares(&vec![], &"a".to_string()));
}

#[test]
fn braces_are_matched() {
    // a : { { } x } } {
    let tokens = vec![
        ident("a"),
        Token::Colon,
        Token::OpenBrace,
        Token::OpenBrace,
        Token::CloseBrace,
        ident("x"),
        Token::CloseBrace,
        Token::CloseBrace,
        Token::OpenBrace,
    ];
    assert_eq!(find_closing_brace(&tokens, 3), Some(6));
    assert_eq!(find_closing_brace(&tokens, 4), Some(4));
    assert_eq!(find_closing_brace(&tokens, 7), Some(7));
    assert_eq!(find_closing_brace(&tokens[..6], 3), None);
    assert_eq!(find_closing_brace(&tokens, 8), None);
    assert_eq!(find_closing_brace(&tokens, 9), None);
    assert_eq!(find_closing_brace(&tokens, 20), None);
    assert_eq!(parse_body(&tokens, 0, "a"), Ok((&tokens[3..6], 6)));
    assert_eq!(parse_body(&tokens[..6], 0, "a"), Err(ParseError::UnexpectedToken("a".to_string())));
    assert_eq!(parse_body(&tokens[..2], 0, "a"), Err(ParseError::UnexpectedToken("a".to_string())));
    assert_eq!(parse_body(&tokens[..1], 0, "a"), Err(ParseError::MissingColon));
    assert_eq!(parse_body(&tokens, 1, "a"), Err(ParseError::MissingColon));
    assert_eq!(parse_body(&tokens, 9, "a"), Err(ParseError::MissingColon));
    assert_eq!(parse_body(&tokens, usize::MAX, "a"), Err(ParseError::MissingColon));
    let empty = vec![ident("a"), Token::Colon, Token::OpenBrace, Token::CloseBrace];
    assert_eq!(parse_body(&empty, 0, "a"), Ok((&empty[3..3], 3)));
    assert_eq!(skip_comma(&tokens, 0), 0);
    assert_eq!(skip_comma(&tokens, 9), 9);
    assert_eq!(skip_comma(&[Token::Comma, Token::Comma], 0), 1);
    assert_eq!(skip_comma(&[Token::Comma, Token::Comma], 1), 2);
    assert_eq!(skip_comma(&[Token::Comma, Token::Comma], 2), 2);
}

#[test]
fn choices_and_variants_by_hand() {
    let color = |value: &str| {
        Rules(vec![Rule {
            prop: "color".to_string(),
            values: vec![ValueAtom::Identifier(value.to_string())],
        }])
    };
    // a: { color: red } b: { color: blue },
    let mut tokens = Vec::new();
    for (name, value) in [("a", "red"), ("b", "blue")] {
        tokens.extend(vec![
            ident(name),
            Token::Colon,
            Token::OpenBrace,
            ident("color"),
            Token::Colon,
            ident(value),
            Token::CloseBrace,
        ]);
    }
    tokens.push(Token::Comma);
    assert_eq!(
        parse_choices(&tokens, "tone"),
        Ok(vec![
            Choice { name: "a".to_string(), rules: color("red") },
            Choice { name: "b".to_string(), rules: color("blue") },
        ])
    );
    assert_eq!(parse_choices(&[], "tone"), Ok(vec![]));
    assert_eq!(
        parse_choices(&[Token::Comma], "tone"),
        Err(ParseError::UnexpectedToken("tone".to_string()))
    );
    assert_eq!(parse_choices(&tokens[..6], "tone"), Err(ParseError::UnexpectedToken("a".to_string())));

    // tone: { a: {...} b: {...}, }
    let mut outer = vec![ident("tone"), Token::Colon, Token::OpenBrace];
    outer.extend(tokens.clone());
    outer.push(Token::CloseBrace);
    let seen = vec![Variant { name: "size".to_string(), choices: vec![] }];
    let variants = parse_variants(&outer, seen).unwrap();
    assert_eq!(variants.len(), 2);
    assert_eq!(variants[0], Variant { name: "size".to_string(), choices: vec![] });
    assert_eq!(variants[1].name, "tone");
    assert_eq!(variants[1].choices.len(), 2);
    assert_eq!(
        parse_variants(&[Token::Hash], vec![]),
        Err(ParseError::UnexpectedToken("variants".to_string()))
    );
    assert_eq!(parse_variants(&[ident("tone")], vec![]), Err(ParseError::MissingColon));
}

#[test]
fn choices_are_put_in_place() {
    let choice = |name: &str, value: &str| Choice {
        name: name.to_string(),
        rules: Rules(vec![Rule {
            prop: "color".to_string(),
            values: vec![ValueAtom::Identifier(value.to_string())],
        }]),
    };
    let mut choices = Vec::new();
    put_choice(&mut choices, choice("a", "red"));
    put_choice(&mut choices, choice("b", "blue"));
    put_choice(&mut choices, choice("a", "green"));
    put_choice(&mut choices, choice("c", "black"));
    assert_eq!(choices, vec![choice("a", "green"), choice("b", "blue"), choice("c", "black")]);
}
