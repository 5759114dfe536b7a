use csm::bundle::bundle_outcome;
use csm::compiler::{compile_recipe, csm, csm_defs, BuildContext};
use csm::defs::{TokenDef, TokenDefs};
use csm::error::{BundleError, CompileError, ParseError};
use csm::recipe::Recipe;
use csm::rule::{Rule, Rules, ValueAtom};
use csm::store::{Fragment, FragmentStore, STALE_AFTER};
use csm::token::Token;

fn ident(text: &str) -> Token {
    Token::Ident(text.to_string())
}

fn number(digits: &str, unit: &str) -> Token {
    Token::Int { digits: digits.to_string(), unit: unit.to_string() }
}

fn word(prop: &str, value: &str) -> Rule {
    Rule { prop: prop.to_string(), values: vec![ValueAtom::Identifier(value.to_string())] }
}

fn ids(store: &FragmentStore) -> Vec<String> {
    (0..store.len()).map(|i| store.get(i).unwrap().id.clone()).collect()
}

fn fragment(id: &str, css: &str, modified: u64) -> Fragment {
    Fragment { id: id.to_string(), css: css.to_string(), modified }
}

/// `foo, display: flex, width: 5rem`
fn foo_tokens() -> Vec<Token> {
    vec![
        ident("foo"),
        Token::Comma,
        ident("display"),
        Token::Colon,
        ident("flex"),
        Token::Comma,
        ident("width"),
        Token::Colon,
        number("5", "rem"),
    ]
}

#[test]
fn fragments_are_kept_in_the_order_of_their_identifiers() {
    let mut store = FragmentStore::new();
    store.write("b", "b {}", 1);
    store.write("a", "a {}", 2);
    store.write("c", "c {}", 3);
    store.write("ab", "ab {}", 4);
    store.write("", "", 5);
    store.write("B", "B {}", 6);
    assert_eq!(ids(&store), vec!["", "B", "a", "ab", "b", "c"]);
    assert_eq!(store.position("aa"), 3);
    assert_eq!(store.position("a"), 2);
    assert_eq!(store.position("z"), 6);
    assert_eq!(store.find("ab"), Some(&fragment("ab", "ab {}", 4)));
    assert_eq!(store.find("aa"), None);
}

#[test]
fn writing_again_replaces_the_fragment() {
    let mut store = FragmentStore::new();
    store.write("foo", ".a { color: red; }", 10);
    store.write("bar", ".b { color: blue; }", 11);
    store.write("foo", ".c { color: green; }", 12);
    assert_eq!(store.len(), 2);
    assert_eq!(
        store.get(0),
        Some(&fragment("bar", ".b { color: blue; }", 11)));
    assert_eq!(
        store.get(1),
        Some(&fragment("foo", ".c { color: green; }", 12)));

    let mut once = FragmentStore::new();
    once.write("bar", ".b { color: blue; }", 11);
    once.write("foo", ".c { color: green; }", 12);
    assert_eq!(store, once);
    assert_eq!(store.bundle(), once.bundle());
    assert_eq!(store.bundle(), Ok(".b{color:#00f}.c{color:green}".to_string()));
}

#[test]
fn stale_fragments_are_older_than_a_day() {
    assert_eq!(STALE_AFTER, 60 * 60 * 24);
    let mut store = FragmentStore::new();
    store.write("old", "", 1_000);
    store.write("edge", "", 1_000 + 1);
    store.write("new", "", 90_000);
    store.write("future", "", 200_000);
    let now = 1_000 + STALE_AFTER + 1;
    assert_eq!(store.stale_ids(now), vec!["old"]);
    assert_eq!(store.stale_ids(now + 1), vec!["edge", "old"]);
    assert_eq!(store.stale_ids(0), Vec::<String>::new());
    assert_eq!(store.stale_ids(u64::MAX), vec!["edge", "future", "new", "old"]);
    // stale fragments stay in the store and in the bundle
    assert_eq!(store.len(), 4);
}

#[test]
fn aggregate_document_imports_in_order() {
    let mut store = FragmentStore::new();
    assert_eq!(store.aggregate_document("css/"), "");
    assert_eq!(store.resolved_document(), "");
    store.write("foo", ".a { color: red; }", 0);
    store.write("_csm_defs", ":root { }", 0);
    store.write("bar", ".b { color: blue; }", 0);
    assert_eq!(
        store.aggregate_document("css/"),
        "@import \"css/_csm_defs.css\";\n@import \"css/bar.css\";\n@import \"css/foo.css\";\n"
    );
    assert_eq!(store.resolved_document(), ":root { }\n.b { color: blue; }\n.a { color: red; }");
}

#[test]
fn bundle_is_minified_and_deduplicated() {
    let mut store = FragmentStore::new();
    store.write("b", ".d_flex { display: flex; }\n.w_5rem { width: 5rem; }", 0);
    store.write("a", ".d_flex { display: flex; }", 0);
    store.write("c", ":root { --red: #EE0F0F; --danger: var(--red); }", 0);
    assert_eq!(
        store.bundle(),
        Ok(".d_flex{display:flex}.w_5rem{width:5rem}:root{--red:#ee0f0f;--danger:var(--red)}"
            .to_string())
    );
    assert_eq!(FragmentStore::new().bundle(), Ok(String::new()));
}

#[test]
fn unreadable_fragment_fails_the_bundle() {
    let mut store = FragmentStore::new();
    store.write("good", ".a { color: red; }", 0);
    assert_eq!(store.first_unreadable(), None);
    store.write("worse", "}}}", 0);
    store.write("bad", ".a { color: red; } }", 0);
    assert_eq!(store.first_unreadable(), Some("bad".to_string()));
    assert_eq!(store.bundle(), Err(BundleError::ImportResolutionFailed("bad".to_string())));
}

#[test]
fn bundle_outcome_by_cases() {
    assert_eq!(bundle_outcome(None, Some("a{}".to_string())), Ok("a{}".to_string()));
    assert_eq!(bundle_outcome(None, None), Err(BundleError::MinifyFailed));
    assert_eq!(
        bundle_outcome(Some("x".to_string()), Some("a{}".to_string())),
        Err(BundleError::ImportResolutionFailed("x".to_string()))
    );
    assert_eq!(
        bundle_outcome(Some("x".to_string()), None),
        Err(BundleError::ImportResolutionFailed("x".to_string()))
    );
}

#[test]
fn declaration_call_writes_fragment_and_bundle() {
    let mut ctx = BuildContext::new();
    assert_eq!(csm(&mut ctx, &foo_tokens(), 7), Ok("d_flex w_5rem".to_string()));
    assert_eq!(ctx.fragments.len(), 1);
    assert_eq!(
        ctx.fragments.get(0),
        Some(&fragment("foo", ".d_flex { display: flex; }\n.w_5rem { width: 5rem; }", 7))
    );
    assert_eq!(ctx.bundle, ".d_flex{display:flex}.w_5rem{width:5rem}");
    assert_eq!(ctx.variables.len(), 0);
}

#[test]
fn compile_declarations_gives_class_names_in_order() {
    let mut ctx = BuildContext::new();
    let rules = Rules(vec![
        word("display", "flex"),
        Rule {
            prop: "width".to_string(),
            values: vec![ValueAtom::NumericLiteral { magnitude: 5, unit: "rem".to_string() }],
        },
    ]);
    let names = ctx.compile_declarations("foo", &rules, 1).unwrap();
    assert_eq!(names, vec!["d_flex", "w_5rem"]);
    assert_eq!(
        ctx.fragments.find("foo").unwrap().css,
        ".d_flex { display: flex; }\n.w_5rem { width: 5rem; }"
    );
}

#[test]
fn compiling_twice_gives_the_same() {
    let mut first = BuildContext::new();
    let mut second = BuildContext::new();
    second.fragments.write("other", ".x { color: red; }", 3);
    let a = csm(&mut first, &foo_tokens(), 1).unwrap();
    let b = csm(&mut second, &foo_tokens(), 2).unwrap();
    let c = csm(&mut first, &foo_tokens(), 1).unwrap();
    assert_eq!(a, b);
    assert_eq!(a, c);
    assert_eq!(first.fragments.find("foo").unwrap().css, second.fragments.find("foo").unwrap().css);
    assert_eq!(first.fragments.len(), 1);
}

#[test]
fn second_call_under_an_identifier_overwrites() {
    let mut ctx = BuildContext::new();
    let first = Rules(vec![word("display", "flex"), word("color", "red")]);
    let second = Rules(vec![word("display", "block")]);
    ctx.compile_declarations("foo", &first, 1).unwrap();
    assert_eq!(ctx.bundle, ".d_flex{display:flex}.color_red{color:red}");
    ctx.compile_declarations("foo", &second, 2).unwrap();
    assert_eq!(ctx.fragments.len(), 1);
    assert_eq!(
        ctx.fragments.get(0),
        Some(&fragment("foo", ".d_block { display: block; }", 2)));
    assert_eq!(ctx.bundle, ".d_block{display:block}");
}

#[test]
fn variable_reference_needs_no_definition() {
    let tokens = vec![ident("x"), Token::Comma, ident("color"), Token::Colon, Token::Dollar, ident("foo")];
    let mut undefined = BuildContext::new();
    assert_eq!(csm(&mut undefined, &tokens, 0), Ok("color_foo".to_string()));
    assert_eq!(undefined.fragments.find("x").unwrap().css, ".color_foo { color: var(--foo); }");

    let mut defined = BuildContext::new();
    let defs = vec![ident("foo"), Token::Colon, Token::Hash, ident("fff")];
    assert_eq!(csm_defs(&mut defined, &defs, 0), Ok(()));
    assert_eq!(csm(&mut defined, &tokens, 0), Ok("color_foo".to_string()));
    assert_eq!(defined.fragments.find("x").unwrap().css, ".color_foo { color: var(--foo); }");
    assert_eq!(defined.bundle, ":root{--foo:#fff}.color_foo{color:var(--foo)}");
}

#[test]
fn definitions_pile_up_over_calls() {
    let mut ctx = BuildContext::new();
    let first = vec![
        ident("red"),
        Token::Colon,
        Token::Hash,
        ident("EE0F0F"),
        Token::Comma,
        ident("danger"),
        Token::Colon,
        Token::Dollar,
        ident("red"),
        Token::Comma,
    ];
    assert_eq!(csm_defs(&mut ctx, &first, 5), Ok(()));
    assert_eq!(
        ctx.fragments.find("_csm_defs").unwrap(),
        &fragment("_csm_defs", ":root { --red: #EE0F0F; --danger: var(--red); }", 5)
    );
    let second = vec![
        ident("red"),
        Token::Colon,
        Token::Hash,
        ident("F00"),
        Token::Comma,
        ident("blue"),
        Token::Colon,
        Token::Hash,
        ident("00F"),
    ];
    assert_eq!(csm_defs(&mut ctx, &second, 6), Ok(()));
    assert_eq!(ctx.variables.len(), 3);
    assert_eq!(
        ctx.variables.get(0),
        Some(&TokenDef { name: "red".to_string(), value: "#F00".to_string() })
    );
    assert_eq!(
        ctx.fragments.find("_csm_defs").unwrap(),
        &fragment("_csm_defs", ":root { --red: #F00; --danger: var(--red); --blue: #00F; }", 6)
    );
    assert_eq!(ctx.fragments.len(), 1);
    assert_eq!(ctx.bundle, ":root{--red:red;--danger:var(--red);--blue:#00f}");
}

#[test]
fn failed_rebuild_keeps_the_bundle() {
    let mut ctx = BuildContext::new();
    ctx.write("a", ".a { color: red; }", 1).unwrap();
    assert_eq!(ctx.bundle, ".a{color:red}");
    assert_eq!(
        ctx.write("b", "}", 2),
        Err(BundleError::ImportResolutionFailed("b".to_string()))
    );
    assert_eq!(ctx.bundle, ".a{color:red}");
    assert_eq!(ctx.fragments.len(), 2);
    assert_eq!(ctx.rebuild(), Err(BundleError::ImportResolutionFailed("b".to_string())));
    // every later call fails until the fragment is replaced
    assert_eq!(
        csm(&mut ctx, &foo_tokens(), 3),
        Err(CompileError::Bundle(BundleError::ImportResolutionFailed("b".to_string())))
    );
    assert_eq!(ctx.bundle, ".a{color:red}");
    ctx.write("b", ".b { color: blue; }", 4).unwrap();
    assert_eq!(
        ctx.bundle,
        ".a{color:red}.b{color:#00f}.d_flex{display:flex}.w_5rem{width:5rem}"
    );
}

#[test]
fn parse_errors_leave_the_context_alone() {
    let mut ctx = BuildContext::new();
    assert_eq!(
        csm(&mut ctx, &vec![], 0),
        Err(CompileError::Parse(ParseError::UnexpectedToken(String::new())))
    );
    assert_eq!(
        csm(&mut ctx, &vec![ident("foo")], 0),
        Err(CompileError::Parse(ParseError::UnexpectedToken("foo".to_string())))
    );
    assert_eq!(
        csm(&mut ctx, &vec![ident("foo"), Token::Comma, ident("display")], 0),
        Err(CompileError::Parse(ParseError::MissingColon))
    );
    assert_eq!(
        csm_defs(&mut ctx, &vec![ident("red"), Token::Colon], 0),
        Err(CompileError::Parse(ParseError::UnexpectedToken("red".to_string())))
    );
    assert_eq!(ctx, BuildContext::new());
    // an identifier and a comma alone are an empty declaration set
    assert_eq!(csm(&mut ctx, &vec![ident("foo"), Token::Comma], 0), Ok(String::new()));
    assert_eq!(
        ctx.fragments.get(0),
        Some(&fragment("foo", "", 0)));
}

#[test]
fn compile_recipe_is_the_recipes_table() {
    let parsed = Recipe {
        name: "card".to_string(),
        base: Rules(vec![word("display", "flex")]),
        variants: vec![],
        defaults: vec![],
    };
    assert_eq!(compile_recipe(&parsed), parsed.compile());
    assert_eq!(compile_recipe(&parsed).entries.len(), 1);
}

#[test]
fn definitions_store_by_hand() {
    let mut defs = TokenDefs::new();
    defs.insert(TokenDef { name: "a".to_string(), value: "#111".to_string() });
    defs.insert(TokenDef { name: "b".to_string(), value: "#222".to_string() });
    defs.insert(TokenDef { name: "a".to_string(), value: "#333".to_string() });
    assert_eq!(defs.len(), 2);
    assert_eq!(defs.to_css(), ":root { --a: #333; --b: #222; }");
    let mut more = TokenDefs::new();
    more.insert(TokenDef { name: "c".to_string(), value: "var(--a)".to_string() });
    more.insert(TokenDef { name: "b".to_string(), value: "#444".to_string() });
    defs.absorb(&more);
    assert_eq!(defs.to_css(), ":root { --a: #333; --b: #444; --c: var(--a); }");
    assert_eq!(TokenDefs::new().to_css(), ":root { }");
}
