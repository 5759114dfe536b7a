//! Recipes: a base rule set and named variants, each with its choices.
//!
//! A recipe is written as its name and a list of fields, with or without commas between
//! them: `base: { declarations }`, `variants: { variant ... }` and `default: choice`. A
//! variant is `name: { choice ... }`, a choice `name: { declarations }`. The field `base`
//! must occur; where a field is written again, `base` replaces what was read before,
//! `variants` and `default` add to it. A choice that is written again in one variant
//! replaces the earlier one in its place.

use crate::error::{ParseError, ParseErrorView};
use crate::parser::{declaration_set, inside};
use crate::rule::{RuleView, Rules};
use crate::text::same_text;
use crate::token::{token_views, Token, TokenView};
use vstd::prelude::*;
use vstd::slice::slice_subrange;

verus! {

/// One choice of a variant: its name and the rules it adds.
#[derive(Debug, PartialEq, Eq)]
pub struct Choice {
    pub name: String,
    pub rules: Rules,
}

/// The mathematical value of a [`Choice`].
pub struct ChoiceView {
    pub name: Seq<char>,
    pub rules: Seq<RuleView>,
}

impl View for Choice {
    type V = ChoiceView;

    open spec fn view(&self) -> ChoiceView {
        ChoiceView { name: self.name@, rules: self.rules@ }
    }
}

/// The views of a sequence of choices.
pub open spec fn choice_views(choices: Seq<Choice>) -> Seq<ChoiceView> {
    choices.map_values(|c: Choice| c@)
}

/// One variant of a recipe: its name and its choices in the order they were written.
#[derive(Debug, PartialEq, Eq)]
pub struct Variant {
    pub name: String,
    pub choices: Vec<Choice>,
}

/// The mathematical value of a [`Variant`].
pub struct VariantView {
    pub name: Seq<char>,
    pub choices: Seq<ChoiceView>,
}

impl View for Variant {
    type V = VariantView;

    open spec fn view(&self) -> VariantView {
        VariantView { name: self.name@, choices: choice_views(self.choices@) }
    }
}

/// The views of a sequence of variants.
pub open spec fn variant_views(variants: Seq<Variant>) -> Seq<VariantView> {
    variants.map_values(|v: Variant| v@)
}

/// A default that a recipe names: the field's key and the choice. Nothing reads it.
#[derive(Debug, PartialEq, Eq)]
pub struct DefaultChoice {
    pub variant: String,
    pub choice: String,
}

/// The mathematical value of a [`DefaultChoice`].
pub struct DefaultView {
    pub variant: Seq<char>,
    pub choice: Seq<char>,
}

impl View for DefaultChoice {
    type V = DefaultView;

    open spec fn view(&self) -> DefaultView {
        DefaultView { variant: self.variant@, choice: self.choice@ }
    }
}

/// The views of a sequence of defaults.
pub open spec fn default_views(defaults: Seq<DefaultChoice>) -> Seq<DefaultView> {
    defaults.map_values(|d: DefaultChoice| d@)
}

/// A recipe: a name, the rules that every combination starts with, and the variants.
#[derive(Debug, PartialEq, Eq)]
pub struct Recipe {
    pub name: String,
    pub base: Rules,
    pub variants: Vec<Variant>,
    pub defaults: Vec<DefaultChoice>,
}

/// The mathematical value of a [`Recipe`].
pub struct RecipeView {
    pub name: Seq<char>,
    pub base: Seq<RuleView>,
    pub variants: Seq<VariantView>,
    pub defaults: Seq<DefaultView>,
}

impl View for Recipe {
    type V = RecipeView;

    open spec fn view(&self) -> RecipeView {
        RecipeView {
            name: self.name@,
            base: self.base@,
            variants: variant_views(self.variants@),
            defaults: default_views(self.defaults@),
        }
    }
}

/// Whether no two of the choices share a name.
pub open spec fn distinct_choices(choices: Seq<ChoiceView>) -> bool {
    forall|i: int, j: int|
        0 <= i < j < choices.len() ==> (#[trigger] choices[i]).name != (#[trigger] choices[j]).name
}

/// Whether every variant names each of its choices once.
pub open spec fn distinct_choices_in_each(variants: Seq<VariantView>) -> bool {
    forall|v: int| 0 <= v < variants.len() ==> distinct_choices((#[trigger] variants[v]).choices)
}

/// Whether one of the choices is called `name`.
pub open spec fn has_choice(choices: Seq<ChoiceView>, name: Seq<char>) -> bool {
    exists|i: int| 0 <= i < choices.len() && (#[trigger] choices[i]).name == name
}

/// The choices with `choice` put in: in the place of the one that has its name, or at
/// the end where none has.
pub open spec fn with_choice(choices: Seq<ChoiceView>, choice: ChoiceView) -> Seq<ChoiceView> {
    if has_choice(choices, choice.name) {
        choices.map_values(
            |c: ChoiceView|
                if c.name == choice.name {
                    choice
                } else {
                    c
                },
        )
    } else {
        choices.push(choice)
    }
}

/// The position of the brace that closes a group, searched from `pos` on, where `depth`
/// groups were opened inside it and not closed yet.
pub open spec fn closing_brace(ts: Seq<TokenView>, pos: int, depth: nat) -> Option<int>
    decreases ts.len() - pos,
{
    if !inside(ts, pos) {
        None
    } else if ts[pos] is CloseBrace {
        if depth == 0 {
            Some(pos)
        } else {
            closing_brace(ts, pos + 1, (depth - 1) as nat)
        }
    } else if ts[pos] is OpenBrace {
        closing_brace(ts, pos + 1, depth + 1)
    } else {
        closing_brace(ts, pos + 1, depth)
    }
}

/// The braced body of the entry whose name stands at `pos`: a colon, an opening brace and
/// the brace that closes it. The result is the position behind the opening brace and the
/// position of the closing brace. `name` is the entry's name.
pub open spec fn body_at(ts: Seq<TokenView>, pos: int, name: Seq<char>) -> Result<
    (int, int),
    ParseErrorView,
> {
    if !(inside(ts, pos + 1) && ts[pos + 1] is Colon) {
        Err(ParseErrorView::MissingColon)
    } else if !(inside(ts, pos + 2) && ts[pos + 2] is OpenBrace) {
        Err(ParseErrorView::UnexpectedToken(name))
    } else {
        match closing_brace(ts, pos + 3, 0) {
            Some(close) => Ok((pos + 3, close)),
            None => Err(ParseErrorView::UnexpectedToken(name)),
        }
    }
}

/// The position behind the comma at `pos`, or `pos` where no comma stands there.
pub open spec fn past_comma(ts: Seq<TokenView>, pos: int) -> int {
    if inside(ts, pos) && ts[pos] is Comma {
        pos + 1
    } else {
        pos
    }
}

/// The choices that run from `pos` to the end of a variant's body, put into `seen`.
/// `variant` is the name of the variant.
pub open spec fn choices_at(ts: Seq<TokenView>, pos: int, variant: Seq<char>, seen: Seq<ChoiceView>) -> Result<
    Seq<ChoiceView>,
    ParseErrorView,
>
    decreases ts.len() - pos,
    via choices_at_decreases
{
    if !inside(ts, pos) {
        Ok(seen)
    } else {
        match ts[pos] {
            TokenView::Ident(name) => match body_at(ts, pos, name) {
                Err(e) => Err(e),
                Ok((from, to)) => match declaration_set(ts.subrange(from, to)) {
                    Err(e) => Err(e),
                    Ok(rules) => choices_at(
                        ts,
                        past_comma(ts, to + 1),
                        variant,
                        with_choice(seen, ChoiceView { name, rules }),
                    ),
                },
            },
            _ => Err(ParseErrorView::UnexpectedToken(variant)),
        }
    }
}

/// The variants that run from `pos` to the end of the body of a `variants` field, behind
/// the variants `seen`.
pub open spec fn variants_at(ts: Seq<TokenView>, pos: int, seen: Seq<VariantView>) -> Result<
    Seq<VariantView>,
    ParseErrorView,
>
    decreases ts.len() - pos,
    via variants_at_decreases
{
    if !inside(ts, pos) {
        Ok(seen)
    } else {
        match ts[pos] {
            TokenView::Ident(name) => match body_at(ts, pos, name) {
                Err(e) => Err(e),
                Ok((from, to)) => match choices_at(ts.subrange(from, to), 0, name, Seq::empty()) {
                    Err(e) => Err(e),
                    Ok(choices) => variants_at(
                        ts,
                        past_comma(ts, to + 1),
                        seen.push(VariantView { name, choices }),
                    ),
                },
            },
            _ => Err(ParseErrorView::UnexpectedToken("variants"@)),
        }
    }
}

/// What has been read of a recipe's fields.
pub struct FieldsView {
    pub base: Option<Seq<RuleView>>,
    pub variants: Seq<VariantView>,
    pub defaults: Seq<DefaultView>,
}

/// The fields that run from `pos` to the end, added to the fields `seen`. `recipe` is the
/// recipe's name.
pub open spec fn fields_at(ts: Seq<TokenView>, pos: int, recipe: Seq<char>, seen: FieldsView) -> Result<
    FieldsView,
    ParseErrorView,
>
    decreases ts.len() - pos,
    via fields_at_decreases
{
    if !inside(ts, pos) {
        Ok(seen)
    } else {
        match ts[pos] {
            TokenView::Comma => fields_at(ts, pos + 1, recipe, seen),
            TokenView::Ident(key) => if key == "base"@ {
                match body_at(ts, pos, key) {
                    Err(e) => Err(e),
                    Ok((from, to)) => match declaration_set(ts.subrange(from, to)) {
                        Err(e) => Err(e),
                        Ok(rules) => fields_at(
                            ts,
                            to + 1,
                            recipe,
                            FieldsView { base: Some(rules), ..seen },
                        ),
                    },
                }
            } else if key == "variants"@ {
                match body_at(ts, pos, key) {
                    Err(e) => Err(e),
                    Ok((from, to)) => match variants_at(ts.subrange(from, to), 0, seen.variants) {
                        Err(e) => Err(e),
                        Ok(variants) => fields_at(
                            ts,
                            to + 1,
                            recipe,
                            FieldsView { variants, ..seen },
                        ),
                    },
                }
            } else if key == "default"@ {
                if !(inside(ts, pos + 1) && ts[pos + 1] is Colon) {
                    Err(ParseErrorView::MissingColon)
                } else if !(inside(ts, pos + 2) && ts[pos + 2] is Ident) {
                    Err(ParseErrorView::UnexpectedToken(key))
                } else {
                    fields_at(
                        ts,
                        pos + 3,
                        recipe,
                        FieldsView {
                            defaults: seen.defaults.push(
                                DefaultView { variant: key, choice: ts[pos + 2]->Ident_0 },
                            ),
                            ..seen
                        },
                    )
                }
            } else {
                Err(ParseErrorView::UnexpectedToken(key))
            },
            _ => Err(ParseErrorView::UnexpectedToken(recipe)),
        }
    }
}

/// The recipe that the whole of `ts` writes.
pub open spec fn recipe_of(ts: Seq<TokenView>) -> Result<RecipeView, ParseErrorView> {
    if ts.len() > 0 && ts[0] is Ident {
        let name = ts[0]->Ident_0;
        let nothing = FieldsView { base: None, variants: Seq::empty(), defaults: Seq::empty() };
        match fields_at(ts, 1, name, nothing) {
            Err(e) => Err(e),
            Ok(fields) => match fields.base {
                Some(base) => Ok(
                    RecipeView { name, base, variants: fields.variants, defaults: fields.defaults },
                ),
                None => Err(ParseErrorView::UnexpectedToken(name)),
            },
        }
    } else {
        Err(ParseErrorView::UnexpectedToken(Seq::empty()))
    }
}

/// The brace that closes a group stands at or behind the position from which it was
/// searched.
pub proof fn lemma_closing_brace_bounds(ts: Seq<TokenView>, pos: int, depth: nat)
    ensures
        closing_brace(ts, pos, depth) matches Some(close) ==> pos <= close < ts.len(),
    decreases ts.len() - pos,
{
    if inside(ts, pos) {
        if ts[pos] is CloseBrace {
            if depth > 0 {
                lemma_closing_brace_bounds(ts, pos + 1, (depth - 1) as nat);
            }
        } else if ts[pos] is OpenBrace {
            lemma_closing_brace_bounds(ts, pos + 1, depth + 1);
        } else {
            lemma_closing_brace_bounds(ts, pos + 1, depth);
        }
    }
}

/// A braced body lies behind its entry's name.
pub proof fn lemma_body_at_bounds(ts: Seq<TokenView>, pos: int, name: Seq<char>)
    ensures
        body_at(ts, pos, name) matches Ok((from, to)) ==> pos + 3 == from <= to < ts.len(),
{
    lemma_closing_brace_bounds(ts, pos + 3, 0);
}

#[via_fn]
proof fn choices_at_decreases(ts: Seq<TokenView>, pos: int, variant: Seq<char>, seen: Seq<ChoiceView>) {
    if inside(ts, pos) {
        if let TokenView::Ident(name) = ts[pos] {
            lemma_body_at_bounds(ts, pos, name);
        }
    }
}

#[via_fn]
proof fn variants_at_decreases(ts: Seq<TokenView>, pos: int, seen: Seq<VariantView>) {
    if inside(ts, pos) {
        if let TokenView::Ident(name) = ts[pos] {
            lemma_body_at_bounds(ts, pos, name);
        }
    }
}

#[via_fn]
proof fn fields_at_decreases(ts: Seq<TokenView>, pos: int, recipe: Seq<char>, seen: FieldsView) {
    if inside(ts, pos) {
        if let TokenView::Ident(key) = ts[pos] {
            lemma_body_at_bounds(ts, pos, key);
        }
    }
}

/// Finds the brace that closes a group whose inside starts at `pos`.
pub fn find_closing_brace(tokens: &[Token], pos: usize) -> (r: Option<usize>)
    ensures
        match r {
            Some(close) => closing_brace(token_views(tokens@), pos as int, 0) == Some(close as int)
                && pos <= close < tokens.len(),
            None => closing_brace(token_views(tokens@), pos as int, 0) is None,
        },
{
    let ghost ts = token_views(tokens@);
    let ghost goal = closing_brace(ts, pos as int, 0);
    let mut depth: usize = 0;
    let mut i: usize = pos;
    while i < tokens.len()
        invariant
            pos <= i,
            ts == token_views(tokens@),
            depth <= i - pos,
            goal == closing_brace(ts, pos as int, 0),
            goal == closing_brace(ts, i as int, depth as nat),
        decreases tokens.len() - i,
    {
        match &tokens[i] {
            Token::CloseBrace => {
                if depth == 0 {
                    return Some(i);
                }
                depth -= 1;
            },
            Token::OpenBrace => {
                depth += 1;
            },
            _ => {},
        }
        i += 1;
    }
    None
}

/// Reads the colon and the braces behind the entry name at `pos`, and gives the tokens
/// between the braces and the position of the closing brace.
pub fn parse_body<'a>(tokens: &'a [Token], pos: usize, name: &str) -> (r: Result<
    (&'a [Token], usize),
    ParseError,
>)
    ensures
        match r {
            Ok((body, close)) => body_at(token_views(tokens@), pos as int, name@) matches Ok(
                (from, to),
            ) && to == close && pos + 3 == from <= close < tokens.len() && token_views(body@)
                == token_views(tokens@).subrange(from, to),
            Err(e) => body_at(token_views(tokens@), pos as int, name@) == Err::<(int, int), _>(e@),
        },
{
    let end = tokens.len();
    if pos >= end || pos + 1 >= end {
        return Err(ParseError::MissingColon);
    }
    match &tokens[pos + 1] {
        Token::Colon => {},
        _ => {
            return Err(ParseError::MissingColon);
        },
    }
    if pos + 2 >= end {
        return Err(ParseError::UnexpectedToken(name.to_owned()));
    }
    match &tokens[pos + 2] {
        Token::OpenBrace => {},
        _ => {
            return Err(ParseError::UnexpectedToken(name.to_owned()));
        },
    }
    match find_closing_brace(tokens, pos + 3) {
        Some(close) => {
            let body = slice_subrange(tokens, pos + 3, close);
            assert(token_views(body@) =~= token_views(tokens@).subrange(pos + 3, close as int));
            Ok((body, close))
        },
        None => Err(ParseError::UnexpectedToken(name.to_owned())),
    }
}

/// Skips the comma at `pos`, if one stands there.
pub fn skip_comma(tokens: &[Token], pos: usize) -> (r: usize)
    ensures
        r == past_comma(token_views(tokens@), pos as int),
        pos <= r,
{
    if pos < tokens.len() {
        if let Token::Comma = &tokens[pos] {
            return pos + 1;
        }
    }
    pos
}

/// The choices with `choice` put in the place of each of the first `upto` that has its
/// name.
pub open spec fn replaced_upto(choices: Seq<ChoiceView>, upto: int, choice: ChoiceView) -> Seq<
    ChoiceView,
> {
    Seq::new(
        choices.len(),
        |k: int|
            if k < upto && choices[k].name == choice.name {
                choice
            } else {
                choices[k]
            },
    )
}

/// Puts `choice` into `choices`: in the place of the one that has its name, or at the end.
pub fn put_choice(choices: &mut Vec<Choice>, choice: Choice)
    ensures
        choice_views(final(choices)@) == with_choice(choice_views(old(choices)@), choice@),
{
    let ghost before = choice_views(choices@);
    let mut found = false;
    let mut i: usize = 0;
    assert(choice_views(choices@) =~= replaced_upto(before, 0, choice@));
    while i < choices.len()
        invariant
            i <= choices.len(),
            choices.len() == before.len(),
            found == has_choice(before.take(i as int), choice@.name),
            choice_views(choices@) == replaced_upto(before, i as int, choice@),
        decreases choices.len() - i,
    {
        let ghost seen = before.take(i as int);
        let ghost next = before.take(i as int + 1);
        let ghost held = choices@;
        assert(choice_views(held)[i as int] == before[i as int]);
        let same = choices[i].name == choice.name;
        proof {
            if has_choice(seen, choice@.name) {
                let k = choose|k: int| 0 <= k < seen.len() && (#[trigger] seen[k]).name == choice@.name;
                assert(next[k].name == choice@.name);
            }
            if same {
                assert(next[i as int].name == choice@.name);
            }
            if has_choice(next, choice@.name) && !same {
                let k = choose|k: int| 0 <= k < next.len() && (#[trigger] next[k]).name == choice@.name;
                assert(seen[k].name == choice@.name);
            }
        }
        if same {
            let copy = Choice { name: choice.name.clone(), rules: choice.rules.clone() };
            choices.set(i, copy);
            assert(choice_views(choices@) =~= choice_views(held).update(i as int, choice@));
            found = true;
        }
        assert(choice_views(choices@) =~= replaced_upto(before, i as int + 1, choice@));
        i += 1;
    }
    proof {
        assert(before.take(i as int) == before);
    }
    if found {
        assert(choice_views(choices@) =~= with_choice(before, choice@));
    } else {
        proof {
            assert forall|k: int| 0 <= k < before.len() implies before[k].name != choice@.name by {
                if before[k].name == choice@.name {
                    assert(has_choice(before, choice@.name));
                }
            }
            assert(choice_views(choices@) =~= before);
            assert(choice_views(choices@.push(choice)) =~= before.push(choice@));
        }
        choices.push(choice);
    }
}

/// Reads the choices of the variant `variant`, which are written by `tokens`.
pub fn parse_choices(tokens: &[Token], variant: &str) -> (r: Result<Vec<Choice>, ParseError>)
    ensures
        match r {
            Ok(choices) => choices_at(token_views(tokens@), 0, variant@, Seq::empty()) == Ok::<
                _,
                ParseErrorView,
            >(choice_views(choices@)),
            Err(e) => choices_at(token_views(tokens@), 0, variant@, Seq::empty()) == Err::<
                Seq<ChoiceView>,
                _,
            >(e@),
        },
{
    let ghost ts = token_views(tokens@);
    let ghost goal = choices_at(ts, 0, variant@, Seq::empty());
    let mut choices: Vec<Choice> = Vec::new();
    let mut i: usize = 0;
    assert(choice_views(choices@) =~= Seq::empty());
    while i < tokens.len()
        invariant
            ts == token_views(tokens@),
            goal == choices_at(ts, 0, variant@, Seq::empty()),
            goal == choices_at(ts, i as int, variant@, choice_views(choices@)),
        decreases tokens.len() - i,
    {
        match &tokens[i] {
            Token::Ident(name) => {
                let (body, close) = match parse_body(tokens, i, name.as_str()) {
                    Ok(found) => found,
                    Err(e) => {
                        return Err(e);
                    },
                };
                let rules = match Rules::parse(body) {
                    Ok(rules) => rules,
                    Err(e) => {
                        return Err(e);
                    },
                };
                put_choice(&mut choices, Choice { name: name.clone(), rules });
                i = skip_comma(tokens, close + 1);
            },
            _ => {
                return Err(ParseError::UnexpectedToken(variant.to_owned()));
            },
        }
    }
    Ok(choices)
}

/// Reads the variants that `tokens` write, and adds them to the variants `seen`.
pub fn parse_variants(tokens: &[Token], seen: Vec<Variant>) -> (r: Result<Vec<Variant>, ParseError>)
    ensures
        match r {
            Ok(variants) => variants_at(token_views(tokens@), 0, variant_views(seen@)) == Ok::<
                _,
                ParseErrorView,
            >(variant_views(variants@)),
            Err(e) => variants_at(token_views(tokens@), 0, variant_views(seen@)) == Err::<
                Seq<VariantView>,
                _,
            >(e@),
        },
{
    let ghost ts = token_views(tokens@);
    let ghost goal = variants_at(ts, 0, variant_views(seen@));
    let mut variants = seen;
    let mut i: usize = 0;
    while i < tokens.len()
        invariant
            ts == token_views(tokens@),
            goal == variants_at(ts, 0, variant_views(seen@)),
            goal == variants_at(ts, i as int, variant_views(variants@)),
        decreases tokens.len() - i,
    {
        match &tokens[i] {
            Token::Ident(name) => {
                let (body, close) = match parse_body(tokens, i, name.as_str()) {
                    Ok(found) => found,
                    Err(e) => {
                        return Err(e);
                    },
                };
                let choices = match parse_choices(body, name.as_str()) {
                    Ok(choices) => choices,
                    Err(e) => {
                        return Err(e);
                    },
                };
                let variant = Variant { name: name.clone(), choices };
                proof {
                    assert(variant_views(variants@.push(variant)) =~= variant_views(variants@).push(
                        variant@,
                    ));
                }
                variants.push(variant);
                i = skip_comma(tokens, close + 1);
            },
            _ => {
                return Err(ParseError::UnexpectedToken("variants".to_owned()));
            },
        }
    }
    Ok(variants)
}

/// The view of a base rule set that may not have been read yet.
pub open spec fn base_view(base: Option<Rules>) -> Option<Seq<RuleView>> {
    match base {
        Some(rules) => Some(rules@),
        None => None,
    }
}

impl Recipe {
    /// Reads the recipe that `tokens` writes.
    pub fn parse(tokens: &[Token]) -> (r: Result<Recipe, ParseError>)
        ensures
            match r {
                Ok(recipe) => recipe_of(token_views(tokens@)) == Ok::<_, ParseErrorView>(recipe@),
                Err(e) => recipe_of(token_views(tokens@)) == Err::<RecipeView, _>(e@),
            },
    {
        let ghost ts = token_views(tokens@);
        let end = tokens.len();
        if end == 0 {
            return Err(ParseError::UnexpectedToken(String::new()));
        }
        let name = match &tokens[0] {
            Token::Ident(name) => name.clone(),
            _ => {
                return Err(ParseError::UnexpectedToken(String::new()));
            },
        };
        let mut base: Option<Rules> = None;
        let mut variants: Vec<Variant> = Vec::new();
        let mut defaults: Vec<DefaultChoice> = Vec::new();
        let ghost nothing = FieldsView { base: None, variants: Seq::empty(), defaults: Seq::empty() };
        let ghost goal = fields_at(ts, 1, name@, nothing);
        assert(variant_views(variants@) =~= Seq::empty());
        assert(default_views(defaults@) =~= Seq::empty());
        let mut i: usize = 1;
        while i < end
            invariant
                1 <= i,
                end == tokens.len(),
                ts == token_views(tokens@),
                ts[0] == TokenView::Ident(name@),
                nothing == (FieldsView { base: None, variants: Seq::empty(), defaults: Seq::empty() }),
                goal == fields_at(ts, 1, name@, nothing),
                goal == fields_at(
                    ts,
                    i as int,
                    name@,
                    FieldsView {
                        base: base_view(base),
                        variants: variant_views(variants@),
                        defaults: default_views(defaults@),
                    },
                ),
            decreases end - i,
        {
            match &tokens[i] {
                Token::Comma => {
                    i += 1;
                },
                Token::Ident(key) => {
                    if same_text(key.as_str(), "base") {
                        let (body, close) = match parse_body(tokens, i, key.as_str()) {
                            Ok(found) => found,
                            Err(e) => {
                                return Err(e);
                            },
                        };
                        match Rules::parse(body) {
                            Ok(rules) => {
                                base = Some(rules);
                            },
                            Err(e) => {
                                return Err(e);
                            },
                        }
                        i = close + 1;
                    } else if same_text(key.as_str(), "variants") {
                        let (body, close) = match parse_body(tokens, i, key.as_str()) {
                            Ok(found) => found,
                            Err(e) => {
                                return Err(e);
                            },
                        };
                        let mut seen: Vec<Variant> = Vec::new();
                        core::mem::swap(&mut variants, &mut seen);
                        match parse_variants(body, seen) {
                            Ok(all) => {
                                variants = all;
                            },
                            Err(e) => {
                                return Err(e);
                            },
                        }
                        i = close + 1;
                    } else if same_text(key.as_str(), "default") {
                        if i + 1 >= end {
                            return Err(ParseError::MissingColon);
                        }
                        match &tokens[i + 1] {
                            Token::Colon => {},
                            _ => {
                                return Err(ParseError::MissingColon);
                            },
                        }
                        if i + 2 >= end {
                            return Err(ParseError::UnexpectedToken(key.clone()));
                        }
                        match &tokens[i + 2] {
                            Token::Ident(choice) => {
                                let default = DefaultChoice {
                                    variant: key.clone(),
                                    choice: choice.clone(),
                                };
                                proof {
                                    assert(default_views(defaults@.push(default)) =~= default_views(
                                        defaults@,
                                    ).push(default@));
                                }
                                defaults.push(default);
                            },
                            _ => {
                                return Err(ParseError::UnexpectedToken(key.clone()));
                            },
                        }
                        i += 3;
                    } else {
                        return Err(ParseError::UnexpectedToken(key.clone()));
                    }
                },
                _ => {
                    return Err(ParseError::UnexpectedToken(name));
                },
            }
        }
        match base {
            Some(base) => Ok(Recipe { name, base, variants, defaults }),
            None => Err(ParseError::UnexpectedToken(name)),
        }
    }
}

} // verus!
