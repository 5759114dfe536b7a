//! The parser of declaration sets.
//!
//! A declaration set is a list of rules. A rule is a property name, a colon and a list of
//! values; a comma ends the list. The name is a run of identifiers and hyphens, written
//! without anything between them. The values are either a `$` and one identifier, or any
//! number of identifiers and integer literals.
//!
//! Every function reads the tokens from a position on, and a position at or behind the
//! end of the tokens is the end.

use crate::error::{ParseError, ParseErrorView};
use crate::rule::{atom_views, rule_views, AtomView, Rule, RuleView, Rules, ValueAtom};
use crate::text::{magnitude_of, parse_magnitude};
use crate::token::{token_views, Token, TokenView};
use vstd::prelude::*;

verus! {

/// Whether `pos` is the position of a token.
pub open spec fn inside(ts: Seq<TokenView>, pos: int) -> bool {
    0 <= pos < ts.len()
}

/// What a token adds to a name: an identifier its text, a hyphen itself.
pub open spec fn name_piece(token: TokenView) -> Option<Seq<char>> {
    match token {
        TokenView::Ident(text) => Some(text),
        TokenView::Hyphen => Some(seq!['-']),
        _ => None,
    }
}

/// The name that starts at `pos`: the text of the longest run of identifiers and hyphens,
/// and the position behind it.
pub open spec fn name_at(ts: Seq<TokenView>, pos: int) -> (Seq<char>, int)
    decreases ts.len() - pos,
{
    if inside(ts, pos) && name_piece(ts[pos]) is Some {
        let rest = name_at(ts, pos + 1);
        (name_piece(ts[pos])->0 + rest.0, rest.1)
    } else {
        (Seq::empty(), pos)
    }
}

/// A result with `atoms` put in front of the values it holds.
pub open spec fn with_front(
    atoms: Seq<AtomView>,
    rest: Result<(Seq<AtomView>, int), ParseErrorView>,
) -> Result<(Seq<AtomView>, int), ParseErrorView> {
    match rest {
        Ok((values, next)) => Ok((atoms + values, next)),
        Err(e) => Err(e),
    }
}

/// The literal values that start at `pos`, and the position behind the comma that ends
/// them, or the end. `prop` is the property that the values belong to.
pub open spec fn values_at(ts: Seq<TokenView>, pos: int, prop: Seq<char>) -> Result<
    (Seq<AtomView>, int),
    ParseErrorView,
>
    decreases ts.len() - pos,
{
    if !inside(ts, pos) {
        Ok((Seq::empty(), pos))
    } else {
        match ts[pos] {
            TokenView::Comma => Ok((Seq::empty(), pos + 1)),
            TokenView::Ident(text) => with_front(
                seq![AtomView::Identifier(text)],
                values_at(ts, pos + 1, prop),
            ),
            TokenView::Int { digits, unit } => match magnitude_of(digits) {
                Some(magnitude) => with_front(
                    seq![AtomView::NumericLiteral { magnitude, unit }],
                    values_at(ts, pos + 1, prop),
                ),
                None => Err(ParseErrorView::InvalidNumericLiteral),
            },
            TokenView::Hyphen => if inside(ts, pos + 1) && ts[pos + 1] is Int {
                Err(ParseErrorView::InvalidNumericLiteral)
            } else {
                Err(ParseErrorView::UnexpectedToken(prop))
            },
            _ => Err(ParseErrorView::UnexpectedToken(prop)),
        }
    }
}

/// The values behind the colon at `colon`, and the position behind them: one variable
/// reference where a `$` comes first, literal values otherwise.
pub open spec fn value_list_at(ts: Seq<TokenView>, colon: int, prop: Seq<char>) -> Result<
    (Seq<AtomView>, int),
    ParseErrorView,
> {
    if inside(ts, colon + 1) && ts[colon + 1] is Dollar {
        if inside(ts, colon + 2) && ts[colon + 2] is Ident {
            let values = seq![AtomView::VariableReference(ts[colon + 2]->Ident_0)];
            if !inside(ts, colon + 3) {
                Ok((values, colon + 3))
            } else if ts[colon + 3] is Comma {
                Ok((values, colon + 4))
            } else {
                Err(ParseErrorView::UnexpectedToken(prop))
            }
        } else {
            Err(ParseErrorView::MissingVariableIdentifier)
        }
    } else {
        values_at(ts, colon + 1, prop)
    }
}

/// The rule that starts at `pos`, and the position behind it.
pub open spec fn rule_at(ts: Seq<TokenView>, pos: int) -> Result<(RuleView, int), ParseErrorView> {
    let (prop, colon) = name_at(ts, pos);
    if !inside(ts, colon) {
        Err(ParseErrorView::MissingColon)
    } else if colon == pos || !(ts[colon] is Colon) {
        Err(ParseErrorView::UnexpectedToken(prop))
    } else {
        match value_list_at(ts, colon, prop) {
            Ok((values, next)) => Ok((RuleView { prop, values }, next)),
            Err(e) => Err(e),
        }
    }
}

/// A name ends at or behind the position where it starts, and not behind the end of the
/// tokens unless it starts there.
pub proof fn lemma_name_at_bounds(ts: Seq<TokenView>, pos: int)
    ensures
        pos <= name_at(ts, pos).1,
        pos <= ts.len() ==> name_at(ts, pos).1 <= ts.len(),
    decreases ts.len() - pos,
{
    if inside(ts, pos) && name_piece(ts[pos]) is Some {
        lemma_name_at_bounds(ts, pos + 1);
    }
}

/// Literal values end at or behind the position where they start, and not behind the end
/// of the tokens unless they start there.
pub proof fn lemma_values_at_bounds(ts: Seq<TokenView>, pos: int, prop: Seq<char>)
    ensures
        values_at(ts, pos, prop) matches Ok((_, next)) ==> pos <= next && (pos <= ts.len()
            ==> next <= ts.len()),
    decreases ts.len() - pos,
{
    if inside(ts, pos) {
        lemma_values_at_bounds(ts, pos + 1, prop);
    }
}

/// A rule holds at least two tokens.
pub proof fn lemma_rule_at_bounds(ts: Seq<TokenView>, pos: int)
    ensures
        rule_at(ts, pos) matches Ok((_, next)) ==> inside(ts, pos) && pos + 2 <= next <= ts.len(),
{
    lemma_name_at_bounds(ts, pos);
    let (prop, colon) = name_at(ts, pos);
    if inside(ts, colon) {
        lemma_values_at_bounds(ts, colon + 1, prop);
    }
}

/// Reads the name that starts at `pos`.
pub fn parse_name(tokens: &[Token], pos: usize) -> (r: (String, usize))
    ensures
        (r.0@, r.1 as int) == name_at(token_views(tokens@), pos as int),
        pos <= r.1,
        pos <= tokens.len() ==> r.1 <= tokens.len(),
{
    let ghost ts = token_views(tokens@);
    let mut name = String::new();
    let mut i: usize = pos;
    loop
        invariant
            pos <= i,
            pos <= tokens.len() ==> i <= tokens.len(),
            ts == token_views(tokens@),
            name_at(ts, pos as int) == (name@ + name_at(ts, i as int).0, name_at(ts, i as int).1),
        ensures
            pos <= i,
            pos <= tokens.len() ==> i <= tokens.len(),
            (name@, i as int) == name_at(ts, pos as int),
        decreases tokens.len() - i,
    {
        if i >= tokens.len() {
            break ;
        }
        match &tokens[i] {
            Token::Ident(text) => {
                proof {
                    let rest = name_at(ts, i as int + 1);
                    assert(name@ + (text@ + rest.0) =~= name@ + text@ + rest.0);
                }
                name.append(text.as_str());
            },
            Token::Hyphen => {
                proof {
                    let rest = name_at(ts, i as int + 1);
                    assert(name@ + (seq!['-'] + rest.0) =~= name@.push('-') + rest.0);
                }
                name.push('-');
            },
            _ => {
                break ;
            },
        }
        i += 1;
    }
    (name, i)
}

/// Reads the literal values that start at `pos`, for the property `prop`.
pub fn parse_values(tokens: &[Token], pos: usize, prop: &str) -> (r: Result<
    (Vec<ValueAtom>, usize),
    ParseError,
>)
    ensures
        match r {
            Ok((values, next)) => values_at(token_views(tokens@), pos as int, prop@) == Ok::<
                _,
                ParseErrorView,
            >((atom_views(values@), next as int)) && pos <= next && (pos <= tokens.len() ==> next
                <= tokens.len()),
            Err(e) => values_at(token_views(tokens@), pos as int, prop@) == Err::<
                (Seq<AtomView>, int),
                _,
            >(e@),
        },
{
    let ghost ts = token_views(tokens@);
    let ghost goal = values_at(ts, pos as int, prop@);
    let mut values: Vec<ValueAtom> = Vec::new();
    let mut i: usize = pos;
    assert(with_front(atom_views(values@), values_at(ts, i as int, prop@)) =~= goal) by {
        if let Ok((rest, next)) = values_at(ts, i as int, prop@) {
            assert(atom_views(values@) + rest =~= rest);
        }
    }
    while i < tokens.len()
        invariant
            pos <= i,
            pos <= tokens.len() ==> i <= tokens.len(),
            ts == token_views(tokens@),
            goal == values_at(ts, pos as int, prop@),
            goal == with_front(atom_views(values@), values_at(ts, i as int, prop@)),
        decreases tokens.len() - i,
    {
        let ghost before = atom_views(values@);
        let ghost rest = values_at(ts, i as int + 1, prop@);
        match &tokens[i] {
            Token::Comma => {
                assert(before + Seq::<AtomView>::empty() =~= before);
                return Ok((values, i + 1));
            },
            Token::Ident(text) => {
                let atom = ValueAtom::Identifier(text.clone());
                proof {
                    assert(atom_views(values@.push(atom)) =~= before.push(atom@));
                    if let Ok((more, next)) = rest {
                        assert(before + (seq![atom@] + more) =~= before.push(atom@) + more);
                    }
                }
                values.push(atom);
            },
            Token::Int { digits, unit } => {
                match parse_magnitude(digits.as_str()) {
                    Some(magnitude) => {
                        let atom = ValueAtom::NumericLiteral { magnitude, unit: unit.clone() };
                        proof {
                            assert(atom_views(values@.push(atom)) =~= before.push(atom@));
                            if let Ok((more, next)) = rest {
                                assert(before + (seq![atom@] + more) =~= before.push(atom@) + more);
                            }
                        }
                        values.push(atom);
                    },
                    None => {
                        return Err(ParseError::InvalidNumericLiteral);
                    },
                }
            },
            Token::Hyphen => {
                if i + 1 < tokens.len() {
                    if let Token::Int { .. } = &tokens[i + 1] {
                        return Err(ParseError::InvalidNumericLiteral);
                    }
                }
                return Err(ParseError::UnexpectedToken(prop.to_owned()));
            },
            _ => {
                return Err(ParseError::UnexpectedToken(prop.to_owned()));
            },
        }
        i += 1;
    }
    assert(atom_views(values@) + Seq::<AtomView>::empty() =~= atom_views(values@));
    Ok((values, i))
}

impl Rule {
    /// Reads the rule that starts at `pos`, and tells where the next one starts.
    pub fn parse(tokens: &[Token], pos: usize) -> (r: Result<(Rule, usize), ParseError>)
        ensures
            match r {
                Ok((rule, next)) => rule_at(token_views(tokens@), pos as int) == Ok::<
                    _,
                    ParseErrorView,
                >((rule@, next as int)) && pos + 2 <= next <= tokens.len(),
                Err(e) => rule_at(token_views(tokens@), pos as int) == Err::<(RuleView, int), _>(
                    e@,
                ),
            },
    {
        let ghost ts = token_views(tokens@);
        proof {
            lemma_rule_at_bounds(ts, pos as int);
        }
        let end = tokens.len();
        let (prop, colon) = parse_name(tokens, pos);
        if colon >= end {
            return Err(ParseError::MissingColon);
        }
        if colon == pos {
            return Err(ParseError::UnexpectedToken(prop));
        }
        match &tokens[colon] {
            Token::Colon => {},
            _ => {
                return Err(ParseError::UnexpectedToken(prop));
            },
        }
        if colon + 1 < end {
            if let Token::Dollar = &tokens[colon + 1] {
                if colon + 2 < end {
                    if let Token::Ident(name) = &tokens[colon + 2] {
                        let mut values: Vec<ValueAtom> = Vec::new();
                        values.push(ValueAtom::VariableReference(name.clone()));
                        assert(atom_views(values@) =~= seq![AtomView::VariableReference(name@)]);
                        if colon + 3 >= end {
                            return Ok((Rule { prop, values }, colon + 3));
                        }
                        if let Token::Comma = &tokens[colon + 3] {
                            return Ok((Rule { prop, values }, colon + 4));
                        }
                        return Err(ParseError::UnexpectedToken(prop));
                    }
                }
                return Err(ParseError::MissingVariableIdentifier);
            }
        }
        match parse_values(tokens, colon + 1, prop.as_str()) {
            Ok((values, next)) => Ok((Rule { prop, values }, next)),
            Err(e) => Err(e),
        }
    }
}

/// Whether one of `rules` declares `prop`.
pub open spec fn has_property(rules: Seq<RuleView>, prop: Seq<char>) -> bool {
    exists|i: int| 0 <= i < rules.len() && (#[trigger] rules[i]).prop == prop
}

/// The declaration set that runs from `pos` to the end, behind the rules `seen` that were
/// read before: rule after rule, stopping at the first that cannot be read or that
/// declares a property again.
pub open spec fn rules_at(ts: Seq<TokenView>, pos: int, seen: Seq<RuleView>) -> Result<
    Seq<RuleView>,
    ParseErrorView,
>
    decreases ts.len() - pos,
    via rules_at_decreases
{
    if !inside(ts, pos) {
        Ok(seen)
    } else {
        match rule_at(ts, pos) {
            Err(e) => Err(e),
            Ok((rule, next)) => if has_property(seen, rule.prop) {
                Err(ParseErrorView::DuplicateProperty(rule.prop))
            } else {
                rules_at(ts, next, seen.push(rule))
            },
        }
    }
}

#[via_fn]
proof fn rules_at_decreases(ts: Seq<TokenView>, pos: int, seen: Seq<RuleView>) {
    lemma_rule_at_bounds(ts, pos);
}

/// The rules that run from `pos` to the end as they are written, whether or not a
/// property is declared twice.
pub open spec fn declarations_at(ts: Seq<TokenView>, pos: int) -> Result<
    Seq<RuleView>,
    ParseErrorView,
>
    decreases ts.len() - pos,
    via declarations_at_decreases
{
    if !inside(ts, pos) {
        Ok(Seq::empty())
    } else {
        match rule_at(ts, pos) {
            Err(e) => Err(e),
            Ok((rule, next)) => match declarations_at(ts, next) {
                Ok(rest) => Ok(seq![rule] + rest),
                Err(e) => Err(e),
            },
        }
    }
}

#[via_fn]
proof fn declarations_at_decreases(ts: Seq<TokenView>, pos: int) {
    lemma_rule_at_bounds(ts, pos);
}

/// The property of the first of `rules` that one of `seen`, or a rule before it,
/// declares too.
pub open spec fn first_repeat(seen: Seq<RuleView>, rules: Seq<RuleView>) -> Option<Seq<char>>
    decreases rules.len(),
{
    if rules.len() == 0 {
        None
    } else if has_property(seen, rules[0].prop) {
        Some(rules[0].prop)
    } else {
        first_repeat(seen.push(rules[0]), rules.drop_first())
    }
}

/// The declaration set that the whole of `ts` writes.
pub open spec fn declaration_set(ts: Seq<TokenView>) -> Result<Seq<RuleView>, ParseErrorView> {
    rules_at(ts, 0, Seq::empty())
}

/// Tells whether one of `rules` declares `prop`.
pub fn declares(rules: &Vec<Rule>, prop: &String) -> (r: bool)
    ensures
        r == has_property(rule_views(rules@), prop@),
{
    let mut i: usize = 0;
    while i < rules.len()
        invariant
            i <= rules.len(),
            forall|k: int| 0 <= k < i ==> (#[trigger] rule_views(rules@)[k]).prop != prop@,
        decreases rules.len() - i,
    {
        if rules[i].prop == *prop {
            assert(rule_views(rules@)[i as int].prop == prop@);
            return true;
        }
        i += 1;
    }
    false
}

impl Rules {
    /// Reads the declaration set that runs from `pos` to the end of the tokens.
    pub fn parse_from(tokens: &[Token], pos: usize) -> (r: Result<Rules, ParseError>)
        ensures
            match r {
                Ok(rules) => rules_at(token_views(tokens@), pos as int, Seq::empty()) == Ok::<
                    _,
                    ParseErrorView,
                >(rules@),
                Err(e) => rules_at(token_views(tokens@), pos as int, Seq::empty()) == Err::<
                    Seq<RuleView>,
                    _,
                >(e@),
            },
    {
        let ghost ts = token_views(tokens@);
        let ghost goal = rules_at(ts, pos as int, Seq::empty());
        let mut rules: Vec<Rule> = Vec::new();
        let mut i: usize = pos;
        assert(rule_views(rules@) =~= Seq::empty());
        while i < tokens.len()
            invariant
                ts == token_views(tokens@),
                goal == rules_at(ts, pos as int, Seq::empty()),
                goal == rules_at(ts, i as int, rule_views(rules@)),
            decreases tokens.len() - i,
        {
            match Rule::parse(tokens, i) {
                Err(e) => {
                    return Err(e);
                },
                Ok((rule, next)) => {
                    if declares(&rules, &rule.prop) {
                        return Err(ParseError::DuplicateProperty(rule.prop));
                    }
                    proof {
                        assert(rule_views(rules@.push(rule)) =~= rule_views(rules@).push(rule@));
                    }
                    rules.push(rule);
                    i = next;
                },
            }
        }
        Ok(Rules(rules))
    }

    /// Reads the declaration set that `tokens` writes. It is an error for a property to
    /// be declared twice.
    pub fn parse(tokens: &[Token]) -> (r: Result<Rules, ParseError>)
        ensures
            match r {
                Ok(rules) => declaration_set(token_views(tokens@)) == Ok::<_, ParseErrorView>(rules@),
                Err(e) => declaration_set(token_views(tokens@)) == Err::<Seq<RuleView>, _>(e@),
            },
    {
        Rules::parse_from(tokens, 0)
    }
}

} // verus!
