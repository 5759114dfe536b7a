//! Variable definitions: the custom properties of the root block.
//!
//! A definition is a name, a colon and a value; a comma ends it. The name is a run of
//! identifiers and hyphens. The value is either a `$` and one identifier, which refers to
//! another variable, or one or more pieces that are each a `#` and an identifier.
//!
//! The definitions are kept in the order in which their names were first defined, and a
//! name is kept once: defining it again replaces the value in its place.

use crate::error::{ParseError, ParseErrorView};
use crate::parser::{inside, lemma_name_at_bounds, name_at, parse_name};
use crate::token::{token_views, Token, TokenView};
use vstd::prelude::*;

verus! {

/// One variable definition.
#[derive(Debug, PartialEq, Eq)]
pub struct TokenDef {
    pub name: String,
    pub value: String,
}

/// The mathematical value of a [`TokenDef`].
pub struct DefView {
    pub name: Seq<char>,
    pub value: Seq<char>,
}

impl View for TokenDef {
    type V = DefView;

    open spec fn view(&self) -> DefView {
        DefView { name: self.name@, value: self.value@ }
    }
}

impl Clone for TokenDef {
    fn clone(&self) -> (r: Self)
        ensures
            r == *self,
    {
        TokenDef { name: self.name.clone(), value: self.value.clone() }
    }
}

/// The views of a sequence of definitions.
pub open spec fn def_views(defs: Seq<TokenDef>) -> Seq<DefView> {
    defs.map_values(|d: TokenDef| d@)
}

/// Whether no two of the definitions share a name.
pub open spec fn distinct_names(defs: Seq<DefView>) -> bool {
    forall|i: int, j: int|
        0 <= i < j < defs.len() ==> (#[trigger] defs[i]).name != (#[trigger] defs[j]).name
}

/// Whether one of the definitions defines `name`.
pub open spec fn defines(defs: Seq<DefView>, name: Seq<char>) -> bool {
    exists|i: int| 0 <= i < defs.len() && (#[trigger] defs[i]).name == name
}

/// The definitions with `def` put in: in the place of the one that has its name, or at
/// the end where none has.
pub open spec fn with_def(defs: Seq<DefView>, def: DefView) -> Seq<DefView> {
    if defines(defs, def.name) {
        defs.map_values(
            |d: DefView|
                if d.name == def.name {
                    def
                } else {
                    d
                },
        )
    } else {
        defs.push(def)
    }
}

/// The value that a reference to the variable `name` stands for.
pub open spec fn reference_to(name: Seq<char>) -> Seq<char> {
    "var(--"@ + name + ")"@
}

/// A result with `text` put in front of the pieces it holds.
pub open spec fn with_text_front(text: Seq<char>, rest: Result<(Seq<char>, int), ParseErrorView>) -> Result<
    (Seq<char>, int),
    ParseErrorView,
> {
    match rest {
        Ok((more, next)) => Ok((text + more, next)),
        Err(e) => Err(e),
    }
}

/// The pieces of a literal value that start at `pos`, written one behind the other, and
/// the position behind the comma that ends them, or the end. `name` is the name that is
/// being defined.
pub open spec fn pieces_at(ts: Seq<TokenView>, pos: int, name: Seq<char>) -> Result<
    (Seq<char>, int),
    ParseErrorView,
>
    decreases ts.len() - pos,
{
    if !inside(ts, pos) {
        Ok((Seq::empty(), pos))
    } else {
        match ts[pos] {
            TokenView::Comma => Ok((Seq::empty(), pos + 1)),
            TokenView::Hash => if inside(ts, pos + 1) && ts[pos + 1] is Ident {
                with_text_front(seq!['#'] + ts[pos + 1]->Ident_0, pieces_at(ts, pos + 2, name))
            } else {
                Err(ParseErrorView::UnexpectedToken(name))
            },
            _ => Err(ParseErrorView::UnexpectedToken(name)),
        }
    }
}

/// The value behind the colon at `colon`, and the position behind it.
pub open spec fn value_at(ts: Seq<TokenView>, colon: int, name: Seq<char>) -> Result<
    (Seq<char>, int),
    ParseErrorView,
> {
    if inside(ts, colon + 1) && ts[colon + 1] is Dollar {
        if inside(ts, colon + 2) && ts[colon + 2] is Ident {
            let value = reference_to(ts[colon + 2]->Ident_0);
            if !inside(ts, colon + 3) {
                Ok((value, colon + 3))
            } else if ts[colon + 3] is Comma {
                Ok((value, colon + 4))
            } else {
                Err(ParseErrorView::UnexpectedToken(name))
            }
        } else {
            Err(ParseErrorView::MissingVariableIdentifier)
        }
    } else if inside(ts, colon + 1) && ts[colon + 1] is Hash {
        pieces_at(ts, colon + 1, name)
    } else {
        Err(ParseErrorView::UnexpectedToken(name))
    }
}

/// The definition that starts at `pos`, and the position behind it.
pub open spec fn def_at(ts: Seq<TokenView>, pos: int) -> Result<(DefView, int), ParseErrorView> {
    let (name, colon) = name_at(ts, pos);
    if !inside(ts, colon) {
        Err(ParseErrorView::MissingColon)
    } else if colon == pos || !(ts[colon] is Colon) {
        Err(ParseErrorView::UnexpectedToken(name))
    } else {
        match value_at(ts, colon, name) {
            Ok((value, next)) => Ok((DefView { name, value }, next)),
            Err(e) => Err(e),
        }
    }
}

/// Pieces end at or behind the position where they start, and not behind the end of the
/// tokens unless they start there.
pub proof fn lemma_pieces_at_bounds(ts: Seq<TokenView>, pos: int, name: Seq<char>)
    ensures
        pieces_at(ts, pos, name) matches Ok((_, next)) ==> pos <= next && (pos <= ts.len() ==> next
            <= ts.len()),
    decreases ts.len() - pos,
{
    if inside(ts, pos) && ts[pos] is Hash && inside(ts, pos + 1) {
        lemma_pieces_at_bounds(ts, pos + 2, name);
    }
}

/// A definition holds at least three tokens.
pub proof fn lemma_def_at_bounds(ts: Seq<TokenView>, pos: int)
    ensures
        def_at(ts, pos) matches Ok((_, next)) ==> inside(ts, pos) && pos + 3 <= next <= ts.len(),
{
    lemma_name_at_bounds(ts, pos);
    let (name, colon) = name_at(ts, pos);
    if inside(ts, colon + 1) {
        lemma_pieces_at_bounds(ts, colon + 1, name);
        if ts[colon + 1] is Hash && inside(ts, colon + 2) {
            lemma_pieces_at_bounds(ts, colon + 3, name);
        }
    }
}

/// The definitions that run from `pos` to the end, put into the definitions `seen`.
pub open spec fn defs_at(ts: Seq<TokenView>, pos: int, seen: Seq<DefView>) -> Result<
    Seq<DefView>,
    ParseErrorView,
>
    decreases ts.len() - pos,
    via defs_at_decreases
{
    if !inside(ts, pos) {
        Ok(seen)
    } else {
        match def_at(ts, pos) {
            Err(e) => Err(e),
            Ok((def, next)) => defs_at(ts, next, with_def(seen, def)),
        }
    }
}

#[via_fn]
proof fn defs_at_decreases(ts: Seq<TokenView>, pos: int, seen: Seq<DefView>) {
    lemma_def_at_bounds(ts, pos);
}

/// The definitions that the whole of `ts` writes.
pub open spec fn definitions_of(ts: Seq<TokenView>) -> Result<Seq<DefView>, ParseErrorView> {
    defs_at(ts, 0, Seq::empty())
}

/// The text of one definition inside the root block.
pub open spec fn definition_text(def: DefView) -> Seq<char> {
    " --"@ + def.name + ": "@ + def.value + ";"@
}

/// The texts of the definitions, one behind the other.
pub open spec fn definition_texts(defs: Seq<DefView>) -> Seq<char>
    decreases defs.len(),
{
    if defs.len() == 0 {
        Seq::empty()
    } else {
        definition_texts(defs.drop_last()) + definition_text(defs.last())
    }
}

/// The root block that declares the definitions: `:root { --name: value; --name: value; }`.
pub open spec fn root_block(defs: Seq<DefView>) -> Seq<char> {
    ":root {"@ + definition_texts(defs) + " }"@
}

/// Reads the pieces of a literal value that start at `pos`, for the name `name`.
pub fn parse_pieces(tokens: &[Token], pos: usize, name: &str) -> (r: Result<(String, usize), ParseError>)
    ensures
        match r {
            Ok((value, next)) => pieces_at(token_views(tokens@), pos as int, name@) == Ok::<
                _,
                ParseErrorView,
            >((value@, next as int)) && pos <= next && (pos <= tokens.len() ==> next
                <= tokens.len()),
            Err(e) => pieces_at(token_views(tokens@), pos as int, name@) == Err::<
                (Seq<char>, int),
                _,
            >(e@),
        },
{
    let ghost ts = token_views(tokens@);
    let ghost goal = pieces_at(ts, pos as int, name@);
    let mut value = String::new();
    let mut i: usize = pos;
    assert(with_text_front(value@, pieces_at(ts, i as int, name@)) =~= goal) by {
        if let Ok((more, next)) = pieces_at(ts, i as int, name@) {
            assert(value@ + more =~= more);
        }
    }
    while i < tokens.len()
        invariant
            pos <= i,
            pos <= tokens.len() ==> i <= tokens.len(),
            ts == token_views(tokens@),
            goal == pieces_at(ts, pos as int, name@),
            goal == with_text_front(value@, pieces_at(ts, i as int, name@)),
        decreases tokens.len() - i,
    {
        let ghost before = value@;
        match &tokens[i] {
            Token::Comma => {
                assert(before + Seq::<char>::empty() =~= before);
                return Ok((value, i + 1));
            },
            Token::Hash => {
                if i + 1 < tokens.len() {
                    if let Token::Ident(text) = &tokens[i + 1] {
                        proof {
                            if let Ok((more, next)) = pieces_at(ts, i as int + 2, name@) {
                                assert(before + (seq!['#'] + text@ + more) =~= before.push('#')
                                    + text@ + more);
                            }
                        }
                        value.push('#');
                        value.append(text.as_str());
                        i += 2;
                        continue ;
                    }
                }
                return Err(ParseError::UnexpectedToken(name.to_owned()));
            },
            _ => {
                return Err(ParseError::UnexpectedToken(name.to_owned()));
            },
        }
    }
    assert(value@ + Seq::<char>::empty() =~= value@);
    Ok((value, i))
}

impl TokenDef {
    /// Reads the definition that starts at `pos`, and tells where the next one starts.
    pub fn parse(tokens: &[Token], pos: usize) -> (r: Result<(TokenDef, usize), ParseError>)
        ensures
            match r {
                Ok((def, next)) => def_at(token_views(tokens@), pos as int) == Ok::<
                    _,
                    ParseErrorView,
                >((def@, next as int)) && pos + 3 <= next <= tokens.len(),
                Err(e) => def_at(token_views(tokens@), pos as int) == Err::<(DefView, int), _>(e@),
            },
    {
        let ghost ts = token_views(tokens@);
        proof {
            lemma_def_at_bounds(ts, pos as int);
        }
        let end = tokens.len();
        let (name, colon) = parse_name(tokens, pos);
        if colon >= end {
            return Err(ParseError::MissingColon);
        }
        if colon == pos {
            return Err(ParseError::UnexpectedToken(name));
        }
        match &tokens[colon] {
            Token::Colon => {},
            _ => {
                return Err(ParseError::UnexpectedToken(name));
            },
        }
        if colon + 1 >= end {
            return Err(ParseError::UnexpectedToken(name));
        }
        match &tokens[colon + 1] {
            Token::Dollar => {
                if colon + 2 < end {
                    if let Token::Ident(target) = &tokens[colon + 2] {
                        let mut value = "var(--".to_owned();
                        value.append(target.as_str());
                        value.append(")");
                        if colon + 3 >= end {
                            return Ok((TokenDef { name, value }, colon + 3));
                        }
                        if let Token::Comma = &tokens[colon + 3] {
                            return Ok((TokenDef { name, value }, colon + 4));
                        }
                        return Err(ParseError::UnexpectedToken(name));
                    }
                }
                Err(ParseError::MissingVariableIdentifier)
            },
            Token::Hash => match parse_pieces(tokens, colon + 1, name.as_str()) {
                Ok((value, next)) => Ok((TokenDef { name, value }, next)),
                Err(e) => Err(e),
            },
            _ => Err(ParseError::UnexpectedToken(name)),
        }
    }
}

/// The definitions of a build, in the order in which their names were first defined.
#[derive(Debug, PartialEq, Eq)]
pub struct TokenDefs {
    tokens: Vec<TokenDef>,
}

impl View for TokenDefs {
    type V = Seq<DefView>;

    closed spec fn view(&self) -> Seq<DefView> {
        def_views(self.tokens@)
    }
}

/// The definitions `seen` with those of `more` put in one after the other.
pub open spec fn with_defs(seen: Seq<DefView>, more: Seq<DefView>) -> Seq<DefView>
    decreases more.len(),
{
    if more.len() == 0 {
        seen
    } else {
        with_def(with_defs(seen, more.drop_last()), more.last())
    }
}

/// The definitions with `def` put in the place of each of the first `upto` that has its
/// name.
pub open spec fn redefined_upto(defs: Seq<DefView>, upto: int, def: DefView) -> Seq<DefView> {
    Seq::new(
        defs.len(),
        |k: int|
            if k < upto && defs[k].name == def.name {
                def
            } else {
                defs[k]
            },
    )
}

/// Putting a definition in keeps the names distinct.
pub proof fn lemma_with_def_distinct(defs: Seq<DefView>, def: DefView)
    requires
        distinct_names(defs),
    ensures
        distinct_names(with_def(defs, def)),
{
    let out = with_def(defs, def);
    if defines(defs, def.name) {
        assert forall|i: int, j: int| 0 <= i < j < out.len() implies (#[trigger] out[i]).name != (
        #[trigger] out[j]).name by {
            assert(out[i].name == defs[i].name);
            assert(out[j].name == defs[j].name);
        }
    } else {
        assert forall|i: int, j: int| 0 <= i < j < out.len() implies (#[trigger] out[i]).name != (
        #[trigger] out[j]).name by {
            if j == defs.len() {
                assert(defs[i].name != def.name);
            }
        }
    }
}

impl TokenDefs {
    #[verifier::type_invariant]
    spec fn names_are_distinct(&self) -> bool {
        distinct_names(def_views(self.tokens@))
    }

    /// No definitions.
    pub fn new() -> (r: TokenDefs)
        ensures
            r@ == Seq::<DefView>::empty(),
            distinct_names(r@),
    {
        let tokens: Vec<TokenDef> = Vec::new();
        assert(def_views(tokens@) =~= Seq::empty());
        TokenDefs { tokens }
    }

    /// The number of definitions.
    pub fn len(&self) -> (r: usize)
        ensures
            r == self@.len(),
            distinct_names(self@),
    {
        proof {
            use_type_invariant(self);
        }
        self.tokens.len()
    }

    /// The definition at position `i`, if there are that many.
    pub fn get(&self, i: usize) -> (r: Option<&TokenDef>)
        ensures
            r is Some == (i < self@.len()),
            r matches Some(def) ==> def@ == self@[i as int],
    {
        if i < self.tokens.len() {
            Some(&self.tokens[i])
        } else {
            None
        }
    }

    /// Puts `def` in: in the place of the definition that has its name, or at the end.
    pub fn insert(&mut self, def: TokenDef)
        ensures
            final(self)@ == with_def(old(self)@, def@),
            distinct_names(final(self)@),
    {
        proof {
            use_type_invariant(&*self);
        }
        let ghost before = def_views(self.tokens@);
        let mut tokens: Vec<TokenDef> = Vec::new();
        assert(def_views(tokens@) =~= Seq::empty());
        core::mem::swap(&mut self.tokens, &mut tokens);
        let mut found = false;
        let mut i: usize = 0;
        assert(def_views(tokens@) =~= redefined_upto(before, 0, def@));
        while i < tokens.len()
            invariant
                i <= tokens.len(),
                tokens.len() == before.len(),
                found == defines(before.take(i as int), def@.name),
                def_views(tokens@) == redefined_upto(before, i as int, def@),
            decreases tokens.len() - i,
        {
            let ghost seen = before.take(i as int);
            let ghost next = before.take(i as int + 1);
            let ghost held = tokens@;
            assert(def_views(held)[i as int] == before[i as int]);
            let same = tokens[i].name == def.name;
            proof {
                if defines(seen, def@.name) {
                    let k = choose|k: int| 0 <= k < seen.len() && (#[trigger] seen[k]).name == def@.name;
                    assert(next[k].name == def@.name);
                }
                if same {
                    assert(next[i as int].name == def@.name);
                }
                if defines(next, def@.name) && !same {
                    let k = choose|k: int| 0 <= k < next.len() && (#[trigger] next[k]).name == def@.name;
                    assert(seen[k].name == def@.name);
                }
            }
            if same {
                tokens.set(i, def.clone());
                assert(def_views(tokens@) =~= def_views(held).update(i as int, def@));
                found = true;
            }
            assert(def_views(tokens@) =~= redefined_upto(before, i as int + 1, def@));
            i += 1;
        }
        proof {
            assert(before.take(i as int) == before);
            lemma_with_def_distinct(before, def@);
        }
        if found {
            assert(def_views(tokens@) =~= with_def(before, def@));
        } else {
            proof {
                assert forall|k: int| 0 <= k < before.len() implies before[k].name != def@.name by {
                    if before[k].name == def@.name {
                        assert(defines(before, def@.name));
                    }
                }
                assert(def_views(tokens@) =~= before);
                assert(def_views(tokens@.push(def)) =~= before.push(def@));
            }
            tokens.push(def);
        }
        core::mem::swap(&mut self.tokens, &mut tokens);
    }

    /// Puts the definitions of `other` in, one after the other.
    pub fn absorb(&mut self, other: &TokenDefs)
        ensures
            final(self)@ == with_defs(old(self)@, other@),
            distinct_names(final(self)@),
    {
        proof {
            use_type_invariant(&*self);
        }
        let ghost before = self@;
        let mut i: usize = 0;
        assert(other@.take(0) =~= Seq::empty());
        while i < other.tokens.len()
            invariant
                i <= other.tokens.len(),
                distinct_names(self@),
                self@ == with_defs(before, other@.take(i as int)),
            decreases other.tokens.len() - i,
        {
            proof {
                assert(other@.take(i as int + 1).drop_last() == other@.take(i as int));
                assert(other@.take(i as int + 1).last() == other.tokens@[i as int]@);
            }
            self.insert(other.tokens[i].clone());
            i += 1;
        }
        proof {
            assert(other@.take(i as int) == other@);
        }
    }

    /// Reads the definitions that `tokens` writes.
    pub fn parse(tokens: &[Token]) -> (r: Result<TokenDefs, ParseError>)
        ensures
            match r {
                Ok(defs) => definitions_of(token_views(tokens@)) == Ok::<_, ParseErrorView>(defs@)
                    && distinct_names(defs@),
                Err(e) => definitions_of(token_views(tokens@)) == Err::<Seq<DefView>, _>(e@),
            },
    {
        let ghost ts = token_views(tokens@);
        let mut defs = TokenDefs::new();
        let mut i: usize = 0;
        while i < tokens.len()
            invariant
                ts == token_views(tokens@),
                distinct_names(defs@),
                definitions_of(ts) == defs_at(ts, i as int, defs@),
            decreases tokens.len() - i,
        {
            match TokenDef::parse(tokens, i) {
                Err(e) => {
                    return Err(e);
                },
                Ok((def, next)) => {
                    defs.insert(def);
                    i = next;
                },
            }
        }
        Ok(defs)
    }

    /// The root block that declares the definitions, in their order.
    pub fn to_css(&self) -> (r: String)
        ensures
            r@ == root_block(self@),
    {
        let mut css = ":root {".to_owned();
        let mut i: usize = 0;
        assert(self@.take(0) =~= Seq::empty());
        assert(css@ + Seq::<char>::empty() =~= css@);
        while i < self.tokens.len()
            invariant
                i <= self.tokens.len(),
                css@ == ":root {"@ + definition_texts(self@.take(i as int)),
            decreases self.tokens.len() - i,
        {
            let def = &self.tokens[i];
            proof {
                let sofar = definition_texts(self@.take(i as int));
                assert(self@.take(i as int + 1).drop_last() == self@.take(i as int));
                assert(self@.take(i as int + 1).last() == def@);
                assert(":root {"@ + sofar + " --"@ + def@.name + ": "@ + def@.value + ";"@ =~= ":root {"@
                    + (sofar + (" --"@ + def@.name + ": "@ + def@.value + ";"@)));
            }
            css.append(" --");
            css.append(def.name.as_str());
            css.append(": ");
            css.append(def.value.as_str());
            css.append(";");
            i += 1;
        }
        proof {
            assert(self@.take(i as int) == self@);
        }
        css.append(" }");
        css
    }
}

} // verus!
