//! The compile calls of a build.
//!
//! A [`BuildContext`] holds what a build has made so far: the fragments, the variable
//! definitions and the bundle. Every call that writes a fragment rebuilds the bundle as a
//! whole from the fragments. Where that fails the fragment stays written and the bundle
//! stays as it was.

use crate::bundle::bundle_of;
use crate::defs::{definitions_of, root_block, with_defs, DefView, TokenDefs};
use crate::dispatch::{dispatch_entries, DispatchTable};
use crate::error::{BundleError, CompileError, CompileErrorView, ParseError, ParseErrorView};
use crate::parser::rules_at;
use crate::recipe::{recipe_of, Recipe, RecipeView};
use crate::rule::{class_names_of, stylesheet_of, RuleView, Rules};
use crate::store::{written, FragmentStore, FragmentView, VARIABLES_FRAGMENT};
use crate::text::{join, join_strings, texts};
use crate::token::{token_views, Token, TokenView};
use vstd::prelude::*;

verus! {

/// What a build has made so far.
#[derive(Debug, PartialEq, Eq)]
pub struct BuildContext {
    /// The fragments of the compile calls.
    pub fragments: FragmentStore,
    /// The variable definitions of all calls.
    pub variables: TokenDefs,
    /// The bundle of the last rebuild that succeeded; empty before the first.
    pub bundle: String,
}

/// The mathematical value of a [`BuildContext`].
pub struct ContextView {
    pub fragments: Seq<FragmentView>,
    pub variables: Seq<DefView>,
    pub bundle: Seq<char>,
}

impl View for BuildContext {
    type V = ContextView;

    open spec fn view(&self) -> ContextView {
        ContextView { fragments: self.fragments@, variables: self.variables@, bundle: self.bundle@ }
    }
}

/// The bundle after a rebuild from `fragments`: the new bundle, or the bundle `before`
/// where the rebuild fails.
pub open spec fn rebuilt(fragments: Seq<FragmentView>, before: Seq<char>) -> Seq<char> {
    match bundle_of(fragments) {
        Ok(text) => text,
        Err(_) => before,
    }
}

/// The context after the text `css` was written under `id` at the time `now` and the
/// bundle was rebuilt.
pub open spec fn after_write(ctx: ContextView, id: Seq<char>, css: Seq<char>, now: u64) -> ContextView {
    let fragments = written(ctx.fragments, FragmentView { id, css, modified: now });
    ContextView { fragments, variables: ctx.variables, bundle: rebuilt(fragments, ctx.bundle) }
}

/// The context after the rules were compiled under `id` at the time `now`.
pub open spec fn after_declarations(ctx: ContextView, id: Seq<char>, rules: Seq<RuleView>, now: u64) -> ContextView {
    after_write(ctx, id, stylesheet_of(rules), now)
}

/// The context after the definitions were compiled at the time `now`.
pub open spec fn after_definitions(ctx: ContextView, defs: Seq<DefView>, now: u64) -> ContextView {
    let variables = with_defs(ctx.variables, defs);
    after_write(
        ContextView { variables, ..ctx },
        VARIABLES_FRAGMENT@,
        root_block(variables),
        now,
    )
}

/// What the tokens of a declaration call write: an identifier, a comma and a declaration
/// set.
pub open spec fn invocation_of(ts: Seq<TokenView>) -> Result<(Seq<char>, Seq<RuleView>), ParseErrorView> {
    if !(ts.len() > 0 && ts[0] is Ident) {
        Err(ParseErrorView::UnexpectedToken(Seq::empty()))
    } else if !(ts.len() > 1 && ts[1] is Comma) {
        Err(ParseErrorView::UnexpectedToken(ts[0]->Ident_0))
    } else {
        match rules_at(ts, 2, Seq::empty()) {
            Ok(rules) => Ok((ts[0]->Ident_0, rules)),
            Err(e) => Err(e),
        }
    }
}

/// Reads the tokens of a declaration call.
pub fn parse_invocation(tokens: &[Token]) -> (r: Result<(String, Rules), ParseError>)
    ensures
        match r {
            Ok((id, rules)) => invocation_of(token_views(tokens@)) == Ok::<_, ParseErrorView>(
                (id@, rules@),
            ),
            Err(e) => invocation_of(token_views(tokens@)) == Err::<(Seq<char>, Seq<RuleView>), _>(
                e@,
            ),
        },
{
    if tokens.len() == 0 {
        return Err(ParseError::UnexpectedToken(String::new()));
    }
    let id = match &tokens[0] {
        Token::Ident(id) => id.clone(),
        _ => {
            return Err(ParseError::UnexpectedToken(String::new()));
        },
    };
    if tokens.len() == 1 {
        return Err(ParseError::UnexpectedToken(id));
    }
    match &tokens[1] {
        Token::Comma => {},
        _ => {
            return Err(ParseError::UnexpectedToken(id));
        },
    }
    match Rules::parse_from(tokens, 2) {
        Ok(rules) => Ok((id, rules)),
        Err(e) => Err(e),
    }
}

impl BuildContext {
    /// The context of a build that has made nothing yet.
    pub fn new() -> (r: BuildContext)
        ensures
            r@ == (ContextView {
                fragments: Seq::empty(),
                variables: Seq::empty(),
                bundle: Seq::empty(),
            }),
    {
        BuildContext {
            fragments: FragmentStore::new(),
            variables: TokenDefs::new(),
            bundle: String::new(),
        }
    }

    /// Makes the bundle anew from the fragments. Where that fails the bundle stays as it
    /// was.
    pub fn rebuild(&mut self) -> (r: Result<(), BundleError>)
        ensures
            final(self)@ == (ContextView { bundle: rebuilt(old(self)@.fragments, old(self)@.bundle), ..old(self)@ }),
            match r {
                Ok(()) => bundle_of(old(self)@.fragments) is Ok,
                Err(e) => bundle_of(old(self)@.fragments) == Err::<Seq<char>, _>(e@),
            },
    {
        match self.fragments.bundle() {
            Ok(text) => {
                self.bundle = text;
                Ok(())
            },
            Err(e) => Err(e),
        }
    }

    /// Writes `css` under `id` at the time `now`, and rebuilds the bundle.
    pub fn write(&mut self, id: &str, css: &str, now: u64) -> (r: Result<(), BundleError>)
        ensures
            final(self)@ == after_write(old(self)@, id@, css@, now),
            match r {
                Ok(()) => bundle_of(final(self)@.fragments) is Ok,
                Err(e) => bundle_of(final(self)@.fragments) == Err::<Seq<char>, _>(e@),
            },
    {
        self.fragments.write(id, css, now);
        self.rebuild()
    }

    /// Compiles a declaration set under `id` at the time `now`: writes the CSS classes of
    /// its rules as the fragment `id`, rebuilds the bundle, and gives the class names of
    /// the rules in their order.
    pub fn compile_declarations(&mut self, id: &str, rules: &Rules, now: u64) -> (r: Result<
        Vec<String>,
        BundleError,
    >)
        ensures
            final(self)@ == after_declarations(old(self)@, id@, rules@, now),
            match r {
                Ok(names) => texts(names@) == class_names_of(rules@) && bundle_of(
                    final(self)@.fragments,
                ) is Ok,
                Err(e) => bundle_of(final(self)@.fragments) == Err::<Seq<char>, _>(e@),
            },
    {
        let css = rules.to_css_classes();
        match self.write(id, css.as_str(), now) {
            Ok(()) => Ok(rules.class_names()),
            Err(e) => Err(e),
        }
    }

    /// Compiles variable definitions at the time `now`: puts them into the definitions of
    /// the build, writes the root block of all definitions as the reserved fragment, and
    /// rebuilds the bundle.
    pub fn compile_variable_defs(&mut self, defs: &TokenDefs, now: u64) -> (r: Result<
        (),
        BundleError,
    >)
        ensures
            final(self)@ == after_definitions(old(self)@, defs@, now),
            match r {
                Ok(()) => bundle_of(final(self)@.fragments) is Ok,
                Err(e) => bundle_of(final(self)@.fragments) == Err::<Seq<char>, _>(e@),
            },
    {
        self.variables.absorb(defs);
        let css = self.variables.to_css();
        self.fragments.write_variable_block(css.as_str(), now);
        self.rebuild()
    }
}

/// The dispatch table of a recipe.
pub fn compile_recipe(recipe: &Recipe) -> (r: DispatchTable)
    ensures
        r@.arity == recipe@.variants.len(),
        r@.entries == dispatch_entries(recipe@),
{
    recipe.compile()
}

/// What a declaration call gives for its tokens in the context `ctx`: the context after
/// it, and the class names of the rules in one text, with a space between each two.
pub open spec fn csm_of(ctx: ContextView, ts: Seq<TokenView>, now: u64) -> (
    ContextView,
    Result<Seq<char>, CompileErrorView>,
) {
    match invocation_of(ts) {
        Err(e) => (ctx, Err(CompileErrorView::Parse(e))),
        Ok((id, rules)) => {
            let after = after_declarations(ctx, id, rules, now);
            match bundle_of(after.fragments) {
                Ok(_) => (after, Ok(join(class_names_of(rules), " "@))),
                Err(e) => (after, Err(CompileErrorView::Bundle(e))),
            }
        },
    }
}

/// Compiles the declaration call that `tokens` write: an identifier, a comma and a
/// declaration set. Gives the class names of the rules in one text, with a space between
/// each two.
pub fn csm(ctx: &mut BuildContext, tokens: &[Token], now: u64) -> (r: Result<String, CompileError>)
    ensures
        final(ctx)@ == csm_of(old(ctx)@, token_views(tokens@), now).0,
        match r {
            Ok(names) => csm_of(old(ctx)@, token_views(tokens@), now).1 == Ok::<_, CompileErrorView>(
                names@,
            ),
            Err(e) => csm_of(old(ctx)@, token_views(tokens@), now).1 == Err::<Seq<char>, _>(e@),
        },
{
    let (id, rules) = match parse_invocation(tokens) {
        Ok(parsed) => parsed,
        Err(e) => {
            return Err(CompileError::Parse(e));
        },
    };
    match ctx.compile_declarations(id.as_str(), &rules, now) {
        Ok(names) => Ok(join_strings(&names, " ")),
        Err(e) => Err(CompileError::Bundle(e)),
    }
}

/// What a definition call gives for its tokens in the context `ctx`: the context after
/// it, and the error where it fails.
pub open spec fn csm_defs_of(ctx: ContextView, ts: Seq<TokenView>, now: u64) -> (
    ContextView,
    Result<(), CompileErrorView>,
) {
    match definitions_of(ts) {
        Err(e) => (ctx, Err(CompileErrorView::Parse(e))),
        Ok(defs) => {
            let after = after_definitions(ctx, defs, now);
            match bundle_of(after.fragments) {
                Ok(_) => (after, Ok(())),
                Err(e) => (after, Err(CompileErrorView::Bundle(e))),
            }
        },
    }
}

/// Compiles the variable definitions that `tokens` write.
pub fn csm_defs(ctx: &mut BuildContext, tokens: &[Token], now: u64) -> (r: Result<(), CompileError>)
    ensures
        final(ctx)@ == csm_defs_of(old(ctx)@, token_views(tokens@), now).0,
        match r {
            Ok(()) => csm_defs_of(old(ctx)@, token_views(tokens@), now).1 == Ok::<
                _,
                CompileErrorView,
            >(()),
            Err(e) => csm_defs_of(old(ctx)@, token_views(tokens@), now).1 == Err::<(), _>(e@),
        },
{
    let defs = match TokenDefs::parse(tokens) {
        Ok(defs) => defs,
        Err(e) => {
            return Err(CompileError::Parse(e));
        },
    };
    match ctx.compile_variable_defs(&defs, now) {
        Ok(()) => Ok(()),
        Err(e) => Err(CompileError::Bundle(e)),
    }
}

/// Compiles the recipe that `tokens` write into its dispatch table.
pub fn recipe(tokens: &[Token]) -> (r: Result<DispatchTable, ParseError>)
    ensures
        match r {
            Ok(table) => recipe_of(token_views(tokens@)) matches Ok(parsed) && table@.arity
                == parsed.variants.len() && table@.entries == dispatch_entries(parsed),
            Err(e) => recipe_of(token_views(tokens@)) == Err::<RecipeView, _>(e@),
        },
{
    match Recipe::parse(tokens) {
        Ok(parsed) => Ok(parsed.compile()),
        Err(e) => Err(e),
    }
}

} // verus!
