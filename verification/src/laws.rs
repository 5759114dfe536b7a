//! Laws that hold of the compiler as a whole.

use crate::bundle::bundle_of;
use crate::compiler::{after_declarations, csm_of, invocation_of, ContextView};
use crate::defs::{
    def_at, defines, definitions_of, defs_at, distinct_names, lemma_def_at_bounds,
    lemma_with_def_distinct, with_def, DefView,
};
use crate::dispatch::{
    combination_css, combination_name, crossed, dispatch_entries, extended, first_match, row_with,
    rows_of, selected, EntryView, RowView, TableView,
};
use crate::error::{LookupError, ParseErrorView};
use crate::order::{
    lemma_precedes_asymmetric, lemma_precedes_total, lemma_precedes_transitive, precedes,
};
use crate::parser::{
    declaration_set, declarations_at, first_repeat, has_property, inside, lemma_rule_at_bounds,
    name_at, rule_at, rules_at,
};
use crate::recipe::{
    body_at, choices_at, distinct_choices, distinct_choices_in_each, fields_at, has_choice,
    lemma_body_at_bounds, past_comma, recipe_of, variants_at, with_choice, ChoiceView, DefaultView,
    FieldsView, RecipeView, VariantView,
};
use crate::rule::{
    atom_keys, atoms_rendered, class_name_of, css_class_of, css_classes_of, declaration_of,
    distinct_properties, shorthand, stylesheet_of, AtomView, RuleView,
};
use crate::store::{
    holds, lemma_position_from, ordered_by_id, position_from, position_of, written, FragmentView,
};
use crate::token::TokenView;
use vstd::prelude::*;

verus! {

/// The text that the fragments hold under `id`, if they hold one.
pub open spec fn fragment_text(fragments: Seq<FragmentView>, id: Seq<char>) -> Option<Seq<char>> {
    if holds(fragments, id) {
        Some(fragments[position_of(fragments, id)].css)
    } else {
        None
    }
}

/// Whether the fragment's identifier stands before `id`.
pub open spec fn precedes_id(fragment: FragmentView, id: Seq<char>) -> bool {
    precedes(fragment.id, id)
}

/// A position is the position of `id` from `i` on if every identifier from `i` up to it
/// stands before `id` and the identifier at it does not.
pub proof fn lemma_position_is(fragments: Seq<FragmentView>, id: Seq<char>, i: int, p: int)
    requires
        0 <= i <= p <= fragments.len(),
        forall|k: int| i <= k < p ==> precedes_id(#[trigger] fragments[k], id),
        p < fragments.len() ==> !precedes_id(fragments[p], id),
    ensures
        position_from(fragments, id, i) == p,
    decreases p - i,
{
    if i < p {
        assert(precedes_id(fragments[i], id));
        lemma_position_is(fragments, id, i + 1, p);
    }
}

/// After a fragment was written, the store holds it at the position of its identifier.
pub proof fn law_written_is_held(fragments: Seq<FragmentView>, fragment: FragmentView)
    ensures
        position_of(written(fragments, fragment), fragment.id) == position_of(
            fragments,
            fragment.id,
        ),
        holds(written(fragments, fragment), fragment.id),
        written(fragments, fragment)[position_of(fragments, fragment.id)] == fragment,
        fragment_text(written(fragments, fragment), fragment.id) == Some(fragment.css),
{
    let id = fragment.id;
    let p = position_of(fragments, id);
    let out = written(fragments, fragment);
    lemma_position_from(fragments, id, 0);
    assert(!precedes(id, id)) by {
        if precedes(id, id) {
            lemma_precedes_asymmetric(id, id);
        }
    }
    assert forall|k: int| 0 <= k < p implies precedes_id(#[trigger] out[k], id) by {
        assert(out[k] == fragments[k]);
    }
    assert(out[p] == fragment);
    lemma_position_is(out, id, 0, p);
}

/// Writing a fragment changes nothing under another identifier: what the store held
/// under it, it holds afterwards, and what it did not hold, it does not hold afterwards.
pub proof fn law_write_keeps_others(
    fragments: Seq<FragmentView>,
    fragment: FragmentView,
    other: Seq<char>,
)
    requires
        ordered_by_id(fragments),
        other != fragment.id,
    ensures
        holds(written(fragments, fragment), other) == holds(fragments, other),
        holds(fragments, other) ==> written(fragments, fragment)[position_of(
            written(fragments, fragment),
            other,
        )] == fragments[position_of(fragments, other)],
        fragment_text(written(fragments, fragment), other) == fragment_text(fragments, other),
{
    let id = fragment.id;
    let p = position_of(fragments, id);
    let q = position_of(fragments, other);
    let out = written(fragments, fragment);
    lemma_position_from(fragments, id, 0);
    lemma_position_from(fragments, other, 0);
    if holds(fragments, id) {
        assert forall|k: int| 0 <= k < q implies precedes_id(#[trigger] out[k], other) by {
            assert(out[k].id == fragments[k].id);
        }
        if q < out.len() {
            assert(out[q].id == fragments[q].id);
        }
        lemma_position_is(out, other, 0, q);
    } else {
        lemma_precedes_total(id, other);
        if precedes(id, other) {
            // every identifier up to `p` stands before `other`, and so does the new one
            assert forall|k: int| 0 <= k < p implies precedes(
                (#[trigger] fragments[k]).id,
                other,
            ) by {
                lemma_precedes_transitive(fragments[k].id, id, other);
            }
            assert(p <= q) by {
                if q < p {
                    assert(precedes(fragments[q].id, other));
                }
            }
            assert forall|k: int| 0 <= k < q + 1 implies precedes_id(#[trigger] out[k], other) by {
                if k < p {
                    assert(out[k] == fragments[k]);
                } else if k > p {
                    assert(out[k] == fragments[k - 1]);
                    assert(precedes(fragments[k - 1].id, other));
                }
            }
            if q + 1 < out.len() {
                assert(out[q + 1] == fragments[q]);
            }
            lemma_position_is(out, other, 0, q + 1);
        } else {
            // `other` stands before the new identifier, so its place is not behind `p`
            assert(q <= p) by {
                if p < q {
                    assert(precedes(fragments[p].id, other));
                    lemma_precedes_transitive(fragments[p].id, other, id);
                }
            }
            assert forall|k: int| 0 <= k < q implies precedes_id(#[trigger] out[k], other) by {
                assert(out[k] == fragments[k]);
            }
            if q < p {
                assert(out[q] == fragments[q]);
            } else {
                assert(out[q] == fragment);
                lemma_precedes_asymmetric(other, id);
                assert(!holds(fragments, other));
            }
            lemma_position_is(out, other, 0, q);
        }
    }
}

/// Writing twice under one identifier leaves what writing the second text alone leaves:
/// the first text is gone, nothing is appended.
pub proof fn law_overwrite(fragments: Seq<FragmentView>, first: FragmentView, second: FragmentView)
    requires
        first.id == second.id,
    ensures
        written(written(fragments, first), second) == written(fragments, second),
        fragment_text(written(written(fragments, first), second), second.id) == Some(second.css),
{
    lemma_position_from(fragments, first.id, 0);
    law_written_is_held(fragments, first);
    law_written_is_held(fragments, second);
    assert(written(written(fragments, first), second) =~= written(fragments, second));
}

/// Compiling under an identifier a second time leaves the fragments that the second
/// call alone leaves, and where the rebuild succeeds the same bundle: the fragment holds
/// the CSS of the second declaration set only.
pub proof fn law_compile_overwrites(
    ctx: ContextView,
    id: Seq<char>,
    first: Seq<RuleView>,
    second: Seq<RuleView>,
    then: u64,
    now: u64,
)
    ensures
        ({
            let twice = after_declarations(after_declarations(ctx, id, first, then), id, second, now);
            let once = after_declarations(ctx, id, second, now);
            &&& twice.fragments == once.fragments
            &&& fragment_text(twice.fragments, id) == Some(stylesheet_of(second))
            &&& bundle_of(twice.fragments) is Ok ==> twice.bundle == once.bundle
        }),
{
    law_overwrite(
        ctx.fragments,
        FragmentView { id, css: stylesheet_of(first), modified: then },
        FragmentView { id, css: stylesheet_of(second), modified: now },
    );
}

/// The fragment that compiling a declaration set leaves does not depend on what the
/// build has made before, nor on the time: it holds the CSS classes of the rules, and
/// compiling the same set again changes nothing but the time of the fragment.
pub proof fn law_declarations_deterministic(
    a: ContextView,
    b: ContextView,
    id: Seq<char>,
    rules: Seq<RuleView>,
    now_a: u64,
    now_b: u64,
)
    ensures
        fragment_text(after_declarations(a, id, rules, now_a).fragments, id) == Some(
            stylesheet_of(rules),
        ),
        fragment_text(after_declarations(b, id, rules, now_b).fragments, id) == Some(
            stylesheet_of(rules),
        ),
        after_declarations(after_declarations(a, id, rules, now_a), id, rules, now_a).fragments
            == after_declarations(a, id, rules, now_a).fragments,
{
    let in_a = FragmentView { id, css: stylesheet_of(rules), modified: now_a };
    law_written_is_held(a.fragments, in_a);
    law_written_is_held(b.fragments, FragmentView { id, css: stylesheet_of(rules), modified: now_b });
    law_overwrite(a.fragments, in_a, in_a);
    law_overwrite(written(a.fragments, in_a), in_a, in_a);
}

/// What a declaration call gives does not depend on what the build has made before, nor
/// on the time: the same tokens give the same class names and the same fragment text in
/// every context.
pub proof fn law_compile_deterministic(
    a: ContextView,
    b: ContextView,
    ts: Seq<TokenView>,
    now_a: u64,
    now_b: u64,
)
    ensures
        ({
            let in_a = csm_of(a, ts, now_a);
            let in_b = csm_of(b, ts, now_b);
            &&& in_a.1 is Ok && in_b.1 is Ok ==> in_a.1 == in_b.1
            &&& invocation_of(ts) matches Ok((id, rules)) ==> {
                &&& fragment_text(in_a.0.fragments, id) == Some(stylesheet_of(rules))
                &&& fragment_text(in_b.0.fragments, id) == Some(stylesheet_of(rules))
            }
        }),
{
    if let Ok((id, rules)) = invocation_of(ts) {
        law_written_is_held(
            a.fragments,
            FragmentView { id, css: stylesheet_of(rules), modified: now_a },
        );
        law_written_is_held(
            b.fragments,
            FragmentView { id, css: stylesheet_of(rules), modified: now_b },
        );
    }
}

/// Where the rules from a position on can all be read, the declaration set is either
/// all of them behind those read before, or the error for the first property that is
/// declared again.
pub proof fn lemma_rules_at_repeat(ts: Seq<TokenView>, pos: int, seen: Seq<RuleView>)
    requires
        declarations_at(ts, pos) is Ok,
    ensures
        rules_at(ts, pos, seen) == match first_repeat(seen, declarations_at(ts, pos)->Ok_0) {
            Some(prop) => Err::<Seq<RuleView>, _>(ParseErrorView::DuplicateProperty(prop)),
            None => Ok(seen + declarations_at(ts, pos)->Ok_0),
        },
    decreases ts.len() - pos,
{
    let all = declarations_at(ts, pos)->Ok_0;
    if !inside(ts, pos) {
        assert(seen + all =~= seen);
    } else {
        lemma_rule_at_bounds(ts, pos);
        let (rule, next) = rule_at(ts, pos)->Ok_0;
        let rest = declarations_at(ts, next)->Ok_0;
        assert(all == seq![rule] + rest);
        assert(all[0] == rule);
        assert(all.drop_first() =~= rest);
        if !has_property(seen, rule.prop) {
            lemma_rules_at_repeat(ts, next, seen.push(rule));
            assert(seen.push(rule) + rest =~= seen + all);
        }
    }
}

/// Rules none of which repeats a property declare each property once.
pub proof fn lemma_no_repeat_distinct(seen: Seq<RuleView>, rules: Seq<RuleView>)
    requires
        distinct_properties(seen),
        first_repeat(seen, rules) is None,
    ensures
        distinct_properties(seen + rules),
    decreases rules.len(),
{
    if rules.len() == 0 {
        assert(seen + rules =~= seen);
    } else {
        let next = seen.push(rules[0]);
        assert forall|i: int, j: int| 0 <= i < j < next.len() implies (#[trigger] next[i]).prop != (
        #[trigger] next[j]).prop by {
            if j == seen.len() {
                assert(seen[i].prop != rules[0].prop);
            }
        }
        lemma_no_repeat_distinct(next, rules.drop_first());
        assert(next + rules.drop_first() =~= seen + rules);
    }
}

/// A declaration set that was read declares each property once: no rule is dropped
/// or silently replaced to make it so.
pub proof fn law_declaration_set_distinct(ts: Seq<TokenView>)
    requires
        declaration_set(ts) is Ok,
    ensures
        distinct_properties(declaration_set(ts)->Ok_0),
{
    lemma_rules_at_distinct(ts, 0, Seq::empty());
}

/// The rules that were read from a position on, behind rules that declare each property
/// once, declare each property once.
pub proof fn lemma_rules_at_distinct(ts: Seq<TokenView>, pos: int, seen: Seq<RuleView>)
    requires
        distinct_properties(seen),
        rules_at(ts, pos, seen) is Ok,
    ensures
        distinct_properties(rules_at(ts, pos, seen)->Ok_0),
    decreases ts.len() - pos,
{
    if inside(ts, pos) {
        lemma_rule_at_bounds(ts, pos);
        let (rule, next) = rule_at(ts, pos)->Ok_0;
        let more = seen.push(rule);
        assert forall|i: int, j: int| 0 <= i < j < more.len() implies (#[trigger] more[i]).prop != (
        #[trigger] more[j]).prop by {
            if j == seen.len() {
                assert(seen[i].prop != rule.prop);
            }
        }
        lemma_rules_at_distinct(ts, next, more);
    }
}

/// Whether the rules at the positions `i` and `j`, the first before the second, both
/// declare `prop`.
pub open spec fn declared_twice(rules: Seq<RuleView>, prop: Seq<char>, i: int, j: int) -> bool {
    0 <= i < j < rules.len() && rules[i].prop == prop && rules[j].prop == prop
}

/// The property that is found repeated stands twice among the rules: at a rule of
/// `rules`, and at one before it.
pub proof fn lemma_first_repeat_is_repeated(seen: Seq<RuleView>, rules: Seq<RuleView>)
    requires
        first_repeat(seen, rules) is Some,
    ensures
        exists|i: int, j: int|
            seen.len() <= j && #[trigger] declared_twice(
                seen + rules,
                first_repeat(seen, rules)->Some_0,
                i,
                j,
            ),
    decreases rules.len(),
{
    let all = seen + rules;
    let prop = first_repeat(seen, rules)->Some_0;
    if has_property(seen, rules[0].prop) {
        let i = choose|i: int| 0 <= i < seen.len() && (#[trigger] seen[i]).prop == rules[0].prop;
        let j = seen.len() as int;
        assert(all[i].prop == prop && all[j].prop == prop);
        assert(declared_twice(all, prop, i, j));
    } else {
        let next = seen.push(rules[0]);
        lemma_first_repeat_is_repeated(next, rules.drop_first());
        assert(next + rules.drop_first() =~= all);
        let (i, j) = choose|i: int, j: int|
            next.len() <= j && #[trigger] declared_twice(next + rules.drop_first(), prop, i, j);
        assert(declared_twice(all, prop, i, j));
    }
}

/// Tokens whose rules can all be read and declare some property twice are no declaration
/// set: reading them fails with the error for a property that is declared twice.
pub proof fn law_duplicate_rejected(ts: Seq<TokenView>)
    requires
        declarations_at(ts, 0) is Ok,
        !distinct_properties(declarations_at(ts, 0)->Ok_0),
    ensures
        declaration_set(ts) is Err,
        declaration_set(ts)->Err_0 is DuplicateProperty,
        exists|i: int, j: int| #[trigger]
            declared_twice(
                declarations_at(ts, 0)->Ok_0,
                declaration_set(ts)->Err_0->DuplicateProperty_0,
                i,
                j,
            ),
{
    let rules = declarations_at(ts, 0)->Ok_0;
    let nothing = Seq::<RuleView>::empty();
    lemma_rules_at_repeat(ts, 0, nothing);
    assert(nothing + rules =~= rules);
    assert(first_repeat(nothing, rules) is Some) by {
        if first_repeat(nothing, rules) is None {
            lemma_no_repeat_distinct(nothing, rules);
        }
    }
    let prop = first_repeat(nothing, rules)->Some_0;
    lemma_first_repeat_is_repeated(nothing, rules);
    let (i, j) = choose|i: int, j: int|
        nothing.len() <= j && #[trigger] declared_twice(nothing + rules, prop, i, j);
    assert(declared_twice(rules, prop, i, j));
    assert(declaration_set(ts)->Err_0->DuplicateProperty_0 == prop);
    assert(exists|i: int, j: int| #[trigger] declared_twice(rules, prop, i, j));
}

/// A property, a colon, a `$` and a name are read as one rule whose one value refers to
/// the variable of that name.
pub proof fn law_variable_reference_is_read(prop: Seq<char>, name: Seq<char>)
    ensures
        declaration_set(
            seq![
                TokenView::Ident(prop),
                TokenView::Colon,
                TokenView::Dollar,
                TokenView::Ident(name),
            ],
        ) == Ok::<_, ParseErrorView>(
            seq![RuleView { prop, values: seq![AtomView::VariableReference(name)] }],
        ),
{
    let ts = seq![
        TokenView::Ident(prop),
        TokenView::Colon,
        TokenView::Dollar,
        TokenView::Ident(name),
    ];
    let rule = RuleView { prop, values: seq![AtomView::VariableReference(name)] };
    assert(name_at(ts, 1) == (Seq::<char>::empty(), 1int));
    assert(name_at(ts, 0) == (prop + Seq::<char>::empty(), 1int));
    assert(prop + Seq::<char>::empty() =~= prop);
    assert(rule_at(ts, 0) == Ok::<_, ParseErrorView>((rule, 4int)));
    assert(!has_property(Seq::<RuleView>::empty(), prop));
    assert(rules_at(ts, 4, Seq::<RuleView>::empty().push(rule)) == Ok::<_, ParseErrorView>(
        Seq::<RuleView>::empty().push(rule),
    ));
    assert(Seq::<RuleView>::empty().push(rule) =~= seq![rule]);
}

/// A rule that refers to a variable renders the reference as `var(--name)`, and its
/// fragment holds that text whatever variables the build has defined.
pub proof fn law_variable_reference_rendering(
    ctx: ContextView,
    id: Seq<char>,
    prop: Seq<char>,
    name: Seq<char>,
    now: u64,
)
    ensures
        ({
            let rule = RuleView { prop, values: seq![AtomView::VariableReference(name)] };
            let reference = "var(--"@ + name + ")"@;
            &&& class_name_of(rule) == shorthand(prop) + "_"@ + name
            &&& declaration_of(rule) == prop + ": "@ + reference + ";"@
            &&& fragment_text(after_declarations(ctx, id, seq![rule], now).fragments, id) == Some(
                "."@ + class_name_of(rule) + " { "@ + prop + ": "@ + reference + ";"@ + " }"@,
            )
        }),
{
    let rule = RuleView { prop, values: seq![AtomView::VariableReference(name)] };
    assert(atom_keys(rule.values) =~= seq![name]);
    assert(atoms_rendered(rule.values) =~= seq!["var(--"@ + name + ")"@]);
    assert(css_classes_of(seq![rule]) =~= seq![css_class_of(rule)]);
    law_written_is_held(
        ctx.fragments,
        FragmentView { id, css: stylesheet_of(seq![rule]), modified: now },
    );
}

/// The number of ways to take one choice of each variant.
pub open spec fn combinations(variants: Seq<VariantView>) -> nat
    decreases variants.len(),
{
    if variants.len() == 0 {
        1
    } else {
        combinations(variants.drop_last()) * variants.last().choices.len()
    }
}

/// Whether `picks` names one choice of each variant, by its position in the variant.
pub open spec fn picks_fit(variants: Seq<VariantView>, picks: Seq<int>) -> bool {
    &&& picks.len() == variants.len()
    &&& forall|v: int|
        0 <= v < variants.len() ==> 0 <= #[trigger] picks[v] < variants[v].choices.len()
}

/// The names of the picked choices, one for each variant, in the order of the variants.
pub open spec fn picked_names(variants: Seq<VariantView>, picks: Seq<int>) -> Seq<Seq<char>> {
    Seq::new(variants.len(), |v: int| variants[v].choices[picks[v]].name)
}

/// The rules of the picked choices, one choice behind the other in the order of the
/// variants.
pub open spec fn picked_rules(variants: Seq<VariantView>, picks: Seq<int>) -> Seq<RuleView>
    decreases variants.len(),
{
    if variants.len() == 0 {
        Seq::empty()
    } else {
        picked_rules(variants.drop_last(), picks.drop_last()) + variants.last().choices[picks.last()].rules
    }
}

/// The position of the combination `picks` in the table: the combinations are counted
/// with the last variant's choice changing fastest.
pub open spec fn rank(variants: Seq<VariantView>, picks: Seq<int>) -> int
    decreases variants.len(),
{
    if variants.len() == 0 {
        0
    } else {
        rank(variants.drop_last(), picks.drop_last()) * variants.last().choices.len() + picks.last()
    }
}

/// Crossing rows with choices gives a row for each pair of a row and a choice.
pub proof fn lemma_crossed_len(rows: Seq<RowView>, choices: Seq<ChoiceView>)
    ensures
        crossed(rows, choices).len() == rows.len() * choices.len(),
    decreases rows.len(),
{
    let n = choices.len() as int;
    if rows.len() == 0 {
        assert(rows.len() * n == 0) by (nonlinear_arith)
            requires
                rows.len() == 0,
        ;
    } else {
        let front = rows.drop_last();
        lemma_crossed_len(front, choices);
        assert(rows.len() * n == front.len() * n + n) by (nonlinear_arith)
            requires
                rows.len() == front.len() + 1,
        ;
    }
}

/// Crossing rows with choices puts the rows of one row next to each other: the row of
/// the row `r` and the choice `c` stands at `r` times the number of choices, plus `c`.
pub proof fn lemma_crossed_at(rows: Seq<RowView>, choices: Seq<ChoiceView>, r: int, c: int)
    requires
        0 <= r < rows.len(),
        0 <= c < choices.len(),
    ensures
        0 <= r * choices.len() + c < rows.len() * choices.len(),
        crossed(rows, choices).len() == rows.len() * choices.len(),
        crossed(rows, choices)[r * choices.len() + c] == row_with(rows[r], choices[c]),
    decreases rows.len(),
{
    let n = choices.len() as int;
    let front = rows.drop_last();
    lemma_crossed_len(rows, choices);
    lemma_crossed_len(front, choices);
    assert(0 <= r * n + c < rows.len() * n) by (nonlinear_arith)
        requires
            0 <= r < rows.len(),
            0 <= c < n,
    ;
    if r < front.len() {
        lemma_crossed_at(front, choices, r, c);
        assert(front[r] == rows[r]);
    } else {
        assert(r * n + c == front.len() * n + c) by (nonlinear_arith)
            requires
                r == front.len(),
        ;
        assert(extended(rows.last(), choices)[c] == row_with(rows[r], choices[c]));
    }
}

/// The table of a recipe has one row for each way to take one choice of each variant.
/// The row of a combination stands at the combination's rank; its selector names the
/// picked choices in the order of the variants; its rules are the base rules and, behind
/// them, the rules of the picked choices in the order of the variants, none left out.
pub proof fn law_rows_are_combinations(
    base: Seq<RuleView>,
    variants: Seq<VariantView>,
    picks: Seq<int>,
)
    requires
        picks_fit(variants, picks),
    ensures
        rows_of(base, variants).len() == combinations(variants),
        0 <= rank(variants, picks) < combinations(variants),
        rows_of(base, variants)[rank(variants, picks)] == (RowView {
            selector: picked_names(variants, picks),
            rules: base + picked_rules(variants, picks),
        }),
    decreases variants.len(),
{
    if variants.len() == 0 {
        assert(picked_names(variants, picks) =~= Seq::empty());
        assert(base + picked_rules(variants, picks) =~= base);
    } else {
        let front = variants.drop_last();
        let front_picks = picks.drop_last();
        let choices = variants.last().choices;
        assert(picks_fit(front, front_picks)) by {
            assert forall|v: int| 0 <= v < front.len() implies 0 <= #[trigger] front_picks[v]
                < front[v].choices.len() by {
                assert(front_picks[v] == picks[v]);
            }
        }
        law_rows_are_combinations(base, front, front_picks);
        let rows = rows_of(base, front);
        let r = rank(front, front_picks);
        let c = picks.last();
        assert(0 <= c < choices.len()) by {
            assert(picks[variants.len() - 1] == c);
        }
        lemma_crossed_at(rows, choices, r, c);
        assert(picked_names(front, front_picks).push(choices[c].name) =~= picked_names(
            variants,
            picks,
        ));
        assert(base + picked_rules(front, front_picks) + choices[c].rules =~= base + picked_rules(
            variants,
            picks,
        ));
    }
}

/// The entry of a combination in a recipe's dispatch table: it stands at the
/// combination's rank, is named after the recipe and the picked choices, and its CSS
/// holds the declarations of the base rules and of the picked choices, all of them and
/// in that order.
pub proof fn law_entries_are_combinations(recipe: RecipeView, picks: Seq<int>)
    requires
        picks_fit(recipe.variants, picks),
    ensures
        dispatch_entries(recipe).len() == combinations(recipe.variants),
        0 <= rank(recipe.variants, picks) < combinations(recipe.variants),
        dispatch_entries(recipe)[rank(recipe.variants, picks)] == (EntryView {
            selector: picked_names(recipe.variants, picks),
            class_name: combination_name(recipe.name, picked_names(recipe.variants, picks)),
            css: combination_css(
                combination_name(recipe.name, picked_names(recipe.variants, picks)),
                recipe.base + picked_rules(recipe.variants, picks),
            ),
        }),
{
    law_rows_are_combinations(recipe.base, recipe.variants, picks);
}

/// The table of a recipe has as many entries as there are ways to take one choice of
/// each variant: the product of the variants' numbers of choices.
pub proof fn law_entry_count(recipe: RecipeView)
    ensures
        dispatch_entries(recipe).len() == combinations(recipe.variants),
{
    lemma_rows_count(recipe.base, recipe.variants);
}

/// There are as many rows as there are ways to take one choice of each variant.
pub proof fn lemma_rows_count(base: Seq<RuleView>, variants: Seq<VariantView>)
    ensures
        rows_of(base, variants).len() == combinations(variants),
    decreases variants.len(),
{
    if variants.len() > 0 {
        lemma_rows_count(base, variants.drop_last());
        lemma_crossed_len(rows_of(base, variants.drop_last()), variants.last().choices);
    }
}

/// A definition that is put in is the one definition of its name afterwards, and the
/// definitions of other names stay as they were, in their places.
pub proof fn law_last_definition_wins(defs: Seq<DefView>, def: DefView)
    requires
        distinct_names(defs),
    ensures
        distinct_names(with_def(defs, def)),
        defines(with_def(defs, def), def.name),
        forall|i: int|
            0 <= i < with_def(defs, def).len() && (#[trigger] with_def(defs, def)[i]).name
                == def.name ==> with_def(defs, def)[i] == def,
        forall|i: int|
            0 <= i < defs.len() && (#[trigger] defs[i]).name != def.name ==> with_def(defs, def)[i]
                == defs[i],
{
    let out = with_def(defs, def);
    lemma_with_def_distinct(defs, def);
    if defines(defs, def.name) {
        let i = choose|i: int| 0 <= i < defs.len() && (#[trigger] defs[i]).name == def.name;
        assert(out[i].name == def.name);
    } else {
        assert(out[defs.len() as int].name == def.name);
        assert forall|i: int| 0 <= i < out.len() && (#[trigger] out[i]).name == def.name implies out[i]
            == def by {
            if i < defs.len() {
                assert(defs[i].name == def.name);
            }
        }
    }
}

/// Definitions that were read define each name once.
pub proof fn law_definitions_distinct(ts: Seq<TokenView>)
    requires
        definitions_of(ts) is Ok,
    ensures
        distinct_names(definitions_of(ts)->Ok_0),
{
    lemma_defs_at_distinct(ts, 0, Seq::empty());
}

/// The definitions that were read from a position on, put into definitions of distinct
/// names, have distinct names.
pub proof fn lemma_defs_at_distinct(ts: Seq<TokenView>, pos: int, seen: Seq<DefView>)
    requires
        distinct_names(seen),
        defs_at(ts, pos, seen) is Ok,
    ensures
        distinct_names(defs_at(ts, pos, seen)->Ok_0),
    decreases ts.len() - pos,
{
    if inside(ts, pos) {
        lemma_def_at_bounds(ts, pos);
        let (def, next) = def_at(ts, pos)->Ok_0;
        lemma_with_def_distinct(seen, def);
        lemma_defs_at_distinct(ts, next, with_def(seen, def));
    }
}

/// The combination that stands at the rank `k`: for each variant the position of the
/// choice it takes.
pub open spec fn unrank(variants: Seq<VariantView>, k: int) -> Seq<int>
    decreases variants.len(),
{
    if variants.len() == 0 {
        Seq::empty()
    } else {
        let n = variants.last().choices.len() as int;
        unrank(variants.drop_last(), k / n).push(k % n)
    }
}

/// Every rank below the number of combinations is the rank of a combination.
pub proof fn lemma_unrank(variants: Seq<VariantView>, k: int)
    requires
        0 <= k < combinations(variants),
    ensures
        picks_fit(variants, unrank(variants, k)),
        rank(variants, unrank(variants, k)) == k,
    decreases variants.len(),
{
    if variants.len() > 0 {
        let front = variants.drop_last();
        let n = variants.last().choices.len() as int;
        let m = combinations(front) as int;
        assert(n > 0 && 0 <= k / n < m && 0 <= k % n < n && k == (k / n) * n + k % n) by (nonlinear_arith)
            requires
                0 <= k < m * n,
                0 <= n,
                0 <= m,
        ;
        lemma_unrank(front, k / n);
        let picks = unrank(variants, k);
        assert(picks.drop_last() =~= unrank(front, k / n));
        assert forall|v: int| 0 <= v < variants.len() implies 0 <= #[trigger] picks[v]
            < variants[v].choices.len() by {
            if v < front.len() {
                assert(picks[v] == unrank(front, k / n)[v]);
                assert(front[v] == variants[v]);
            }
        }
    }
}

/// Where every variant names each of its choices once, two combinations that take
/// choices of the same names are one combination.
pub proof fn lemma_picked_names_injective(variants: Seq<VariantView>, p: Seq<int>, q: Seq<int>)
    requires
        distinct_choices_in_each(variants),
        picks_fit(variants, p),
        picks_fit(variants, q),
        picked_names(variants, p) == picked_names(variants, q),
    ensures
        p == q,
{
    assert forall|v: int| 0 <= v < variants.len() implies p[v] == q[v] by {
        let choices = variants[v].choices;
        assert(picked_names(variants, p)[v] == choices[p[v]].name);
        assert(picked_names(variants, q)[v] == choices[q[v]].name);
        assert(distinct_choices(choices));
        if p[v] < q[v] {
            assert(choices[p[v]].name != choices[q[v]].name);
        } else if q[v] < p[v] {
            assert(choices[q[v]].name != choices[p[v]].name);
        }
    }
    assert(p =~= q);
}

/// Where no entry has the selector, none is found.
pub proof fn lemma_first_match_none(entries: Seq<EntryView>, selector: Seq<Seq<char>>)
    requires
        forall|k: int| 0 <= k < entries.len() ==> (#[trigger] entries[k]).selector != selector,
    ensures
        first_match(entries, selector) is None,
    decreases entries.len(),
{
    if entries.len() > 0 {
        let front = entries.drop_last();
        assert forall|k: int| 0 <= k < front.len() implies (#[trigger] front[k]).selector
            != selector by {
            assert(front[k] == entries[k]);
        }
        lemma_first_match_none(front, selector);
        assert(entries.last() == entries[entries.len() - 1]);
    }
}

/// The entry that is found is the first that has the selector.
pub proof fn lemma_first_match_is(entries: Seq<EntryView>, selector: Seq<Seq<char>>, i: int)
    requires
        0 <= i < entries.len(),
        entries[i].selector == selector,
        forall|k: int| 0 <= k < i ==> (#[trigger] entries[k]).selector != selector,
    ensures
        first_match(entries, selector) == Some(i),
    decreases entries.len(),
{
    let front = entries.drop_last();
    if i == entries.len() - 1 {
        assert forall|k: int| 0 <= k < front.len() implies (#[trigger] front[k]).selector
            != selector by {
            assert(front[k] == entries[k]);
        }
        lemma_first_match_none(front, selector);
    } else {
        assert(front[i] == entries[i]);
        assert forall|k: int| 0 <= k < i implies (#[trigger] front[k]).selector != selector by {
            assert(front[k] == entries[k]);
        }
        lemma_first_match_is(front, selector, i);
    }
}

/// Looking up a combination by the names of its choices gives the entry of that
/// combination, where every variant names each of its choices once.
pub proof fn law_lookup_finds_combination(table: TableView, recipe: RecipeView, picks: Seq<int>)
    requires
        table.arity == recipe.variants.len(),
        table.entries == dispatch_entries(recipe),
        distinct_choices_in_each(recipe.variants),
        picks_fit(recipe.variants, picks),
    ensures
        selected(table, picked_names(recipe.variants, picks)) == Ok::<_, LookupError>(
            dispatch_entries(recipe)[rank(recipe.variants, picks)],
        ),
{
    let variants = recipe.variants;
    let entries = dispatch_entries(recipe);
    let selector = picked_names(variants, picks);
    let at = rank(variants, picks);
    law_entries_are_combinations(recipe, picks);
    assert forall|k: int| 0 <= k < at implies (#[trigger] entries[k]).selector != selector by {
        lemma_unrank(variants, k);
        law_entries_are_combinations(recipe, unrank(variants, k));
        if entries[k].selector == selector {
            lemma_picked_names_injective(variants, unrank(variants, k), picks);
        }
    }
    lemma_first_match_is(entries, selector, at);
}

/// Looking up a selector fails where it does not name one choice for each variant, and
/// where one of its names is no choice of its variant.
pub proof fn law_lookup_rejects(table: TableView, recipe: RecipeView, selector: Seq<Seq<char>>)
    requires
        table.arity == recipe.variants.len(),
        table.entries == dispatch_entries(recipe),
    ensures
        selector.len() != recipe.variants.len() ==> selected(table, selector) == Err::<EntryView, _>(
            LookupError::SelectorArityMismatch,
        ),
        selector.len() == recipe.variants.len() && (exists|v: int|
            0 <= v < selector.len() && !has_choice(
                (#[trigger] recipe.variants[v]).choices,
                selector[v],
            )) ==> selected(table, selector) == Err::<EntryView, _>(
            LookupError::UnknownVariantChoice,
        ),
{
    let variants = recipe.variants;
    let entries = dispatch_entries(recipe);
    if selector.len() == variants.len() && (exists|v: int|
        0 <= v < selector.len() && !has_choice((#[trigger] variants[v]).choices, selector[v])) {
        let v = choose|v: int|
            0 <= v < selector.len() && !has_choice((#[trigger] variants[v]).choices, selector[v]);
        law_entry_count(recipe);
        assert forall|k: int| 0 <= k < entries.len() implies (#[trigger] entries[k]).selector
            != selector by {
            lemma_unrank(variants, k);
            let picks = unrank(variants, k);
            law_entries_are_combinations(recipe, picks);
            let choices = variants[v].choices;
            assert(picked_names(variants, picks)[v] == choices[picks[v]].name);
            assert(has_choice(choices, choices[picks[v]].name));
        }
        lemma_first_match_none(entries, selector);
    }
}

/// Putting a choice in keeps the names of the choices distinct.
pub proof fn lemma_with_choice_distinct(choices: Seq<ChoiceView>, choice: ChoiceView)
    requires
        distinct_choices(choices),
    ensures
        distinct_choices(with_choice(choices, choice)),
{
    let out = with_choice(choices, choice);
    if has_choice(choices, choice.name) {
        assert forall|i: int, j: int| 0 <= i < j < out.len() implies (#[trigger] out[i]).name != (
        #[trigger] out[j]).name by {
            assert(out[i].name == choices[i].name);
            assert(out[j].name == choices[j].name);
        }
    } else {
        assert forall|i: int, j: int| 0 <= i < j < out.len() implies (#[trigger] out[i]).name != (
        #[trigger] out[j]).name by {
            if j == choices.len() {
                assert(choices[i].name != choice.name);
            }
        }
    }
}

/// The choices that were read of a variant have distinct names.
pub proof fn lemma_choices_at_distinct(
    ts: Seq<TokenView>,
    pos: int,
    variant: Seq<char>,
    seen: Seq<ChoiceView>,
)
    requires
        distinct_choices(seen),
        choices_at(ts, pos, variant, seen) is Ok,
    ensures
        distinct_choices(choices_at(ts, pos, variant, seen)->Ok_0),
    decreases ts.len() - pos,
{
    if inside(ts, pos) {
        let name = ts[pos]->Ident_0;
        lemma_body_at_bounds(ts, pos, name);
        let (from, to) = body_at(ts, pos, name)->Ok_0;
        let rules = declaration_set(ts.subrange(from, to))->Ok_0;
        let choice = ChoiceView { name, rules };
        lemma_with_choice_distinct(seen, choice);
        lemma_choices_at_distinct(ts, past_comma(ts, to + 1), variant, with_choice(seen, choice));
    }
}

/// The variants that were read name each of their choices once.
pub proof fn lemma_variants_at_distinct(ts: Seq<TokenView>, pos: int, seen: Seq<VariantView>)
    requires
        distinct_choices_in_each(seen),
        variants_at(ts, pos, seen) is Ok,
    ensures
        distinct_choices_in_each(variants_at(ts, pos, seen)->Ok_0),
    decreases ts.len() - pos,
{
    if inside(ts, pos) {
        let name = ts[pos]->Ident_0;
        lemma_body_at_bounds(ts, pos, name);
        let (from, to) = body_at(ts, pos, name)->Ok_0;
        lemma_choices_at_distinct(ts.subrange(from, to), 0, name, Seq::empty());
        let choices = choices_at(ts.subrange(from, to), 0, name, Seq::empty())->Ok_0;
        let more = seen.push(VariantView { name, choices });
        assert forall|v: int| 0 <= v < more.len() implies distinct_choices(
            (#[trigger] more[v]).choices,
        ) by {
            if v < seen.len() {
                assert(more[v] == seen[v]);
            }
        }
        lemma_variants_at_distinct(ts, past_comma(ts, to + 1), more);
    }
}

/// The fields that were read hold variants that name each of their choices once.
pub proof fn lemma_fields_at_distinct(
    ts: Seq<TokenView>,
    pos: int,
    recipe: Seq<char>,
    seen: FieldsView,
)
    requires
        distinct_choices_in_each(seen.variants),
        fields_at(ts, pos, recipe, seen) is Ok,
    ensures
        distinct_choices_in_each(fields_at(ts, pos, recipe, seen)->Ok_0.variants),
    decreases ts.len() - pos,
{
    if inside(ts, pos) {
        match ts[pos] {
            TokenView::Comma => {
                lemma_fields_at_distinct(ts, pos + 1, recipe, seen);
            },
            TokenView::Ident(key) => {
                lemma_body_at_bounds(ts, pos, key);
                if key == "base"@ {
                    let (from, to) = body_at(ts, pos, key)->Ok_0;
                    let rules = declaration_set(ts.subrange(from, to))->Ok_0;
                    lemma_fields_at_distinct(
                        ts,
                        to + 1,
                        recipe,
                        FieldsView { base: Some(rules), ..seen },
                    );
                } else if key == "variants"@ {
                    let (from, to) = body_at(ts, pos, key)->Ok_0;
                    lemma_variants_at_distinct(ts.subrange(from, to), 0, seen.variants);
                    let variants = variants_at(ts.subrange(from, to), 0, seen.variants)->Ok_0;
                    lemma_fields_at_distinct(ts, to + 1, recipe, FieldsView { variants, ..seen });
                } else if key == "default"@ {
                    lemma_fields_at_distinct(
                        ts,
                        pos + 3,
                        recipe,
                        FieldsView {
                            defaults: seen.defaults.push(
                                DefaultView {
                                    variant: key,
                                    choice: ts[pos + 2]->Ident_0,
                                },
                            ),
                            ..seen
                        },
                    );
                }
            },
            _ => {},
        }
    }
}

/// A recipe that was read names each choice of a variant once, so that every selector
/// of its table names one entry.
pub proof fn law_parsed_recipe_names_choices_once(ts: Seq<TokenView>)
    requires
        recipe_of(ts) is Ok,
    ensures
        distinct_choices_in_each(recipe_of(ts)->Ok_0.variants),
{
    let nothing = FieldsView { base: None, variants: Seq::empty(), defaults: Seq::empty() };
    lemma_fields_at_distinct(ts, 1, ts[0]->Ident_0, nothing);
}

} // verus!
