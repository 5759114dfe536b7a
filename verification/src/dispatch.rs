//! The dispatch table of a recipe: one entry for each combination of choices.
//!
//! The combinations are built variant by variant. The rows start as one row without a
//! choice, which holds the base rules. Each variant replaces every row by one row for
//! each of its choices, with the choice's name added to the selector and the choice's
//! rules added behind the row's rules. Rules are only ever added: a property that the
//! base and a choice both declare stands twice in the row, the base's declaration first.

use crate::error::LookupError;
use crate::recipe::{choice_views, Choice, ChoiceView, Recipe, RecipeView, VariantView};
use crate::rule::{declarations_of, RuleView, Rules};
use crate::text::{clone_strings, join, join_strings, same_texts, texts};
use vstd::prelude::*;

verus! {

/// One combination while it is built: the names of the choices taken so far, and the
/// rules gathered so far.
pub struct Row {
    pub selector: Vec<String>,
    pub rules: Rules,
}

/// The mathematical value of a [`Row`].
pub struct RowView {
    pub selector: Seq<Seq<char>>,
    pub rules: Seq<RuleView>,
}

impl View for Row {
    type V = RowView;

    open spec fn view(&self) -> RowView {
        RowView { selector: texts(self.selector@), rules: self.rules@ }
    }
}

/// The views of a sequence of rows.
pub open spec fn row_views(rows: Seq<Row>) -> Seq<RowView> {
    rows.map_values(|r: Row| r@)
}

/// The row with one more choice taken.
pub open spec fn row_with(row: RowView, choice: ChoiceView) -> RowView {
    RowView { selector: row.selector.push(choice.name), rules: row.rules + choice.rules }
}

/// The rows that one row becomes under a variant: one for each choice, in the order of
/// the choices.
pub open spec fn extended(row: RowView, choices: Seq<ChoiceView>) -> Seq<RowView> {
    choices.map_values(|c: ChoiceView| row_with(row, c))
}

/// The rows that `rows` become under a variant: the rows of the first row, then those of
/// the second, and so on.
pub open spec fn crossed(rows: Seq<RowView>, choices: Seq<ChoiceView>) -> Seq<RowView>
    decreases rows.len(),
{
    if rows.len() == 0 {
        Seq::empty()
    } else {
        crossed(rows.drop_last(), choices) + extended(rows.last(), choices)
    }
}

/// The rows of all combinations of the variants' choices, over the base rules.
pub open spec fn rows_of(base: Seq<RuleView>, variants: Seq<VariantView>) -> Seq<RowView>
    decreases variants.len(),
{
    if variants.len() == 0 {
        seq![RowView { selector: Seq::empty(), rules: base }]
    } else {
        crossed(rows_of(base, variants.drop_last()), variants.last().choices)
    }
}

/// One entry of a dispatch table: the names of the choices, one for each variant, and
/// the class name and the CSS text of that combination.
#[derive(Debug, PartialEq, Eq)]
pub struct DispatchEntry {
    pub selector: Vec<String>,
    pub class_name: String,
    pub css: String,
}

/// The mathematical value of a [`DispatchEntry`].
pub struct EntryView {
    pub selector: Seq<Seq<char>>,
    pub class_name: Seq<char>,
    pub css: Seq<char>,
}

impl View for DispatchEntry {
    type V = EntryView;

    open spec fn view(&self) -> EntryView {
        EntryView { selector: texts(self.selector@), class_name: self.class_name@, css: self.css@ }
    }
}

/// The views of a sequence of entries.
pub open spec fn entry_views(entries: Seq<DispatchEntry>) -> Seq<EntryView> {
    entries.map_values(|e: DispatchEntry| e@)
}

/// The class name of a combination: the recipe's name, two underscores, and the names of
/// the choices joined by underscores.
pub open spec fn combination_name(recipe: Seq<char>, selector: Seq<Seq<char>>) -> Seq<char> {
    recipe + "__"@ + join(selector, "_"@)
}

/// The CSS text of a combination: the class with one declaration a line.
pub open spec fn combination_css(class_name: Seq<char>, rules: Seq<RuleView>) -> Seq<char> {
    "."@ + class_name + " {\n"@ + join(declarations_of(rules), "\n"@) + "\n}"@
}

/// The entry of a row in the table of the recipe called `recipe`.
pub open spec fn entry_of(recipe: Seq<char>, row: RowView) -> EntryView {
    EntryView {
        selector: row.selector,
        class_name: combination_name(recipe, row.selector),
        css: combination_css(combination_name(recipe, row.selector), row.rules),
    }
}

/// The entries of a recipe's dispatch table, in the order of [`rows_of`].
pub open spec fn dispatch_entries(recipe: RecipeView) -> Seq<EntryView> {
    rows_of(recipe.base, recipe.variants).map_values(|row: RowView| entry_of(recipe.name, row))
}

/// The dispatch table of a recipe.
#[derive(Debug, PartialEq, Eq)]
pub struct DispatchTable {
    /// The number of variants: the length of every selector.
    pub arity: usize,
    pub entries: Vec<DispatchEntry>,
}

/// The mathematical value of a [`DispatchTable`].
pub struct TableView {
    pub arity: nat,
    pub entries: Seq<EntryView>,
}

impl View for DispatchTable {
    type V = TableView;

    open spec fn view(&self) -> TableView {
        TableView { arity: self.arity as nat, entries: entry_views(self.entries@) }
    }
}

/// The position of the first entry with the given selector.
pub open spec fn first_match(entries: Seq<EntryView>, selector: Seq<Seq<char>>) -> Option<int>
    decreases entries.len(),
{
    if entries.len() == 0 {
        None
    } else {
        match first_match(entries.drop_last(), selector) {
            Some(i) => Some(i),
            None => if entries.last().selector == selector {
                Some(entries.len() - 1)
            } else {
                None
            },
        }
    }
}

/// What a table gives for a selector: the first entry that has it. A selector that is
/// not as long as the table's arity, or that no entry has, is an error.
pub open spec fn selected(table: TableView, selector: Seq<Seq<char>>) -> Result<
    EntryView,
    LookupError,
> {
    if selector.len() != table.arity {
        Err(LookupError::SelectorArityMismatch)
    } else {
        match first_match(table.entries, selector) {
            Some(i) => Ok(table.entries[i]),
            None => Err(LookupError::UnknownVariantChoice),
        }
    }
}

/// Makes the rows that `rows` become under a variant with the given choices.
pub fn cross(rows: &Vec<Row>, choices: &Vec<Choice>) -> (r: Vec<Row>)
    ensures
        row_views(r@) == crossed(row_views(rows@), choice_views(choices@)),
{
    let ghost all = row_views(rows@);
    let ghost cv = choice_views(choices@);
    let mut out: Vec<Row> = Vec::new();
    let mut i: usize = 0;
    assert(row_views(out@) =~= crossed(all.take(0), cv));
    while i < rows.len()
        invariant
            i <= rows.len(),
            all == row_views(rows@),
            cv == choice_views(choices@),
            row_views(out@) == crossed(all.take(i as int), cv),
        decreases rows.len() - i,
    {
        let ghost done = crossed(all.take(i as int), cv);
        let ghost row = all[i as int];
        let mut j: usize = 0;
        assert(row_views(out@) =~= done + extended(row, cv).take(0));
        while j < choices.len()
            invariant
                i < rows.len(),
                j <= choices.len(),
                all == row_views(rows@),
                cv == choice_views(choices@),
                row == all[i as int],
                row_views(out@) == done + extended(row, cv).take(j as int),
            decreases choices.len() - j,
        {
            let mut selector = clone_strings(&rows[i].selector);
            selector.push(choices[j].name.clone());
            let rules = rows[i].rules.merge(&choices[j].rules);
            let next = Row { selector, rules };
            proof {
                assert(texts(next.selector@) =~= row.selector.push(cv[j as int].name));
                assert(next@ == row_with(row, cv[j as int]));
                assert(extended(row, cv).take(j as int + 1) =~= extended(row, cv).take(
                    j as int,
                ).push(next@));
                assert(row_views(out@.push(next)) =~= row_views(out@).push(next@));
                assert((done + extended(row, cv).take(j as int)).push(next@) =~= done + extended(
                    row,
                    cv,
                ).take(j as int).push(next@));
            }
            out.push(next);
            j += 1;
        }
        proof {
            assert(extended(row, cv).take(j as int) == extended(row, cv));
            assert(all.take(i as int + 1).drop_last() == all.take(i as int));
            assert(all.take(i as int + 1).last() == row);
        }
        i += 1;
    }
    proof {
        assert(all.take(i as int) == all);
    }
    out
}

impl Recipe {
    /// The rows of all combinations of this recipe's choices.
    pub fn rows(&self) -> (r: Vec<Row>)
        ensures
            row_views(r@) == rows_of(self@.base, self@.variants),
    {
        let ghost variants = self@.variants;
        let mut rows: Vec<Row> = Vec::new();
        rows.push(Row { selector: Vec::new(), rules: self.base.clone() });
        proof {
            assert(texts(Seq::<String>::empty()) =~= Seq::<Seq<char>>::empty());
            assert(row_views(rows@) =~= rows_of(self@.base, variants.take(0)));
        }
        let mut v: usize = 0;
        while v < self.variants.len()
            invariant
                v <= self.variants.len(),
                variants == self@.variants,
                row_views(rows@) == rows_of(self@.base, variants.take(v as int)),
            decreases self.variants.len() - v,
        {
            proof {
                assert(variants.take(v as int + 1).drop_last() == variants.take(v as int));
                assert(variants.take(v as int + 1).last().choices == choice_views(
                    self.variants@[v as int].choices@,
                ));
            }
            rows = cross(&rows, &self.variants[v].choices);
            v += 1;
        }
        proof {
            assert(variants.take(v as int) == variants);
        }
        rows
    }

    /// The dispatch table of this recipe: one entry for each combination of choices.
    pub fn compile(&self) -> (r: DispatchTable)
        ensures
            r@.arity == self@.variants.len(),
            r@.entries == dispatch_entries(self@),
    {
        let rows = self.rows();
        let ghost all = dispatch_entries(self@);
        let mut entries: Vec<DispatchEntry> = Vec::new();
        let mut i: usize = 0;
        assert(entry_views(entries@) =~= all.take(0));
        while i < rows.len()
            invariant
                i <= rows.len(),
                row_views(rows@) == rows_of(self@.base, self@.variants),
                all == dispatch_entries(self@),
                entry_views(entries@) == all.take(i as int),
            decreases rows.len() - i,
        {
            let row = &rows[i];
            let mut class_name = self.name.clone();
            class_name.append("__");
            class_name.append(join_strings(&row.selector, "_").as_str());
            let mut css = ".".to_owned();
            css.append(class_name.as_str());
            css.append(" {\n");
            css.append(join_strings(&row.rules.declarations(), "\n").as_str());
            css.append("\n}");
            let entry = DispatchEntry { selector: clone_strings(&row.selector), class_name, css };
            proof {
                assert(row_views(rows@)[i as int] == row@);
                assert(entry@ == entry_of(self@.name, row@));
                assert(all.take(i as int + 1) =~= all.take(i as int).push(entry@));
                assert(entry_views(entries@.push(entry)) =~= entry_views(entries@).push(entry@));
            }
            entries.push(entry);
            i += 1;
        }
        proof {
            assert(all.take(i as int) == all);
        }
        DispatchTable { arity: self.variants.len(), entries }
    }
}

impl DispatchTable {
    /// The entry of the combination that `selector` names.
    pub fn lookup(&self, selector: &Vec<String>) -> (r: Result<&DispatchEntry, LookupError>)
        ensures
            match r {
                Ok(entry) => selected(self@, texts(selector@)) == Ok::<_, LookupError>(entry@),
                Err(e) => selected(self@, texts(selector@)) == Err::<EntryView, _>(e),
            },
    {
        if selector.len() != self.arity {
            return Err(LookupError::SelectorArityMismatch);
        }
        let ghost all = entry_views(self.entries@);
        let ghost wanted = texts(selector@);
        let mut i: usize = 0;
        assert(all.take(0) =~= Seq::empty());
        while i < self.entries.len()
            invariant
                i <= self.entries.len(),
                all == entry_views(self.entries@),
                wanted == texts(selector@),
                selector.len() == self.arity,
                first_match(all.take(i as int), wanted) is None,
            decreases self.entries.len() - i,
        {
            proof {
                assert(all.take(i as int + 1).drop_last() == all.take(i as int));
                assert(all.take(i as int + 1).last() == self.entries@[i as int]@);
            }
            if same_texts(&self.entries[i].selector, selector) {
                proof {
                    assert(first_match(all.take(i as int + 1), wanted) == Some(i as int));
                    lemma_first_match_prefix(all, wanted, i as int + 1);
                    assert(all[i as int] == self.entries@[i as int]@);
                }
                return Ok(&self.entries[i]);
            }
            i += 1;
        }
        proof {
            assert(all.take(i as int) == all);
        }
        Err(LookupError::UnknownVariantChoice)
    }
}

/// A match among the first `k` entries is the first match among all entries.
pub proof fn lemma_first_match_prefix(entries: Seq<EntryView>, selector: Seq<Seq<char>>, k: int)
    requires
        0 <= k <= entries.len(),
        first_match(entries.take(k), selector) is Some,
    ensures
        first_match(entries, selector) == first_match(entries.take(k), selector),
    decreases entries.len() - k,
{
    if k < entries.len() {
        assert(entries.take(k + 1).drop_last() == entries.take(k));
        lemma_first_match_prefix(entries, selector, k + 1);
    } else {
        assert(entries.take(k) == entries);
    }
}

} // verus!
