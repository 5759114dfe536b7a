//! Style rules: one property with its values, the class name of a rule and its CSS text.

use crate::text::{decimal, decimal_string, join, join_strings, replace_char, replaced, same_text, texts};
use vstd::prelude::*;

verus! {

/// One value of a style declaration.
#[derive(Debug, PartialEq, Eq)]
pub enum ValueAtom {
    /// A bare word, such as `flex`.
    Identifier(String),
    /// A number with its unit, such as `5rem`; the unit may be empty.
    NumericLiteral { magnitude: u32, unit: String },
    /// A reference to a custom property, written `$name`.
    VariableReference(String),
}

/// The mathematical value of a [`ValueAtom`].
pub enum AtomView {
    Identifier(Seq<char>),
    NumericLiteral { magnitude: u32, unit: Seq<char> },
    VariableReference(Seq<char>),
}

impl View for ValueAtom {
    type V = AtomView;

    open spec fn view(&self) -> AtomView {
        match self {
            ValueAtom::Identifier(text) => AtomView::Identifier(text@),
            ValueAtom::NumericLiteral { magnitude, unit } => AtomView::NumericLiteral {
                magnitude: *magnitude,
                unit: unit@,
            },
            ValueAtom::VariableReference(name) => AtomView::VariableReference(name@),
        }
    }
}

/// The part that an atom contributes to a class name.
pub open spec fn atom_key(atom: AtomView) -> Seq<char> {
    match atom {
        AtomView::Identifier(text) => replaced(text, ' ', '_'),
        AtomView::NumericLiteral { magnitude, unit } => decimal(magnitude as nat) + unit,
        AtomView::VariableReference(name) => name,
    }
}

/// The text of an atom inside a CSS declaration.
pub open spec fn atom_rendered(atom: AtomView) -> Seq<char> {
    match atom {
        AtomView::Identifier(text) => replaced(text, ' ', '_'),
        AtomView::NumericLiteral { magnitude, unit } => decimal(magnitude as nat) + unit,
        AtomView::VariableReference(name) => "var(--"@ + name + ")"@,
    }
}

/// The views of a sequence of atoms.
pub open spec fn atom_views(atoms: Seq<ValueAtom>) -> Seq<AtomView> {
    atoms.map_values(|a: ValueAtom| a@)
}

/// The class-name parts of a sequence of atoms, in order.
pub open spec fn atom_keys(atoms: Seq<AtomView>) -> Seq<Seq<char>> {
    atoms.map_values(|a: AtomView| atom_key(a))
}

/// The CSS texts of a sequence of atoms, in order.
pub open spec fn atoms_rendered(atoms: Seq<AtomView>) -> Seq<Seq<char>> {
    atoms.map_values(|a: AtomView| atom_rendered(a))
}

impl ValueAtom {
    /// The part that this atom contributes to a class name.
    pub fn key(&self) -> (r: String)
        ensures
            r@ == atom_key(self@),
    {
        match self {
            ValueAtom::Identifier(text) => replace_char(text.as_str(), ' ', '_'),
            ValueAtom::NumericLiteral { magnitude, unit } => {
                let mut out = decimal_string(*magnitude);
                out.append(unit.as_str());
                out
            },
            ValueAtom::VariableReference(name) => name.clone(),
        }
    }

    /// The text of this atom inside a CSS declaration.
    pub fn rendered(&self) -> (r: String)
        ensures
            r@ == atom_rendered(self@),
    {
        match self {
            ValueAtom::Identifier(text) => replace_char(text.as_str(), ' ', '_'),
            ValueAtom::NumericLiteral { magnitude, unit } => {
                let mut out = decimal_string(*magnitude);
                out.append(unit.as_str());
                out
            },
            ValueAtom::VariableReference(name) => {
                let mut out = "var(--".to_owned();
                out.append(name.as_str());
                out.append(")");
                out
            },
        }
    }
}

impl Clone for ValueAtom {
    fn clone(&self) -> (r: Self)
        ensures
            r == *self,
    {
        match self {
            ValueAtom::Identifier(text) => ValueAtom::Identifier(text.clone()),
            ValueAtom::NumericLiteral { magnitude, unit } => ValueAtom::NumericLiteral {
                magnitude: *magnitude,
                unit: unit.clone(),
            },
            ValueAtom::VariableReference(name) => ValueAtom::VariableReference(name.clone()),
        }
    }
}

/// One style declaration: a property and its values in the order they were written.
#[derive(Debug, PartialEq, Eq)]
pub struct Rule {
    pub prop: String,
    pub values: Vec<ValueAtom>,
}

/// The mathematical value of a [`Rule`].
pub struct RuleView {
    pub prop: Seq<char>,
    pub values: Seq<AtomView>,
}

impl View for Rule {
    type V = RuleView;

    open spec fn view(&self) -> RuleView {
        RuleView { prop: self.prop@, values: atom_views(self.values@) }
    }
}

/// The short form of a property in class names: a fixed table, and for a property that
/// the table lacks the property itself with each hyphen turned into an underscore.
pub open spec fn shorthand(prop: Seq<char>) -> Seq<char> {
    if prop == "display"@ {
        "d"@
    } else if prop == "align-items"@ {
        "items"@
    } else if prop == "justify-content"@ {
        "justify"@
    } else if prop == "height"@ {
        "h"@
    } else if prop == "width"@ {
        "w"@
    } else if prop == "background-color"@ {
        "bg"@
    } else if prop == "border-radius"@ {
        "rounded"@
    } else if prop == "font-size"@ {
        "fs"@
    } else if prop == "padding"@ {
        "p"@
    } else {
        replaced(prop, '-', '_')
    }
}

/// The class name of a rule: the short form of its property, an underscore, and the keys
/// of its values joined by underscores.
pub open spec fn class_name_of(rule: RuleView) -> Seq<char> {
    shorthand(rule.prop) + "_"@ + join(atom_keys(rule.values), "_"@)
}

/// The CSS declaration of a rule: `property: value value;`.
pub open spec fn declaration_of(rule: RuleView) -> Seq<char> {
    rule.prop + ": "@ + join(atoms_rendered(rule.values), " "@) + ";"@
}

/// The CSS class of a rule: `.class { property: value value; }`.
pub open spec fn css_class_of(rule: RuleView) -> Seq<char> {
    "."@ + class_name_of(rule) + " { "@ + declaration_of(rule) + " }"@
}

impl Rule {
    /// The CSS declaration of this rule.
    pub fn to_css(&self) -> (r: String)
        ensures
            r@ == declaration_of(self@),
    {
        let mut parts: Vec<String> = Vec::new();
        let mut i: usize = 0;
        while i < self.values.len()
            invariant
                i <= self.values.len(),
                texts(parts@) == atoms_rendered(self@.values).take(i as int),
            decreases self.values.len() - i,
        {
            let part = self.values[i].rendered();
            proof {
                let all = atoms_rendered(self@.values);
                assert(all[i as int] == part@);
                assert(all.take(i as int + 1) =~= all.take(i as int).push(part@));
                assert(texts(parts@.push(part)) =~= texts(parts@).push(part@));
            }
            parts.push(part);
            i += 1;
        }
        assert(atoms_rendered(self@.values).take(i as int) == atoms_rendered(self@.values));
        let mut css = self.prop.clone();
        css.append(": ");
        css.append(join_strings(&parts, " ").as_str());
        css.append(";");
        css
    }

    /// The CSS class of this rule.
    pub fn to_css_class(&self) -> (r: String)
        ensures
            r@ == css_class_of(self@),
    {
        let mut css = ".".to_owned();
        css.append(self.class_name().as_str());
        css.append(" { ");
        css.append(self.to_css().as_str());
        css.append(" }");
        css
    }

    /// The class name of this rule.
    pub fn class_name(&self) -> (r: String)
        ensures
            r@ == class_name_of(self@),
    {
        let mut parts: Vec<String> = Vec::new();
        let mut i: usize = 0;
        while i < self.values.len()
            invariant
                i <= self.values.len(),
                texts(parts@) == atom_keys(self@.values).take(i as int),
            decreases self.values.len() - i,
        {
            let part = self.values[i].key();
            proof {
                let all = atom_keys(self@.values);
                assert(all[i as int] == part@);
                assert(all.take(i as int + 1) =~= all.take(i as int).push(part@));
                assert(texts(parts@.push(part)) =~= texts(parts@).push(part@));
            }
            parts.push(part);
            i += 1;
        }
        assert(atom_keys(self@.values).take(i as int) == atom_keys(self@.values));
        let mut name = self.prop_ident();
        name.append("_");
        name.append(join_strings(&parts, "_").as_str());
        name
    }

    /// The short form of this rule's property.
    pub fn prop_ident(&self) -> (r: String)
        ensures
            r@ == shorthand(self@.prop),
    {
        let prop = self.prop.as_str();
        if same_text(prop, "display") {
            "d".to_owned()
        } else if same_text(prop, "align-items") {
            "items".to_owned()
        } else if same_text(prop, "justify-content") {
            "justify".to_owned()
        } else if same_text(prop, "height") {
            "h".to_owned()
        } else if same_text(prop, "width") {
            "w".to_owned()
        } else if same_text(prop, "background-color") {
            "bg".to_owned()
        } else if same_text(prop, "border-radius") {
            "rounded".to_owned()
        } else if same_text(prop, "font-size") {
            "fs".to_owned()
        } else if same_text(prop, "padding") {
            "p".to_owned()
        } else {
            replace_char(prop, '-', '_')
        }
    }
}

impl Clone for Rule {
    fn clone(&self) -> (r: Self)
        ensures
            r@ == self@,
    {
        let mut values: Vec<ValueAtom> = Vec::new();
        let mut i: usize = 0;
        while i < self.values.len()
            invariant
                i <= self.values.len(),
                values@ == self.values@.take(i as int),
            decreases self.values.len() - i,
        {
            values.push(self.values[i].clone());
            i += 1;
            assert(values@ =~= self.values@.take(i as int));
        }
        assert(self.values@.take(i as int) == self.values@);
        Rule { prop: self.prop.clone(), values }
    }
}

/// An ordered list of rules. A parsed declaration set holds each property once; a merged
/// list may hold a property several times.
#[derive(Debug, PartialEq, Eq)]
pub struct Rules(pub Vec<Rule>);

/// The views of a sequence of rules.
pub open spec fn rule_views(rules: Seq<Rule>) -> Seq<RuleView> {
    rules.map_values(|r: Rule| r@)
}

impl View for Rules {
    type V = Seq<RuleView>;

    open spec fn view(&self) -> Seq<RuleView> {
        rule_views(self.0@)
    }
}

/// The class names of the rules, in order.
pub open spec fn class_names_of(rules: Seq<RuleView>) -> Seq<Seq<char>> {
    rules.map_values(|r: RuleView| class_name_of(r))
}

/// The CSS classes of the rules, in order.
pub open spec fn css_classes_of(rules: Seq<RuleView>) -> Seq<Seq<char>> {
    rules.map_values(|r: RuleView| css_class_of(r))
}

/// The CSS declarations of the rules, in order.
pub open spec fn declarations_of(rules: Seq<RuleView>) -> Seq<Seq<char>> {
    rules.map_values(|r: RuleView| declaration_of(r))
}

/// The stylesheet text of the rules: one CSS class a line.
pub open spec fn stylesheet_of(rules: Seq<RuleView>) -> Seq<char> {
    join(css_classes_of(rules), "\n"@)
}

/// Whether no two rules of the list share a property.
pub open spec fn distinct_properties(rules: Seq<RuleView>) -> bool {
    forall|i: int, j: int|
        0 <= i < j < rules.len() ==> (#[trigger] rules[i]).prop != (#[trigger] rules[j]).prop
}

impl Rules {
    /// The rules of `self` followed by those of `other`. Nothing is dropped: a property
    /// that both declare stands twice in the result.
    pub fn merge(&self, other: &Rules) -> (r: Rules)
        ensures
            r@ == self@ + other@,
    {
        let mut rules: Vec<Rule> = Vec::new();
        let mut i: usize = 0;
        while i < self.0.len()
            invariant
                i <= self.0.len(),
                rule_views(rules@) == self@.take(i as int),
            decreases self.0.len() - i,
        {
            let rule = self.0[i].clone();
            proof {
                assert(self@.take(i as int + 1) =~= self@.take(i as int).push(rule@));
                assert(rule_views(rules@.push(rule)) =~= rule_views(rules@).push(rule@));
            }
            rules.push(rule);
            i += 1;
        }
        let mut j: usize = 0;
        while j < other.0.len()
            invariant
                i == self.0.len(),
                j <= other.0.len(),
                rule_views(rules@) == self@.take(i as int) + other@.take(j as int),
            decreases other.0.len() - j,
        {
            let rule = other.0[j].clone();
            proof {
                assert(other@.take(j as int + 1) =~= other@.take(j as int).push(rule@));
                assert(rule_views(rules@.push(rule)) =~= rule_views(rules@).push(rule@));
                assert((self@.take(i as int) + other@.take(j as int)).push(rule@) =~= self@.take(
                    i as int,
                ) + other@.take(j as int).push(rule@));
            }
            rules.push(rule);
            j += 1;
        }
        proof {
            assert(self@.take(i as int) == self@);
            assert(other@.take(j as int) == other@);
        }
        Rules(rules)
    }

    /// The class names of the rules, in order.
    pub fn class_names(&self) -> (r: Vec<String>)
        ensures
            texts(r@) == class_names_of(self@),
    {
        let mut names: Vec<String> = Vec::new();
        let mut i: usize = 0;
        while i < self.0.len()
            invariant
                i <= self.0.len(),
                texts(names@) == class_names_of(self@).take(i as int),
            decreases self.0.len() - i,
        {
            let name = self.0[i].class_name();
            proof {
                let all = class_names_of(self@);
                assert(all[i as int] == name@);
                assert(all.take(i as int + 1) =~= all.take(i as int).push(name@));
                assert(texts(names@.push(name)) =~= texts(names@).push(name@));
            }
            names.push(name);
            i += 1;
        }
        assert(class_names_of(self@).take(i as int) == class_names_of(self@));
        names
    }

    /// The stylesheet text of the rules: one CSS class a line.
    pub fn to_css_classes(&self) -> (r: String)
        ensures
            r@ == stylesheet_of(self@),
    {
        let mut classes: Vec<String> = Vec::new();
        let mut i: usize = 0;
        while i < self.0.len()
            invariant
                i <= self.0.len(),
                texts(classes@) == css_classes_of(self@).take(i as int),
            decreases self.0.len() - i,
        {
            let class = self.0[i].to_css_class();
            proof {
                let all = css_classes_of(self@);
                assert(all[i as int] == class@);
                assert(all.take(i as int + 1) =~= all.take(i as int).push(class@));
                assert(texts(classes@.push(class)) =~= texts(classes@).push(class@));
            }
            classes.push(class);
            i += 1;
        }
        assert(css_classes_of(self@).take(i as int) == css_classes_of(self@));
        join_strings(&classes, "\n")
    }

    /// The CSS declarations of the rules, in order.
    pub fn declarations(&self) -> (r: Vec<String>)
        ensures
            texts(r@) == declarations_of(self@),
    {
        let mut out: Vec<String> = Vec::new();
        let mut i: usize = 0;
        while i < self.0.len()
            invariant
                i <= self.0.len(),
                texts(out@) == declarations_of(self@).take(i as int),
            decreases self.0.len() - i,
        {
            let css = self.0[i].to_css();
            proof {
                let all = declarations_of(self@);
                assert(all[i as int] == css@);
                assert(all.take(i as int + 1) =~= all.take(i as int).push(css@));
                assert(texts(out@.push(css)) =~= texts(out@).push(css@));
            }
            out.push(css);
            i += 1;
        }
        assert(declarations_of(self@).take(i as int) == declarations_of(self@));
        out
    }
}

impl Clone for Rules {
    fn clone(&self) -> (r: Self)
        ensures
            r@ == self@,
    {
        let empty = Rules(Vec::new());
        assert(self@ + empty@ =~= self@);
        self.merge(&empty)
    }
}

} // verus!
