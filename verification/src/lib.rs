//! A compiler from style declarations to atomic CSS.
//!
//! Declarations are written in a small language of Rust tokens: `display: flex, width:
//! 5rem`. Each rule becomes one CSS class with a name that is made of the property and
//! its values, so that the same rule always gives the same class. What one compile call
//! makes is kept as a fragment under the call's identifier, and all fragments are bundled
//! into one minified stylesheet.
//!
//! - [`token`]: the tokens that the language is written in.
//! - [`rule`]: rules, their class names and their CSS text.
//! - [`parser`]: the grammar of declaration sets.
//! - [`defs`]: variable definitions and the root block that declares them.
//! - [`recipe`]: recipes, which are a base rule set with variants, and their grammar.
//! - [`dispatch`]: the table of all combinations of a recipe's choices.
//! - [`store`]: the fragments of a build, in the order of their identifiers.
//! - [`bundle`]: the stylesheet that is made of all fragments.
//! - [`compiler`]: the compile calls, on the context of a build.
//! - [`laws`]: what holds of all of these together, proved.
//! - [`text`], [`order`], [`error`]: texts, their order, and the errors.
//!
//! Nothing here reads or writes a file or asks for the time: a caller hands in tokens and
//! the time, and writes the fragments and the bundle where it wants them.

pub mod bundle;
pub mod compiler;
pub mod defs;
pub mod dispatch;
pub mod error;
pub mod laws;
pub mod order;
pub mod parser;
pub mod recipe;
pub mod rule;
pub mod store;
pub mod text;
pub mod token;
