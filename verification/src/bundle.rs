//! The bundle: every fragment of a store in one minified stylesheet.
//!
//! The fragments are imported in the order of their identifiers. Each must be a
//! stylesheet of its own. The imports are resolved into one document, and `lightningcss`
//! parses that document, minifies it, which merges rules that say the same, and prints
//! it without white space.

use crate::error::{BundleError, BundleErrorView};
use crate::store::{resolved, FragmentStore, FragmentView};
use lightningcss::stylesheet::{MinifyOptions, ParserOptions, PrinterOptions, StyleSheet};
use vstd::prelude::*;

verus! {

/// Whether `lightningcss` parses `css` as a stylesheet.
pub uninterp spec fn parses_as_stylesheet(css: Seq<char>) -> bool;

/// The text that `lightningcss` prints for `css` once parsed and minified; `None` where
/// one of the three steps fails.
pub uninterp spec fn minified_stylesheet(css: Seq<char>) -> Option<Seq<char>>;

/// Calls `StyleSheet::parse` with the default options and tells whether it succeeded. The
/// result is taken to depend on `css` alone; nothing is claimed about which texts parse.
#[verifier::external_body]
fn stylesheet_parses(css: &str) -> (r: bool)
    ensures
        r == parses_as_stylesheet(css@),
{
    StyleSheet::parse(css, ParserOptions::default()).is_ok()
}

/// Calls `StyleSheet::parse` with the default options, `StyleSheet::minify` with the
/// default options and `StyleSheet::to_css` with `minify` set, and hands out the printed
/// code, or `None` where one of the three fails. The result is taken to depend on `css`
/// alone; nothing is claimed about what it holds.
#[verifier::external_body]
fn minify_stylesheet(css: &str) -> (r: Option<String>)
    ensures
        r matches Some(text) ==> minified_stylesheet(css@) == Some(text@),
        r is None ==> minified_stylesheet(css@) is None,
{
    let mut sheet = StyleSheet::parse(css, ParserOptions::default()).ok()?;
    sheet.minify(MinifyOptions::default()).ok()?;
    let printed = sheet.to_css(PrinterOptions { minify: true, ..PrinterOptions::default() }).ok()?;
    Some(printed.code)
}

/// The position of the first fragment from `i` on that is no stylesheet.
pub open spec fn unreadable_from(fragments: Seq<FragmentView>, i: int) -> Option<int>
    decreases fragments.len() - i,
{
    if !(0 <= i < fragments.len()) {
        None
    } else if !parses_as_stylesheet(fragments[i].css) {
        Some(i)
    } else {
        unreadable_from(fragments, i + 1)
    }
}

/// The identifier of the first fragment that is no stylesheet.
pub open spec fn first_unreadable(fragments: Seq<FragmentView>) -> Option<Seq<char>> {
    match unreadable_from(fragments, 0) {
        Some(i) => Some(fragments[i].id),
        None => None,
    }
}

/// The bundle, given the identifier of the first fragment that is no stylesheet and the
/// minified text of the resolved document: an unreadable fragment fails the bundle, and
/// so does a document that cannot be minified.
pub open spec fn bundle_result(unreadable: Option<Seq<char>>, minified: Option<Seq<char>>) -> Result<
    Seq<char>,
    BundleErrorView,
> {
    match unreadable {
        Some(id) => Err(BundleErrorView::ImportResolutionFailed(id)),
        None => match minified {
            Some(text) => Ok(text),
            None => Err(BundleErrorView::MinifyFailed),
        },
    }
}

/// The bundle of the fragments.
pub open spec fn bundle_of(fragments: Seq<FragmentView>) -> Result<Seq<char>, BundleErrorView> {
    bundle_result(first_unreadable(fragments), minified_stylesheet(resolved(fragments)))
}

/// The view of a text that may be missing.
pub open spec fn text_view(text: Option<String>) -> Option<Seq<char>> {
    match text {
        Some(t) => Some(t@),
        None => None,
    }
}

/// Whether a result holds the text or the error that `expected` holds.
pub open spec fn is_bundle(r: Result<String, BundleError>, expected: Result<Seq<char>, BundleErrorView>) -> bool {
    match r {
        Ok(text) => expected == Ok::<_, BundleErrorView>(text@),
        Err(e) => expected == Err::<Seq<char>, _>(e@),
    }
}

/// Decides the bundle from the identifier of the first fragment that is no stylesheet and
/// the minified text of the resolved document.
pub fn bundle_outcome(unreadable: Option<String>, minified: Option<String>) -> (r: Result<
    String,
    BundleError,
>)
    ensures
        is_bundle(r, bundle_result(text_view(unreadable), text_view(minified))),
{
    match unreadable {
        Some(id) => Err(BundleError::ImportResolutionFailed(id)),
        None => match minified {
            Some(text) => Ok(text),
            None => Err(BundleError::MinifyFailed),
        },
    }
}

impl FragmentStore {
    /// The identifier of the first fragment that is no stylesheet.
    pub fn first_unreadable(&self) -> (r: Option<String>)
        ensures
            text_view(r) == first_unreadable(self@),
    {
        let ghost all = self@;
        let n = self.len();
        let mut i: usize = 0;
        while i < n
            invariant
                i <= n == all.len(),
                all == self@,
                unreadable_from(all, 0) == unreadable_from(all, i as int),
            decreases n - i,
        {
            if let Some(fragment) = self.get(i) {
                if !stylesheet_parses(fragment.css.as_str()) {
                    return Some(fragment.id.clone());
                }
            }
            i += 1;
        }
        None
    }

    /// The bundle of the fragments: the resolved document, minified.
    pub fn bundle(&self) -> (r: Result<String, BundleError>)
        ensures
            is_bundle(r, bundle_of(self@)),
    {
        let unreadable = self.first_unreadable();
        let minified = match unreadable {
            Some(_) => None,
            None => minify_stylesheet(self.resolved_document().as_str()),
        };
        bundle_outcome(unreadable, minified)
    }
}

} // verus!
