//! The fragment store: the CSS text of each compile call under the call's identifier.
//!
//! The store holds at most one fragment for an identifier, and keeps its fragments in
//! the order of their identifiers. Writing under an identifier that the store knows
//! replaces the fragment; nothing is ever appended to one.

use crate::order::{lemma_precedes_total, lemma_precedes_transitive, precedes, text_precedes};
use crate::text::{join, join_strings, same_text, texts};
use vstd::prelude::*;

verus! {

/// The age in seconds beyond which a fragment is reported as stale.
pub const STALE_AFTER: u64 = 86_400;

/// The identifier of the fragment that holds the variable definitions.
pub const VARIABLES_FRAGMENT: &'static str = "_csm_defs";

/// One fragment: the CSS text that was written under `id`, and when, in seconds.
#[derive(Debug, PartialEq, Eq)]
pub struct Fragment {
    pub id: String,
    pub css: String,
    pub modified: u64,
}

/// The mathematical value of a [`Fragment`].
pub struct FragmentView {
    pub id: Seq<char>,
    pub css: Seq<char>,
    pub modified: u64,
}

impl View for Fragment {
    type V = FragmentView;

    open spec fn view(&self) -> FragmentView {
        FragmentView { id: self.id@, css: self.css@, modified: self.modified }
    }
}

/// The views of a sequence of fragments.
pub open spec fn fragment_views(fragments: Seq<Fragment>) -> Seq<FragmentView> {
    fragments.map_values(|f: Fragment| f@)
}

/// Whether the fragments stand in the order of their identifiers, each identifier once.
pub open spec fn ordered_by_id(fragments: Seq<FragmentView>) -> bool {
    forall|i: int, j: int|
        0 <= i < j < fragments.len() ==> precedes(
            (#[trigger] fragments[i]).id,
            (#[trigger] fragments[j]).id,
        )
}

/// The first position from `i` on whose fragment's identifier does not stand before `id`.
pub open spec fn position_from(fragments: Seq<FragmentView>, id: Seq<char>, i: int) -> int
    decreases fragments.len() - i,
{
    if 0 <= i < fragments.len() && precedes(fragments[i].id, id) {
        position_from(fragments, id, i + 1)
    } else {
        i
    }
}

/// The position of `id` among the fragments: where its fragment stands, or where it
/// would have to be put.
pub open spec fn position_of(fragments: Seq<FragmentView>, id: Seq<char>) -> int {
    position_from(fragments, id, 0)
}

/// Whether the fragments hold one for `id`.
pub open spec fn holds(fragments: Seq<FragmentView>, id: Seq<char>) -> bool {
    let p = position_of(fragments, id);
    0 <= p < fragments.len() && fragments[p].id == id
}

/// The fragments after `fragment` was written: it stands in the place of the one that
/// had its identifier, or is put in at its identifier's position.
pub open spec fn written(fragments: Seq<FragmentView>, fragment: FragmentView) -> Seq<
    FragmentView,
> {
    let p = position_of(fragments, fragment.id);
    if holds(fragments, fragment.id) {
        fragments.update(p, fragment)
    } else {
        fragments.insert(p, fragment)
    }
}

/// Whether a fragment is stale at the time `now`: it was last written more than a day
/// before.
pub open spec fn is_stale(fragment: FragmentView, now: u64) -> bool {
    now - fragment.modified > STALE_AFTER
}

/// The identifiers of the stale fragments, in the order of the fragments.
pub open spec fn stale_ids_of(fragments: Seq<FragmentView>, now: u64) -> Seq<Seq<char>>
    decreases fragments.len(),
{
    if fragments.len() == 0 {
        Seq::empty()
    } else if is_stale(fragments.last(), now) {
        stale_ids_of(fragments.drop_last(), now).push(fragments.last().id)
    } else {
        stale_ids_of(fragments.drop_last(), now)
    }
}

/// The line that imports the fragment `id` from the place `prefix`.
pub open spec fn import_line(prefix: Seq<char>, id: Seq<char>) -> Seq<char> {
    "@import \""@ + prefix + id + ".css\";\n"@
}

/// The document that imports every fragment, in the order of the fragments.
pub open spec fn import_lines(fragments: Seq<FragmentView>, prefix: Seq<char>) -> Seq<char>
    decreases fragments.len(),
{
    if fragments.len() == 0 {
        Seq::empty()
    } else {
        import_lines(fragments.drop_last(), prefix) + import_line(prefix, fragments.last().id)
    }
}

/// The CSS texts of the fragments, in the order of the fragments.
pub open spec fn contents_of(fragments: Seq<FragmentView>) -> Seq<Seq<char>> {
    fragments.map_values(|f: FragmentView| f.css)
}

/// The document with every import resolved: the texts of the fragments, one a line.
pub open spec fn resolved(fragments: Seq<FragmentView>) -> Seq<char> {
    join(contents_of(fragments), "\n"@)
}

/// The position of an identifier is a position of the sequence or its length; every
/// identifier before it stands before `id`, and the one at it does not.
pub proof fn lemma_position_from(fragments: Seq<FragmentView>, id: Seq<char>, i: int)
    requires
        0 <= i <= fragments.len(),
    ensures
        i <= position_from(fragments, id, i) <= fragments.len(),
        forall|k: int|
            i <= k < position_from(fragments, id, i) ==> precedes(
                (#[trigger] fragments[k]).id,
                id,
            ),
        position_from(fragments, id, i) < fragments.len() ==> !precedes(
            fragments[position_from(fragments, id, i)].id,
            id,
        ),
    decreases fragments.len() - i,
{
    if i < fragments.len() && precedes(fragments[i].id, id) {
        lemma_position_from(fragments, id, i + 1);
    }
}

/// Writing a fragment keeps the fragments in the order of their identifiers.
pub proof fn lemma_written_ordered(fragments: Seq<FragmentView>, fragment: FragmentView)
    requires
        ordered_by_id(fragments),
    ensures
        ordered_by_id(written(fragments, fragment)),
{
    let id = fragment.id;
    let p = position_of(fragments, id);
    let out = written(fragments, fragment);
    lemma_position_from(fragments, id, 0);
    if holds(fragments, id) {
        assert forall|i: int, j: int| 0 <= i < j < out.len() implies precedes(
            (#[trigger] out[i]).id,
            (#[trigger] out[j]).id,
        ) by {
            assert(out[i].id == fragments[i].id);
            assert(out[j].id == fragments[j].id);
        }
    } else {
        assert forall|j: int| p <= j < fragments.len() implies precedes(
            id,
            (#[trigger] fragments[j]).id,
        ) by {
            lemma_precedes_total(id, fragments[p].id);
            if p < j {
                assert(precedes(fragments[p].id, fragments[j].id));
                lemma_precedes_transitive(id, fragments[p].id, fragments[j].id);
            }
        }
        assert forall|i: int, j: int| 0 <= i < j < out.len() implies precedes(
            (#[trigger] out[i]).id,
            (#[trigger] out[j]).id,
        ) by {
            if j < p {
                assert(out[i] == fragments[i] && out[j] == fragments[j]);
            } else if j == p {
                assert(out[i] == fragments[i]);
            } else if i < p {
                assert(out[i] == fragments[i] && out[j] == fragments[j - 1]);
            } else if i == p {
                assert(out[j] == fragments[j - 1]);
            } else {
                assert(out[i] == fragments[i - 1] && out[j] == fragments[j - 1]);
            }
        }
    }
}

/// The fragments that a build has written.
#[derive(Debug, PartialEq, Eq)]
pub struct FragmentStore {
    fragments: Vec<Fragment>,
}

impl View for FragmentStore {
    type V = Seq<FragmentView>;

    closed spec fn view(&self) -> Seq<FragmentView> {
        fragment_views(self.fragments@)
    }
}

impl FragmentStore {
    #[verifier::type_invariant]
    spec fn fragments_are_ordered(&self) -> bool {
        ordered_by_id(fragment_views(self.fragments@))
    }

    /// A store without fragments.
    pub fn new() -> (r: FragmentStore)
        ensures
            r@ == Seq::<FragmentView>::empty(),
    {
        let fragments: Vec<Fragment> = Vec::new();
        assert(fragment_views(fragments@) =~= Seq::empty());
        FragmentStore { fragments }
    }

    /// The number of fragments.
    pub fn len(&self) -> (r: usize)
        ensures
            r == self@.len(),
            ordered_by_id(self@),
    {
        proof {
            use_type_invariant(self);
        }
        self.fragments.len()
    }

    /// The fragment at position `i` in the order of the identifiers, if there are that
    /// many.
    pub fn get(&self, i: usize) -> (r: Option<&Fragment>)
        ensures
            r is Some == (i < self@.len()),
            r matches Some(fragment) ==> fragment@ == self@[i as int],
    {
        if i < self.fragments.len() {
            Some(&self.fragments[i])
        } else {
            None
        }
    }

    /// The position of `id` among the fragments.
    pub fn position(&self, id: &str) -> (r: usize)
        ensures
            r == position_of(self@, id@),
            r <= self@.len(),
    {
        let ghost all = self@;
        proof {
            lemma_position_from(all, id@, 0);
        }
        let mut i: usize = 0;
        while i < self.fragments.len()
            invariant
                i <= self.fragments.len(),
                all == self@,
                position_of(all, id@) == position_from(all, id@, i as int),
            decreases self.fragments.len() - i,
        {
            if !text_precedes(self.fragments[i].id.as_str(), id) {
                return i;
            }
            i += 1;
        }
        i
    }

    /// The fragment that was written under `id`, if there is one.
    pub fn find(&self, id: &str) -> (r: Option<&Fragment>)
        ensures
            r is Some == holds(self@, id@),
            r matches Some(f) ==> f@ == self@[position_of(self@, id@)],
    {
        let p = self.position(id);
        if p < self.fragments.len() && same_text(self.fragments[p].id.as_str(), id) {
            Some(&self.fragments[p])
        } else {
            None
        }
    }

    /// Writes `css` under `id`, at the time `now`. What was written under `id` before is
    /// replaced as a whole.
    pub fn write(&mut self, id: &str, css: &str, now: u64)
        ensures
            final(self)@ == written(
                old(self)@,
                FragmentView { id: id@, css: css@, modified: now },
            ),
            ordered_by_id(final(self)@),
    {
        proof {
            use_type_invariant(&*self);
        }
        let ghost before = self@;
        let p = self.position(id);
        let fragment = Fragment { id: id.to_owned(), css: css.to_owned(), modified: now };
        let replace = p < self.fragments.len() && same_text(
            self.fragments[p].id.as_str(),
            id,
        );
        let mut fragments: Vec<Fragment> = Vec::new();
        assert(fragment_views(fragments@) =~= Seq::empty());
        core::mem::swap(&mut self.fragments, &mut fragments);
        proof {
            lemma_written_ordered(before, fragment@);
        }
        if replace {
            assert(fragment_views(fragments@.update(p as int, fragment)) =~= before.update(
                p as int,
                fragment@,
            ));
            fragments.set(p, fragment);
        } else {
            assert(fragment_views(fragments@.insert(p as int, fragment)) =~= before.insert(
                p as int,
                fragment@,
            ));
            fragments.insert(p, fragment);
        }
        core::mem::swap(&mut self.fragments, &mut fragments);
    }

    /// Writes the block of variable definitions, at the time `now`, under the identifier
    /// that is kept for it.
    pub fn write_variable_block(&mut self, css: &str, now: u64)
        ensures
            final(self)@ == written(
                old(self)@,
                FragmentView { id: VARIABLES_FRAGMENT@, css: css@, modified: now },
            ),
            ordered_by_id(final(self)@),
    {
        self.write(VARIABLES_FRAGMENT, css, now)
    }

    /// The identifiers of the fragments that are stale at the time `now`.
    pub fn stale_ids(&self, now: u64) -> (r: Vec<String>)
        ensures
            texts(r@) == stale_ids_of(self@, now),
    {
        let ghost all = self@;
        let mut out: Vec<String> = Vec::new();
        let mut i: usize = 0;
        assert(all.take(0) =~= Seq::empty());
        assert(texts(out@) =~= stale_ids_of(all.take(0), now));
        while i < self.fragments.len()
            invariant
                i <= self.fragments.len(),
                all == self@,
                texts(out@) == stale_ids_of(all.take(i as int), now),
            decreases self.fragments.len() - i,
        {
            let fragment = &self.fragments[i];
            proof {
                assert(all.take(i as int + 1).drop_last() == all.take(i as int));
                assert(all.take(i as int + 1).last() == fragment@);
            }
            if now > fragment.modified && now - fragment.modified > STALE_AFTER {
                let id = fragment.id.clone();
                proof {
                    assert(texts(out@.push(id)) =~= texts(out@).push(id@));
                }
                out.push(id);
            }
            i += 1;
        }
        proof {
            assert(all.take(i as int) == all);
        }
        out
    }

    /// The document that imports every fragment from the place `prefix`, in the order of
    /// the identifiers.
    pub fn aggregate_document(&self, prefix: &str) -> (r: String)
        ensures
            r@ == import_lines(self@, prefix@),
    {
        let ghost all = self@;
        let mut out = String::new();
        let mut i: usize = 0;
        assert(all.take(0) =~= Seq::empty());
        while i < self.fragments.len()
            invariant
                i <= self.fragments.len(),
                all == self@,
                out@ == import_lines(all.take(i as int), prefix@),
            decreases self.fragments.len() - i,
        {
            let fragment = &self.fragments[i];
            proof {
                let sofar = import_lines(all.take(i as int), prefix@);
                assert(all.take(i as int + 1).drop_last() == all.take(i as int));
                assert(all.take(i as int + 1).last() == fragment@);
                assert(sofar + "@import \""@ + prefix@ + fragment@.id + ".css\";\n"@ =~= sofar + (
                "@import \""@ + prefix@ + fragment@.id + ".css\";\n"@));
            }
            out.append("@import \"");
            out.append(prefix);
            out.append(fragment.id.as_str());
            out.append(".css\";\n");
            i += 1;
        }
        proof {
            assert(all.take(i as int) == all);
        }
        out
    }

    /// The document with every import resolved: the texts of the fragments in the order of
    /// the identifiers, one a line.
    pub fn resolved_document(&self) -> (r: String)
        ensures
            r@ == resolved(self@),
    {
        let ghost all = contents_of(self@);
        let mut parts: Vec<String> = Vec::new();
        let mut i: usize = 0;
        while i < self.fragments.len()
            invariant
                i <= self.fragments.len(),
                all == contents_of(self@),
                texts(parts@) == all.take(i as int),
            decreases self.fragments.len() - i,
        {
            let css = self.fragments[i].css.clone();
            proof {
                assert(all[i as int] == css@);
                assert(all.take(i as int + 1) =~= all.take(i as int).push(css@));
                assert(texts(parts@.push(css)) =~= texts(parts@).push(css@));
            }
            parts.push(css);
            i += 1;
        }
        proof {
            assert(all.take(i as int) == all);
        }
        join_strings(&parts, "\n")
    }
}

} // verus!
