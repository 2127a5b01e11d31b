//! Which local repository a name stands for.

use crate::path::{ends_with, path_ends_with};
use crate::text::texts;
use vstd::prelude::*;

verus! {

/// The outcome of looking a name up among the local repositories.
#[derive(Debug)]
pub enum Selection {
    /// No repository matches.
    NotFound,
    /// Exactly one repository matches: this one.
    Unique(String),
    /// Several repositories match: all of them, in the order in which
    /// they were given. None is preferred.
    Ambiguous(Vec<String>),
}

/// A `Selection` in terms of plain text.
pub enum SelectionView {
    NotFound,
    Unique(Seq<char>),
    Ambiguous(Seq<Seq<char>>),
}

impl View for Selection {
    type V = SelectionView;

    open spec fn view(&self) -> SelectionView {
        match self {
            Selection::NotFound => SelectionView::NotFound,
            Selection::Unique(p) => SelectionView::Unique(p@),
            Selection::Ambiguous(ps) => SelectionView::Ambiguous(texts(ps@)),
        }
    }
}

/// The candidates whose last components are those of `query`, in the
/// order in which they were given.
pub open spec fn matching(candidates: Seq<Seq<char>>, query: Seq<char>) -> Seq<Seq<char>> {
    candidates.filter(|c: Seq<char>| ends_with(c, query))
}

/// The selection that a list of matches amounts to.
pub open spec fn classified(found: Seq<Seq<char>>) -> SelectionView {
    if found.len() == 0 {
        SelectionView::NotFound
    } else if found.len() == 1 {
        SelectionView::Unique(found[0])
    } else {
        SelectionView::Ambiguous(found)
    }
}

/// The selection that `query` makes among `candidates`.
pub open spec fn selected(candidates: Seq<Seq<char>>, query: Seq<char>) -> SelectionView {
    classified(matching(candidates, query))
}

/// The candidates that `query` matches, in the order in which they were
/// given.
pub fn matches_of(candidates: &Vec<String>, query: &str) -> (found: Vec<String>)
    ensures
        texts(found@) == matching(texts(candidates@), query@),
{
    let mut found: Vec<String> = Vec::new();
    let ghost all = texts(candidates@);
    let ghost pred = |c: Seq<char>| ends_with(c, query@);
    let mut i: usize = 0;
    proof {
        reveal(Seq::filter);
        assert(all.take(0) =~= Seq::<Seq<char>>::empty());
        assert(texts(found@) =~= Seq::<Seq<char>>::empty());
    }
    while i < candidates.len()
        invariant
            i <= candidates.len(),
            all == texts(candidates@),
            pred == (|c: Seq<char>| ends_with(c, query@)),
            texts(found@) == all.take(i as int).filter(pred),
        decreases candidates.len() - i,
    {
        let ghost before = texts(found@);
        proof {
            reveal(Seq::filter);
            let upto = all.take(i + 1);
            assert(upto.drop_last() =~= all.take(i as int));
            assert(upto.last() == candidates@[i as int]@);
        }
        if path_ends_with(candidates[i].as_str(), query) {
            found.push(candidates[i].clone());
            assert(texts(found@) =~= before.push(candidates@[i as int]@));
        }
        i = i + 1;
    }
    assert(all.take(candidates.len() as int) =~= all);
    found
}

/// Sorts a list of matches into none, one, or several.
pub fn classify(mut found: Vec<String>) -> (r: Selection)
    ensures
        r@ == classified(texts(found@)),
{
    if found.len() == 0 {
        Selection::NotFound
    } else if found.len() == 1 {
        let ghost all = found@;
        match found.pop() {
            Some(only) => {
                assert(only == all[0]);
                Selection::Unique(only)
            },
            None => Selection::NotFound,
        }
    } else {
        Selection::Ambiguous(found)
    }
}

/// Looks `query` up among `candidates`: a candidate matches when its
/// last path components are those of `query`.
pub fn select(candidates: &Vec<String>, query: &str) -> (r: Selection)
    ensures
        r@ == selected(texts(candidates@), query@),
{
    classify(matches_of(candidates, query))
}

/// Among no candidates nothing is found.
pub proof fn lemma_select_none(query: Seq<char>)
    ensures
        selected(Seq::empty(), query) == SelectionView::NotFound,
{
    reveal(Seq::filter);
}

/// A single candidate that matches is the unique selection.
pub proof fn lemma_select_one(c: Seq<char>, query: Seq<char>)
    requires
        ends_with(c, query),
    ensures
        selected(seq![c], query) == SelectionView::Unique(c),
{
    reveal(Seq::filter);
    let pred = |x: Seq<char>| ends_with(x, query);
    assert(seq![c].drop_last() =~= Seq::<Seq<char>>::empty());
    assert(seq![c].drop_last().filter(pred) =~= Seq::<Seq<char>>::empty());
    assert(seq![c].filter(pred) =~= seq![c]);
}

/// Two candidates that both match are both reported, neither being
/// picked.
pub proof fn lemma_select_two(a: Seq<char>, b: Seq<char>, query: Seq<char>)
    requires
        ends_with(a, query),
        ends_with(b, query),
    ensures
        selected(seq![a, b], query) == SelectionView::Ambiguous(seq![a, b]),
{
    reveal(Seq::filter);
    let pred = |x: Seq<char>| ends_with(x, query);
    assert(seq![a, b].drop_last() =~= seq![a]);
    assert(seq![a].drop_last() =~= Seq::<Seq<char>>::empty());
    assert(seq![a].drop_last().filter(pred) =~= Seq::<Seq<char>>::empty());
    assert(seq![a].filter(pred) =~= seq![a]);
    assert(seq![a, b].filter(pred) =~= seq![a, b]);
}

/// Every candidate that matches is among the matches, and only those:
/// which candidates are reported does not depend on their order.
pub proof fn lemma_matching_is_a_filter(candidates: Seq<Seq<char>>, query: Seq<char>, c: Seq<char>)
    ensures
        matching(candidates, query).contains(c) <==> candidates.contains(c) && ends_with(c, query),
{
    let pred = |x: Seq<char>| ends_with(x, query);
    broadcast use vstd::seq_lib::group_filter_ensures;

    if matching(candidates, query).contains(c) {
        candidates.lemma_filter_contains_rev(pred, c);
        let i = choose|i: int|
            0 <= i < matching(candidates, query).len() && matching(candidates, query)[i] == c;
        assert(pred(matching(candidates, query)[i]));
    }
    if candidates.contains(c) && ends_with(c, query) {
        let i = choose|i: int| 0 <= i < candidates.len() && candidates[i] == c;
        assert(pred(candidates[i]));
    }
}

} // verus!
