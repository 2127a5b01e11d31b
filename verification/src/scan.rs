//! The walk over a directory tree that finds the checkouts in it.
//!
//! Reading directories is left to the caller. The walk is told, entry by
//! entry, what the directory being read holds, and answers what to do
//! with each entry: a directory that holds the marker is a checkout and
//! is not read further; any other directory is read next, before the
//! rest of the one it lies in.

use crate::path::{join, pushed};
use crate::text::texts;
use vstd::prelude::*;

verus! {

/// What was seen of one directory entry.
#[derive(Debug)]
pub struct Entry {
    /// The entry's path.
    pub path: String,
    /// Whether the entry is a directory.
    pub is_dir: bool,
    /// Whether the entry holds the marker directory.
    pub has_marker: bool,
}

/// An `Entry` in terms of plain values.
pub struct EntryView {
    pub path: Seq<char>,
    pub is_dir: bool,
    pub has_marker: bool,
}

impl View for Entry {
    type V = EntryView;

    open spec fn view(&self) -> EntryView {
        EntryView { path: self.path@, is_dir: self.is_dir, has_marker: self.has_marker }
    }
}

/// What reading the current directory gave.
#[derive(Debug)]
pub enum Event {
    /// One more entry.
    Entry(Entry),
    /// No entry is left.
    End,
}

/// An `Event` in terms of plain values.
pub enum EventView {
    Entry(EntryView),
    End,
}

impl View for Event {
    type V = EventView;

    open spec fn view(&self) -> EventView {
        match self {
            Event::Entry(e) => EventView::Entry(e@),
            Event::End => EventView::End,
        }
    }
}

/// What to do after an event.
#[derive(Debug)]
pub enum Action {
    /// The entry is a checkout: report it, and do not read it.
    Visit(String),
    /// The entry is a directory to search: read it next.
    Descend(String),
    /// The entry is no directory: nothing to do.
    Skip,
    /// The directory is done: go on with the one it lies in.
    Ascend,
    /// The walk is over.
    Finished,
}

/// An `Action` in terms of plain values.
pub enum ActionView {
    Visit(Seq<char>),
    Descend(Seq<char>),
    Skip,
    Ascend,
    Finished,
}

impl View for Action {
    type V = ActionView;

    open spec fn view(&self) -> ActionView {
        match self {
            Action::Visit(p) => ActionView::Visit(p@),
            Action::Descend(p) => ActionView::Descend(p@),
            Action::Skip => ActionView::Skip,
            Action::Ascend => ActionView::Ascend,
            Action::Finished => ActionView::Finished,
        }
    }
}

/// Whether an entry is a checkout: a directory that holds the marker.
pub open spec fn is_checkout(e: EntryView) -> bool {
    e.is_dir && e.has_marker
}

/// Whether an entry is searched further: a directory without the marker.
pub open spec fn is_searched(e: EntryView) -> bool {
    e.is_dir && !e.has_marker
}

/// One step of the walk: from the directories being read, innermost
/// last, and an event, to the directories being read afterwards and
/// what to do.
pub open spec fn step(open: Seq<Seq<char>>, event: EventView) -> (Seq<Seq<char>>, ActionView) {
    if open.len() == 0 {
        (open, ActionView::Finished)
    } else {
        match event {
            EventView::Entry(e) => if is_checkout(e) {
                (open, ActionView::Visit(e.path))
            } else if is_searched(e) {
                (open.push(e.path), ActionView::Descend(e.path))
            } else {
                (open, ActionView::Skip)
            },
            EventView::End => if open.len() == 1 {
                (open.drop_last(), ActionView::Finished)
            } else {
                (open.drop_last(), ActionView::Ascend)
            },
        }
    }
}

/// Where the marker of the directory `dir` would be: `.git` in it.
pub open spec fn marker_of(dir: Seq<char>) -> Seq<char> {
    pushed(dir, ".git"@)
}

/// Where to look for the marker of the directory `dir`.
pub fn marker_path(dir: &str) -> (r: String)
    ensures
        r@ == marker_of(dir@),
{
    join(dir, ".git")
}

/// A walk in progress.
#[derive(Debug)]
pub struct Walk {
    open: Vec<String>,
}

impl View for Walk {
    type V = Seq<Seq<char>>;

    /// The directories being read, innermost last.
    closed spec fn view(&self) -> Seq<Seq<char>> {
        texts(self.open@)
    }
}

impl Walk {
    /// A walk that starts by reading `root`.
    pub fn new(root: String) -> (w: Walk)
        ensures
            w@ == seq![root@],
    {
        let mut open: Vec<String> = Vec::new();
        open.push(root);
        Walk { open }
    }

    /// Whether the walk is over.
    pub fn is_finished(&self) -> (r: bool)
        ensures
            r == (self@.len() == 0),
    {
        self.open.len() == 0
    }

    /// The directory being read, while the walk goes on.
    pub fn current(&self) -> (r: Option<&str>)
        ensures
            match r {
                Some(dir) => self@.len() > 0 && dir@ == self@.last(),
                None => self@.len() == 0,
            },
    {
        let n = self.open.len();
        if n == 0 {
            None
        } else {
            Some(self.open[n - 1].as_str())
        }
    }

    /// Takes what reading the current directory gave, and answers what to
    /// do next.
    pub fn advance(&mut self, event: Event) -> (action: Action)
        ensures
            (final(self)@, action@) == step(old(self)@, event@),
    {
        if self.open.len() == 0 {
            return Action::Finished;
        }
        let ghost before = self@;
        match event {
            Event::Entry(e) => {
                if e.is_dir && e.has_marker {
                    Action::Visit(e.path)
                } else if e.is_dir {
                    self.open.push(e.path.clone());
                    Action::Descend(e.path)
                } else {
                    Action::Skip
                }
            },
            Event::End => {
                self.open.pop();
                if self.open.len() == 0 {
                    Action::Finished
                } else {
                    Action::Ascend
                }
            },
        }
    }
}

/// The checkouts reported over a run of events, and the directories
/// being read at its end, for a walk that starts with `open`.
pub open spec fn run(open: Seq<Seq<char>>, events: Seq<EventView>) -> (
    Seq<Seq<char>>,
    Seq<Seq<char>>,
)
    decreases events.len(),
{
    if events.len() == 0 {
        (open, Seq::empty())
    } else {
        let (mid, seen) = run(open, events.drop_last());
        let (next, action) = step(mid, events.last());
        match action {
            ActionView::Visit(p) => (next, seen.push(p)),
            _ => (next, seen),
        }
    }
}

/// A directory tree as the walk meets it: an entry, and below it the
/// entries of the directory that it is, if it is one.
pub struct Node {
    pub entry: EntryView,
    pub children: Seq<Node>,
}

/// The checkouts among `nodes` and below them, in the order of the
/// tree: a checkout counts once, whatever lies below it.
pub open spec fn checkouts(nodes: Seq<Node>) -> Seq<Seq<char>>
    decreases nodes,
{
    if nodes.len() == 0 {
        Seq::empty()
    } else {
        let last = nodes.last();
        checkouts(nodes.drop_last()) + if is_checkout(last.entry) {
            seq![last.entry.path]
        } else if is_searched(last.entry) {
            checkouts(last.children)
        } else {
            Seq::empty()
        }
    }
}

/// The events that reading `nodes` gives to a caller that does what
/// the walk answers: each entry in turn, followed at once, where it is
/// searched, by what lies in it and the end of that listing.
pub open spec fn events_of(nodes: Seq<Node>) -> Seq<EventView>
    decreases nodes,
{
    if nodes.len() == 0 {
        Seq::empty()
    } else {
        let last = nodes.last();
        events_of(nodes.drop_last()).push(EventView::Entry(last.entry)) + if is_searched(
            last.entry,
        ) {
            events_of(last.children).push(EventView::End)
        } else {
            Seq::empty()
        }
    }
}

/// Whether no checkout lies among `nodes` or below them.
pub open spec fn free_of_checkouts(nodes: Seq<Node>) -> bool
    decreases nodes,
{
    nodes.len() == 0 || {
        &&& free_of_checkouts(nodes.drop_last())
        &&& !is_checkout(nodes.last().entry)
        &&& is_searched(nodes.last().entry) ==> free_of_checkouts(nodes.last().children)
    }
}

/// A run over a single event is one step.
pub proof fn lemma_run_one(open: Seq<Seq<char>>, event: EventView)
    ensures
        run(open, seq![event]) == (
            step(open, event).0,
            match step(open, event).1 {
                ActionView::Visit(p) => seq![p],
                _ => Seq::<Seq<char>>::empty(),
            },
        ),
{
    reveal_with_fuel(run, 2);
}

/// A run over two stretches of events is the run over the second that
/// starts where the first ends.
pub proof fn lemma_run_concat(open: Seq<Seq<char>>, a: Seq<EventView>, b: Seq<EventView>)
    ensures
        run(open, a + b) == (run(run(open, a).0, b).0, run(open, a).1 + run(run(open, a).0, b).1),
    decreases b.len(),
{
    if b.len() > 0 {
        assert((a + b).drop_last() =~= a + b.drop_last());
        lemma_run_concat(open, a, b.drop_last());
    }
}

/// Reading what lies in a directory, as the walk directs, leaves the
/// walk in that directory and reports the checkouts in it and below it:
/// each once, and nothing from inside a checkout.
pub proof fn lemma_walk_reports_checkouts(open: Seq<Seq<char>>, nodes: Seq<Node>)
    requires
        open.len() > 0,
    ensures
        run(open, events_of(nodes)) == (open, checkouts(nodes)),
    decreases nodes,
{
    if nodes.len() > 0 {
        // Up to the last entry, by induction; then the entry itself.
        let last = nodes.last();
        let head = events_of(nodes.drop_last());
        let entry = seq![EventView::Entry(last.entry)];
        lemma_walk_reports_checkouts(open, nodes.drop_last());
        assert(head.push(EventView::Entry(last.entry)) =~= head + entry);
        lemma_run_one(open, EventView::Entry(last.entry));
        lemma_run_concat(open, head, entry);
        if is_searched(last.entry) {
            // What lies in it, by induction one directory further in;
            // then its end, which leads back out.
            let inner = open.push(last.entry.path);
            let below = events_of(last.children);
            let end = seq![EventView::End];
            lemma_walk_reports_checkouts(inner, last.children);
            lemma_run_one(inner, EventView::End);
            lemma_run_concat(inner, below, end);
            assert(below.push(EventView::End) =~= below + end);
            lemma_run_concat(open, head + entry, below + end);
        }
    }
}

/// A whole walk from `root` over a directory that holds `nodes` ends
/// finished, and reports exactly the checkouts of the tree.
pub proof fn lemma_whole_walk(root: Seq<char>, nodes: Seq<Node>)
    ensures
        run(seq![root], events_of(nodes).push(EventView::End)) == (
            Seq::<Seq<char>>::empty(),
            checkouts(nodes),
        ),
{
    let open = seq![root];
    let end = seq![EventView::End];
    lemma_walk_reports_checkouts(open, nodes);
    assert(events_of(nodes).push(EventView::End) =~= events_of(nodes) + end);
    lemma_run_one(open, EventView::End);
    lemma_run_concat(open, events_of(nodes), end);
}

/// A tree without checkouts has none to give.
pub proof fn lemma_no_checkouts(nodes: Seq<Node>)
    requires
        free_of_checkouts(nodes),
    ensures
        checkouts(nodes) == Seq::<Seq<char>>::empty(),
    decreases nodes,
{
    if nodes.len() > 0 {
        lemma_no_checkouts(nodes.drop_last());
        if is_searched(nodes.last().entry) {
            lemma_no_checkouts(nodes.last().children);
        }
    }
}

/// A walk over a tree without checkouts reports nothing.
pub proof fn lemma_no_checkout_no_visit(root: Seq<char>, nodes: Seq<Node>)
    requires
        free_of_checkouts(nodes),
    ensures
        run(seq![root], events_of(nodes).push(EventView::End)).1 == Seq::<Seq<char>>::empty(),
{
    lemma_whole_walk(root, nodes);
    lemma_no_checkouts(nodes);
}

/// A walk over a checkout reports it once, and nothing that lies in
/// it: not even a directory of it that holds a marker of its own.
pub proof fn lemma_checkout_is_a_leaf(root: Seq<char>, node: Node)
    requires
        is_checkout(node.entry),
    ensures
        run(seq![root], events_of(seq![node]).push(EventView::End)).1 == seq![node.entry.path],
{
    lemma_whole_walk(root, seq![node]);
    reveal_with_fuel(checkouts, 2);
}

} // verus!
