//! Showing a tree while it is being read. The walk decides which line
//! comes next and which directory has to be read for it; the caller
//! prints and reads.
//!
//! The caller makes a walk with [`TreeWalk::new`], hands it what reading
//! the root gave with [`TreeWalk::enter`], and calls [`TreeWalk::advance`]
//! until it returns [`Step::Done`]. It prints the line of every step, and
//! after a [`Step::Open`] it reads the directory that the step names and
//! hands the walk what the read gave. The walk keeps one level for every
//! directory that is open, so its memory grows with the depth of the tree
//! and not with the depth of a call stack.

use vstd::prelude::*;
use vstd::string::StringExecFns;
use crate::entry::{dirs_first, resolved, sort_entities, Entry, ReadError};
use crate::exclude::ExclusionSet;
use crate::line::{child_prefix, child_prefix_text, descends, entry_line, line_text};

verus! {

/// A directory whose entries are being shown.
struct Level {
    entries: Vec<Entry>,
    next: usize,
    prefix: String,
    path: Vec<String>,
}

/// What a level holds: the entries of the directory in the order in
/// which they are shown, how many of them have been shown, the prefix
/// of their lines, and the names that lead from the root to the directory.
pub struct LevelView {
    pub entries: Seq<Entry>,
    pub next: nat,
    pub prefix: Seq<char>,
    pub path: Seq<Seq<char>>,
}

impl View for Level {
    type V = LevelView;

    closed spec fn view(&self) -> LevelView {
        LevelView {
            entries: self.entries@,
            next: self.next as nat,
            prefix: self.prefix@,
            path: self.path.deep_view(),
        }
    }
}

/// The state of a walk: the directories that are open, the outermost
/// first, and whether the innermost still waits for its listing.
pub struct TreeWalk {
    levels: Vec<Level>,
    awaiting: bool,
}

/// What a walk holds.
pub struct WalkView {
    pub levels: Seq<LevelView>,
    pub awaiting: bool,
}

spec fn level_views(levels: Seq<Level>) -> Seq<LevelView> {
    levels.map_values(|level: Level| level@)
}

impl View for TreeWalk {
    type V = WalkView;

    closed spec fn view(&self) -> WalkView {
        WalkView { levels: level_views(self.levels@), awaiting: self.awaiting }
    }
}

/// What the caller has to do next.
#[derive(Debug, PartialEq, Eq)]
pub enum Step {
    /// Nothing is left to show.
    Done,
    /// Print `text`.
    Line { text: String },
    /// Print `text`, read the directory that `path` leads to from the
    /// root, and hand what the read gave to [`TreeWalk::enter`].
    Open { text: String, path: Vec<String> },
}

/// What a step holds.
pub enum StepView {
    Done,
    Line { text: Seq<char> },
    Open { text: Seq<char>, path: Seq<Seq<char>> },
}

impl View for Step {
    type V = StepView;

    open spec fn view(&self) -> StepView {
        match self {
            Step::Done => StepView::Done,
            Step::Line { text } => StepView::Line { text: text@ },
            Step::Open { text, path } => StepView::Open { text: text@, path: path.deep_view() },
        }
    }
}

/// What a read gave, as the walk sees it.
pub open spec fn answer_view(listing: Result<Vec<Option<Entry>>, ReadError>) -> Result<
    Seq<Option<Entry>>,
    ReadError,
> {
    match listing {
        Ok(records) => Ok(records@),
        Err(e) => Err(e),
    }
}

/// The levels without the innermost ones of which every entry has been shown.
pub open spec fn settled(levels: Seq<LevelView>) -> Seq<LevelView>
    decreases levels.len(),
{
    if levels.len() > 0 && levels.last().next >= levels.last().entries.len() {
        settled(levels.drop_last())
    } else {
        levels
    }
}

impl LevelView {
    /// The entry that is shown next.
    pub open spec fn entry(self) -> Entry {
        self.entries[self.next as int]
    }

    /// Whether the entry that is shown next is the last of the level.
    pub open spec fn at_last(self) -> bool {
        self.next + 1 == self.entries.len()
    }

    /// The level once its next entry has been shown.
    pub open spec fn stepped(self) -> LevelView {
        LevelView { next: self.next + 1, ..self }
    }

    /// The level of the directory that the next entry is, before its
    /// listing is known.
    pub open spec fn below(self) -> LevelView {
        LevelView {
            entries: Seq::empty(),
            next: 0,
            prefix: child_prefix_text(self.prefix, self.at_last()),
            path: self.path.push(self.entry().name@),
        }
    }

    /// The level once a read has answered: it holds the entries that
    /// resolved, directories first, or none if the read failed, and none
    /// of them has been shown.
    pub open spec fn filled(self, answer: Result<Seq<Option<Entry>>, ReadError>) -> LevelView {
        LevelView {
            entries: match answer {
                Ok(records) => dirs_first(resolved(records)),
                Err(_) => Seq::empty(),
            },
            next: 0,
            ..self
        }
    }
}

impl WalkView {
    /// What `advance` returns in this state: the line of the next entry
    /// of the innermost level that has one, with the path of the entry if
    /// it is a directory that is not excluded; `Done` if no level has one.
    pub open spec fn step(self, exclude: Set<Seq<char>>) -> StepView {
        let levels = settled(self.levels);
        if levels.len() == 0 {
            StepView::Done
        } else {
            let level = levels.last();
            let entry = level.entry();
            let text = line_text(level.prefix, entry.name@, entry.is_dir, level.at_last());
            if descends(entry.name@, entry.is_dir, exclude) {
                StepView::Open { text, path: level.path.push(entry.name@) }
            } else {
                StepView::Line { text }
            }
        }
    }

    /// The state after `advance`: the levels that were finished are gone,
    /// the entry of the step counts as shown, and below a directory that
    /// is not excluded a level waits for its listing.
    pub open spec fn advanced(self, exclude: Set<Seq<char>>) -> WalkView {
        let levels = settled(self.levels);
        if levels.len() == 0 {
            WalkView { levels, awaiting: false }
        } else {
            let level = levels.last();
            let shown = levels.drop_last().push(level.stepped());
            if descends(level.entry().name@, level.entry().is_dir, exclude) {
                WalkView { levels: shown.push(level.below()), awaiting: true }
            } else {
                WalkView { levels: shown, awaiting: false }
            }
        }
    }

    /// The state after `enter`: a level that waits is filled with the
    /// answer. A walk that does not wait stays as it is.
    pub open spec fn entered(self, answer: Result<Seq<Option<Entry>>, ReadError>) -> WalkView {
        if self.awaiting && self.levels.len() > 0 {
            WalkView {
                levels: self.levels.drop_last().push(self.levels.last().filled(answer)),
                awaiting: false,
            }
        } else {
            self
        }
    }

    /// The walk that waits for the listing of the root.
    pub open spec fn start(prefix: Seq<char>) -> WalkView {
        WalkView {
            levels: seq![
                LevelView { entries: Seq::empty(), next: 0, prefix, path: Seq::empty() },
            ],
            awaiting: true,
        }
    }
}

fn path_with(path: &Vec<String>, name: &str) -> (out: Vec<String>)
    ensures
        out.deep_view() == path.deep_view().push(name@),
{
    let mut out: Vec<String> = Vec::new();
    let mut i: usize = 0;
    while i < path.len()
        invariant
            i <= path.len(),
            out.deep_view() == path.deep_view().take(i as int),
        decreases path.len() - i,
    {
        let ghost before = out.deep_view();
        let part = path[i].clone();
        out.push(part);
        assert(out.deep_view() =~= before.push(part@));
        i += 1;
    }
    let ghost before = out.deep_view();
    let last = String::from_str(name);
    out.push(last);
    assert(out.deep_view() =~= before.push(last@));
    out
}

impl TreeWalk {
    /// A walk whose lines start with `prefix`. It waits for the listing
    /// of the root.
    pub fn new(prefix: &str) -> (walk: Self)
        ensures
            walk@ == WalkView::start(prefix@),
    {
        let root = Level {
            entries: Vec::new(),
            next: 0,
            prefix: String::from_str(prefix),
            path: Vec::new(),
        };
        let mut levels: Vec<Level> = Vec::new();
        levels.push(root);
        let walk = TreeWalk { levels, awaiting: true };
        assert(walk@.levels =~= WalkView::start(prefix@).levels) by {
            assert(root@.path =~= Seq::<Seq<char>>::empty());
        }
        walk
    }

    /// Whether the walk waits for a listing.
    pub fn awaits_listing(&self) -> (waits: bool)
        ensures
            waits == self@.awaiting,
    {
        self.awaiting
    }

    /// Takes what reading the directory of the last `Open` step gave. An
    /// unreadable directory is shown as an empty one. Without an `Open`
    /// step before it the call changes nothing.
    pub fn enter(&mut self, listing: Result<Vec<Option<Entry>>, ReadError>)
        ensures
            final(self)@ == old(self)@.entered(answer_view(listing)),
    {
        if self.awaiting {
            match self.levels.pop() {
                None => {},
                Some(level) => {
                    let entries = match sort_entities(listing) {
                        Ok(sorted) => sorted,
                        Err(_) => Vec::new(),
                    };
                    let filled = Level { entries, next: 0, prefix: level.prefix, path: level.path };
                    self.levels.push(filled);
                    self.awaiting = false;
                    assert(self@.levels =~= old(self)@.entered(answer_view(listing)).levels);
                },
            }
        }
    }

    /// Says what to do next and counts it as done. A directory that was
    /// to be opened and got no listing is passed over as an empty one.
    pub fn advance(&mut self, exclude: &ExclusionSet) -> (step: Step)
        ensures
            final(self)@ == old(self)@.advanced(exclude@),
            step@ == old(self)@.step(exclude@),
    {
        self.awaiting = false;
        let mut settling = true;
        while settling
            invariant
                settled(level_views(self.levels@)) == settled(level_views(old(self).levels@)),
                !settling ==> self.levels.len() == 0 || self.levels@.last().next
                    < self.levels@.last().entries.len(),
                !self.awaiting,
            decreases self.levels.len() + (if settling { 1nat } else { 0nat }),
        {
            let depth = self.levels.len();
            if depth > 0 && self.levels[depth - 1].next >= self.levels[depth - 1].entries.len() {
                assert(level_views(self.levels@).drop_last() =~= level_views(
                    self.levels@.drop_last(),
                ));
                self.levels.pop();
            } else {
                settling = false;
            }
        }
        match self.levels.pop() {
            None => Step::Done,
            Some(level) => {
                let is_last = level.next + 1 == level.entries.len();
                let entry = &level.entries[level.next];
                let text = entry_line(
                    level.prefix.as_str(),
                    entry.name.as_str(),
                    entry.is_dir,
                    is_last,
                );
                if entry.is_dir && !exclude.contains(entry.name.as_str()) {
                    let path = path_with(&level.path, entry.name.as_str());
                    let below = Level {
                        entries: Vec::new(),
                        next: 0,
                        prefix: child_prefix(level.prefix.as_str(), is_last),
                        path: path_with(&level.path, entry.name.as_str()),
                    };
                    let shown = Level {
                        entries: level.entries,
                        next: level.next + 1,
                        prefix: level.prefix,
                        path: level.path,
                    };
                    self.levels.push(shown);
                    self.levels.push(below);
                    self.awaiting = true;
                    assert(self@.levels =~= old(self)@.advanced(exclude@).levels);
                    Step::Open { text, path }
                } else {
                    let shown = Level {
                        entries: level.entries,
                        next: level.next + 1,
                        prefix: level.prefix,
                        path: level.path,
                    };
                    self.levels.push(shown);
                    assert(self@.levels =~= old(self)@.advanced(exclude@).levels);
                    Step::Line { text }
                }
            },
        }
    }
}

} // verus!
