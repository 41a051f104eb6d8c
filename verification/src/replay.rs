//! A caller who reads the directories that a walk names prints the
//! lines of the tree that the directories form.

use vstd::prelude::*;
use crate::entry::{dirs_first, resolved, Classified, Entry, ReadError};
use crate::line::{descends, line_text};
use crate::tree::{
    lemma_line_count, lemma_shown_is_record, lines_from, lines_of_entry, lines_of_listing,
    shown_in_listing, shown_order, Listing, Tree,
};
use crate::walk::{settled, LevelView, StepView, WalkView};

verus! {

/// The entry that a read gives for `tree`: its name and its kind.
pub open spec fn entry_of(tree: Tree) -> Entry {
    match tree {
        Tree::File { name } => Entry { name, is_dir: false },
        Tree::Directory { name, .. } => Entry { name, is_dir: true },
    }
}

/// The records that a read gives for the records of a directory.
pub open spec fn records_read(records: Seq<Option<Tree>>) -> Seq<Option<Entry>> {
    records.map_values(
        |record: Option<Tree>|
            match record {
                Some(tree) => Some(entry_of(tree)),
                None => None,
            },
    )
}

/// What reading a directory with the given listing gives.
pub open spec fn answer_of(listing: Listing) -> Result<Seq<Option<Entry>>, ReadError> {
    match listing {
        Ok(records) => Ok(records_read(records@)),
        Err(e) => Err(e),
    }
}

/// The records of a listing; a failed read has none.
pub open spec fn records_of(listing: Listing) -> Seq<Option<Tree>> {
    match listing {
        Ok(records) => records@,
        Err(_) => Seq::empty(),
    }
}

/// Whether the record is a directory with the given name.
pub open spec fn is_directory_named(record: Option<Tree>, name: Seq<char>) -> bool {
    record matches Some(tree) && tree is Directory && tree.name_text() == name
}

/// The directory with the given name among the records, if there is one.
pub open spec fn directory_named(records: Seq<Option<Tree>>, name: Seq<char>) -> Option<Tree>
    decreases records.len(),
{
    if records.len() == 0 {
        None
    } else if is_directory_named(records.last(), name) {
        records.last()
    } else {
        directory_named(records.drop_last(), name)
    }
}

/// The listing of the directory that `path` leads to from the directory
/// with the listing `root`, name by name.
pub open spec fn listing_at(root: Listing, path: Seq<Seq<char>>) -> Option<Listing>
    decreases path.len(),
{
    if path.len() == 0 {
        Some(root)
    } else {
        match listing_at(root, path.drop_last()) {
            Some(Ok(records)) => match directory_named(records@, path.last()) {
                Some(Tree::Directory { listing, .. }) => Some(listing),
                _ => None,
            },
            _ => None,
        }
    }
}

/// What reading the directory at `path` gives.
pub open spec fn read_at(root: Listing, path: Seq<Seq<char>>) -> Result<
    Seq<Option<Entry>>,
    ReadError,
> {
    match listing_at(root, path) {
        Some(listing) => answer_of(listing),
        None => Err(ReadError::NotFound),
    }
}

/// No two directories among the records have the same name.
pub open spec fn distinct_directories(records: Seq<Option<Tree>>) -> bool {
    forall|i: int, j: int|
        0 <= i < j < records.len() && (#[trigger] records[i]) is Some && records[i]->0 is Directory
            && (#[trigger] records[j]) is Some && records[j]->0 is Directory
            ==> records[i]->0.name_text() != records[j]->0.name_text()
}

/// In no directory of the tree do two directories have the same name.
pub open spec fn well_named(listing: Listing) -> bool
    decreases listing,
{
    match listing {
        Err(_) => true,
        Ok(records) => {
            &&& distinct_directories(records@)
            &&& forall|i: int|
                0 <= i < records@.len() ==> (#[trigger] records@[i] matches Some(
                    Tree::Directory { listing: below, .. },
                ) ==> well_named(below))
        },
    }
}

/// The lines that are printed by a caller who advances `walk` up to
/// `fuel` times, prints the line of every step, and hands the walk after
/// every `Open` step what reading the directory at the path of the step
/// gives.
pub open spec fn walked_lines(
    walk: WalkView,
    root: Listing,
    exclude: Set<Seq<char>>,
    fuel: nat,
) -> Seq<Seq<char>>
    decreases fuel,
{
    if fuel == 0 {
        Seq::empty()
    } else {
        match walk.step(exclude) {
            StepView::Done => Seq::empty(),
            StepView::Line { text } => seq![text] + walked_lines(
                walk.advanced(exclude),
                root,
                exclude,
                (fuel - 1) as nat,
            ),
            StepView::Open { text, path } => seq![text] + walked_lines(
                walk.advanced(exclude).entered(read_at(root, path)),
                root,
                exclude,
                (fuel - 1) as nat,
            ),
        }
    }
}

/// The level holds the entries that a read of `records` gives, ordered.
#[verifier::opaque]
spec fn level_shows(level: LevelView, records: Seq<Option<Tree>>) -> bool {
    &&& level.entries == dirs_first(resolved(records_read(records)))
    &&& level.next <= level.entries.len()
}

/// The level shows the directory with the listing `listing`, and its
/// path leads there.
#[verifier::opaque]
spec fn level_follows(root: Listing, level: LevelView, listing: Listing) -> bool {
    &&& level_shows(level, records_of(listing))
    &&& listing_at(root, level.path) == Some(listing)
    &&& well_named(listing)
}

/// Level `d` follows `opened[d]`.
#[verifier::opaque]
spec fn follows(root: Listing, levels: Seq<LevelView>, opened: Seq<Listing>) -> bool {
    &&& opened.len() == levels.len()
    &&& forall|d: int|
        0 <= d < levels.len() ==> #[trigger] level_follows(root, levels[d], opened[d])
}

/// The lines of a level that are still to come.
#[verifier::opaque]
spec fn to_come(level: LevelView, records: Seq<Option<Tree>>, exclude: Set<Seq<char>>) -> Seq<
    Seq<char>,
> {
    lines_from(records, level.next, level.prefix, exclude)
}

/// The lines that are still to come: those of the innermost level, then
/// those of the level around it, and so on.
#[verifier::opaque]
spec fn remaining_lines(
    levels: Seq<LevelView>,
    opened: Seq<Listing>,
    exclude: Set<Seq<char>>,
) -> Seq<Seq<char>>
    decreases levels.len(),
{
    if levels.len() == 0 {
        Seq::empty()
    } else {
        to_come(levels.last(), records_of(opened[levels.len() - 1]), exclude) + remaining_lines(
            levels.drop_last(),
            opened,
            exclude,
        )
    }
}

proof fn lemma_resolved_of_read(records: Seq<Option<Tree>>)
    ensures
        resolved(records_read(records)).len() == resolved(records).len(),
        forall|i: int|
            0 <= i < resolved(records).len() ==> resolved(records_read(records))[i] == entry_of(
                #[trigger] resolved(records)[i],
            ),
    decreases records.len(),
{
    if records.len() > 0 {
        let init = records.drop_last();
        lemma_resolved_of_read(init);
        assert(records_read(records).drop_last() =~= records_read(init));
    }
}

proof fn lemma_filter_of_read(trees: Seq<Tree>, entries: Seq<Entry>, kind: bool)
    requires
        entries.len() == trees.len(),
        forall|i: int| 0 <= i < trees.len() ==> entries[i] == entry_of(#[trigger] trees[i]),
    ensures
        ({
            let kept = entries.filter(|e: Entry| e.is_directory() == kind);
            let from = trees.filter(|t: Tree| t.is_directory() == kind);
            &&& kept.len() == from.len()
            &&& forall|i: int| 0 <= i < from.len() ==> kept[i] == entry_of(#[trigger] from[i])
        }),
    decreases trees.len(),
{
    let of_entry = |e: Entry| e.is_directory() == kind;
    let of_tree = |t: Tree| t.is_directory() == kind;
    if trees.len() == 0 {
        reveal(Seq::filter);
    } else {
        lemma_filter_of_read(trees.drop_last(), entries.drop_last(), kind);
        assert(trees =~= trees.drop_last().push(trees.last()));
        assert(entries =~= entries.drop_last().push(entries.last()));
        trees.drop_last().lemma_filter_push(trees.last(), of_tree);
        entries.drop_last().lemma_filter_push(entries.last(), of_entry);
        assert(entries.last() == entry_of(trees.last()));
    }
}

/// A read of a directory gives, once ordered, the entries of the trees
/// of the directory in the order in which they are shown.
pub proof fn lemma_entries_of_read(records: Seq<Option<Tree>>)
    ensures
        dirs_first(resolved(records_read(records))).len() == shown_order(records).len(),
        forall|i: int|
            0 <= i < shown_order(records).len() ==> dirs_first(
                resolved(records_read(records)),
            )[i] == entry_of(#[trigger] shown_order(records)[i]),
{
    let trees = resolved(records);
    let entries = resolved(records_read(records));
    lemma_resolved_of_read(records);
    lemma_filter_of_read(trees, entries, true);
    lemma_filter_of_read(trees, entries, false);
    assert(entries.filter(|e: Entry| e.is_directory()) =~= entries.filter(
        |e: Entry| e.is_directory() == true,
    )) by {
        assert((|e: Entry| e.is_directory()) =~= (|e: Entry| e.is_directory() == true));
    }
    assert(entries.filter(|e: Entry| !e.is_directory()) =~= entries.filter(
        |e: Entry| e.is_directory() == false,
    )) by {
        assert((|e: Entry| !e.is_directory()) =~= (|e: Entry| e.is_directory() == false));
    }
    assert(trees.filter(|t: Tree| t.is_directory()) =~= trees.filter(
        |t: Tree| t.is_directory() == true,
    )) by {
        assert((|t: Tree| t.is_directory()) =~= (|t: Tree| t.is_directory() == true));
    }
    assert(trees.filter(|t: Tree| !t.is_directory()) =~= trees.filter(
        |t: Tree| t.is_directory() == false,
    )) by {
        assert((|t: Tree| !t.is_directory()) =~= (|t: Tree| t.is_directory() == false));
    }
}

proof fn lemma_shown_of_nothing()
    ensures
        shown_order(Seq::<Option<Tree>>::empty()) == Seq::<Tree>::empty(),
        dirs_first(resolved(records_read(Seq::<Option<Tree>>::empty()))) == Seq::<Entry>::empty(),
{
    reveal(Seq::filter);
    assert(resolved(Seq::<Option<Tree>>::empty()) =~= Seq::<Tree>::empty());
    assert(shown_order(Seq::<Option<Tree>>::empty()) =~= Seq::<Tree>::empty());
    assert(records_read(Seq::<Option<Tree>>::empty()) =~= Seq::<Option<Entry>>::empty());
    assert(resolved(Seq::<Option<Entry>>::empty()) =~= Seq::<Entry>::empty());
    assert(dirs_first(Seq::<Entry>::empty()) =~= Seq::<Entry>::empty());
}

/// Where the directories have distinct names, the name of a directory
/// finds the directory.
proof fn lemma_directory_named(records: Seq<Option<Tree>>, i: int)
    requires
        distinct_directories(records),
        0 <= i < records.len(),
        records[i] is Some,
        records[i]->0 is Directory,
    ensures
        directory_named(records, records[i]->0.name_text()) == records[i],
    decreases records.len(),
{
    let name = records[i]->0.name_text();
    let last = records.len() - 1;
    if is_directory_named(records.last(), name) {
        if i < last {
            assert(records[i]->0.name_text() != records[last]->0.name_text());
        }
    } else {
        let init = records.drop_last();
        assert(distinct_directories(init)) by {
            assert forall|a: int, b: int|
                0 <= a < b < init.len() && (#[trigger] init[a]) is Some && init[a]->0 is Directory
                    && (#[trigger] init[b]) is Some
                    && init[b]->0 is Directory implies init[a]->0.name_text()
                != init[b]->0.name_text() by {
                assert(init[a] == records[a] && init[b] == records[b]);
            }
        }
        assert(init[i] == records[i]);
        lemma_directory_named(init, i);
    }
}

/// A level that a read of a listing has filled shows the records of
/// the listing, and what is to come of it are the lines of the listing.
proof fn lemma_filled_level(listing: Listing, waiting: LevelView, exclude: Set<Seq<char>>)
    ensures
        level_shows(waiting.filled(answer_of(listing)), records_of(listing)),
        to_come(waiting.filled(answer_of(listing)), records_of(listing), exclude)
            == lines_of_listing(listing, waiting.prefix, exclude),
{
    reveal(level_shows);
    reveal(to_come);
    if listing is Err {
        lemma_shown_of_nothing();
    }
}

/// A level whose next entry has nothing below it that is shown: the
/// line of the entry is the first of the lines to come.
proof fn lemma_level_line(level: LevelView, records: Seq<Option<Tree>>, exclude: Set<Seq<char>>)
    requires
        level_shows(level, records),
        level.next < level.entries.len(),
        !descends(level.entry().name@, level.entry().is_dir, exclude),
    ensures
        level_shows(level.stepped(), records),
        to_come(level, records, exclude) == seq![
            line_text(level.prefix, level.entry().name@, level.entry().is_dir, level.at_last()),
        ] + to_come(level.stepped(), records, exclude),
{
    reveal(level_shows);
    reveal(to_come);
    lemma_entries_of_read(records);
    let tree = shown_order(records)[level.next as int];
    assert(level.entry() == entry_of(tree));
    assert(lines_of_entry(tree, level.at_last(), level.prefix, exclude) =~= seq![
        line_text(level.prefix, tree.name_text(), tree.is_directory(), level.at_last()),
    ]);
}

/// The directory that the next entry of the level is.
spec fn next_directory(level: LevelView, records: Seq<Option<Tree>>) -> Tree {
    shown_order(records)[level.next as int]
}

/// A level whose next entry is a directory that is opened: the line of
/// the entry comes first, then the lines of the directory, then the
/// other lines of the level.
proof fn lemma_level_opens(level: LevelView, records: Seq<Option<Tree>>, exclude: Set<Seq<char>>)
    requires
        level_shows(level, records),
        level.next < level.entries.len(),
        descends(level.entry().name@, level.entry().is_dir, exclude),
    ensures
        level_shows(level.stepped(), records),
        records.contains(Some(next_directory(level, records))),
        next_directory(level, records) matches Tree::Directory { name, listing } && ({
            let inner = level.below().filled(answer_of(listing));
            &&& name@ == level.entry().name@
            &&& level_shows(inner, records_of(listing))
            &&& to_come(level, records, exclude) == seq![
                line_text(level.prefix, level.entry().name@, level.entry().is_dir, level.at_last()),
            ] + to_come(inner, records_of(listing), exclude) + to_come(
                level.stepped(),
                records,
                exclude,
            )
        }),
{
    lemma_entries_of_read(records);
    let tree = next_directory(level, records);
    assert(level.entry() == entry_of(tree) && level.entries.len() == shown_order(records).len())
        by {
        reveal(level_shows);
    }
    lemma_shown_is_record(records, level.next as int);
    match tree {
        Tree::Directory { name, listing } => {
            lemma_filled_level(listing, level.below(), exclude);
            assert(lines_of_entry(tree, level.at_last(), level.prefix, exclude) =~= seq![
                line_text(level.prefix, name@, true, level.at_last()),
            ] + lines_of_listing(listing, level.below().prefix, exclude));
            reveal(level_shows);
            reveal(to_come);
        },
        Tree::File { .. } => {},
    }
}

/// The path of the level below a directory leads to the listing of the
/// directory, and reading there gives what the listing holds.
proof fn lemma_path_below(root: Listing, level: LevelView, listing: Listing, tree: Tree)
    requires
        listing_at(root, level.path) == Some(listing),
        well_named(listing),
        records_of(listing).contains(Some(tree)),
        tree is Directory,
        tree.name_text() == level.entry().name@,
    ensures
        tree matches Tree::Directory { listing: below, .. } && ({
            &&& listing_at(root, level.below().path) == Some(below)
            &&& read_at(root, level.below().path) == answer_of(below)
            &&& well_named(below)
        }),
{
    let records = records_of(listing);
    let i = choose|i: int| 0 <= i < records.len() && records[i] == Some(tree);
    lemma_directory_named(records, i);
    let path = level.below().path;
    assert(path.drop_last() =~= level.path);
    assert(path.last() == tree.name_text());
}

proof fn lemma_follows_take(root: Listing, levels: Seq<LevelView>, opened: Seq<Listing>, n: int)
    requires
        follows(root, levels, opened),
        0 <= n <= levels.len(),
    ensures
        opened.len() == levels.len(),
        follows(root, levels.take(n), opened.take(n)),
        n > 0 ==> level_follows(root, levels[n - 1], opened[n - 1]),
{
    reveal(follows);
    assert forall|d: int| 0 <= d < n implies #[trigger] level_follows(
        root,
        levels.take(n)[d],
        opened.take(n)[d],
    ) by {
        assert(level_follows(root, levels[d], opened[d]));
    }
    if n > 0 {
        assert(level_follows(root, levels[n - 1], opened[n - 1]));
    }
}

proof fn lemma_follows_push(
    root: Listing,
    levels: Seq<LevelView>,
    opened: Seq<Listing>,
    level: LevelView,
    listing: Listing,
)
    requires
        follows(root, levels, opened),
        level_follows(root, level, listing),
    ensures
        follows(root, levels.push(level), opened.push(listing)),
{
    reveal(follows);
    assert forall|d: int| 0 <= d < levels.len() + 1 implies #[trigger] level_follows(
        root,
        levels.push(level)[d],
        opened.push(listing)[d],
    ) by {
        if d < levels.len() {
            assert(level_follows(root, levels[d], opened[d]));
        }
    }
}

proof fn lemma_remaining_agree(
    levels: Seq<LevelView>,
    a: Seq<Listing>,
    b: Seq<Listing>,
    exclude: Set<Seq<char>>,
)
    requires
        forall|d: int| 0 <= d < levels.len() ==> a[d] == b[d],
    ensures
        remaining_lines(levels, a, exclude) == remaining_lines(levels, b, exclude),
    decreases levels.len(),
{
    reveal(remaining_lines);
    if levels.len() > 0 {
        lemma_remaining_agree(levels.drop_last(), a, b, exclude);
    }
}

proof fn lemma_remaining_push(
    levels: Seq<LevelView>,
    opened: Seq<Listing>,
    level: LevelView,
    listing: Listing,
    exclude: Set<Seq<char>>,
)
    requires
        opened.len() == levels.len(),
    ensures
        remaining_lines(levels.push(level), opened.push(listing), exclude) == to_come(
            level,
            records_of(listing),
            exclude,
        ) + remaining_lines(levels, opened, exclude),
{
    reveal(remaining_lines);
    assert(levels.push(level).drop_last() =~= levels);
    assert(levels.push(level).last() == level);
    lemma_remaining_agree(levels, opened.push(listing), opened, exclude);
}

/// Dropping the finished innermost levels changes nothing of what is
/// still to come.
proof fn lemma_settled(
    root: Listing,
    levels: Seq<LevelView>,
    opened: Seq<Listing>,
    exclude: Set<Seq<char>>,
)
    requires
        follows(root, levels, opened),
    ensures
        settled(levels).len() <= levels.len(),
        settled(levels) == levels.take(settled(levels).len() as int),
        settled(levels).len() > 0 ==> settled(levels).last().next < settled(
            levels,
        ).last().entries.len(),
        remaining_lines(
            settled(levels),
            opened.take(settled(levels).len() as int),
            exclude,
        ) == remaining_lines(levels, opened, exclude),
    decreases levels.len(),
{
    lemma_follows_take(root, levels, opened, levels.len() as int);
    if levels.len() > 0 && levels.last().next >= levels.last().entries.len() {
        let d = levels.len() - 1;
        let inner = levels.drop_last();
        let n = settled(inner).len() as int;
        lemma_follows_take(root, levels, opened, d);
        assert(levels.take(d) =~= inner);
        lemma_settled(root, inner, opened.take(d), exclude);
        assert(settled(levels) == settled(inner));
        assert(inner.take(n) =~= levels.take(n));
        assert(opened.take(d).take(n) =~= opened.take(n));
        assert(to_come(levels.last(), records_of(opened[d]), exclude) =~= Seq::<
            Seq<char>,
        >::empty()) by {
            reveal(level_follows);
            reveal(level_shows);
            reveal(to_come);
            lemma_entries_of_read(records_of(opened[d]));
        }
        assert(inner.push(levels.last()) =~= levels);
        assert(opened.take(d).push(opened[d]) =~= opened);
        lemma_remaining_push(inner, opened.take(d), levels.last(), opened[d], exclude);
    } else {
        assert(levels.take(levels.len() as int) =~= levels);
        assert(opened.take(levels.len() as int) =~= opened);
    }
}

/// The state in which the walk is advanced next: the state after the
/// step and, where the step opened a directory, after the answer.
spec fn next_walk(walk: WalkView, root: Listing, exclude: Set<Seq<char>>) -> WalkView {
    match walk.step(exclude) {
        StepView::Open { path, .. } => walk.advanced(exclude).entered(read_at(root, path)),
        _ => walk.advanced(exclude),
    }
}

/// The listings of the directories that the levels of `next_walk` show.
spec fn next_opened(
    walk: WalkView,
    root: Listing,
    opened: Seq<Listing>,
    exclude: Set<Seq<char>>,
) -> Seq<Listing> {
    let depth = settled(walk.levels).len() as int;
    match walk.step(exclude) {
        StepView::Open { path, .. } => opened.take(depth).push(listing_at(root, path)->0),
        _ => opened.take(depth),
    }
}

/// The text that a step carries.
spec fn step_text(step: StepView) -> Seq<Seq<char>> {
    match step {
        StepView::Done => Seq::empty(),
        StepView::Line { text } => seq![text],
        StepView::Open { text, .. } => seq![text],
    }
}

/// One step prints the first of the lines that are still to come and
/// leaves the others to come.
proof fn lemma_step(walk: WalkView, root: Listing, opened: Seq<Listing>, exclude: Set<Seq<char>>)
    requires
        !walk.awaiting,
        follows(root, walk.levels, opened),
    ensures
        walk.step(exclude) is Done ==> remaining_lines(walk.levels, opened, exclude).len() == 0,
        !(walk.step(exclude) is Done) ==> {
            &&& !next_walk(walk, root, exclude).awaiting
            &&& follows(
                root,
                next_walk(walk, root, exclude).levels,
                next_opened(walk, root, opened, exclude),
            )
            &&& remaining_lines(walk.levels, opened, exclude) == step_text(walk.step(exclude))
                + remaining_lines(
                next_walk(walk, root, exclude).levels,
                next_opened(walk, root, opened, exclude),
                exclude,
            )
        },
{
    let levels = settled(walk.levels);
    let n = levels.len() as int;
    lemma_settled(root, walk.levels, opened, exclude);
    if n == 0 {
        assert(remaining_lines(levels, opened.take(n), exclude).len() == 0) by {
            reveal(remaining_lines);
        }
    } else {
        let d = n - 1;
        let level = levels.last();
        let outer = levels.drop_last();
        let around = opened.take(d);
        let here = opened[d];
        let records = records_of(here);
        lemma_follows_take(root, walk.levels, opened, n);
        lemma_follows_take(root, walk.levels, opened, d);
        assert(level == walk.levels[d]);
        assert(outer =~= walk.levels.take(d));
        assert(outer.push(level) =~= levels);
        assert(around.push(here) =~= opened.take(n));
        assert(level_shows(level, records) && listing_at(root, level.path) == Some(here)
            && well_named(here)) by {
            reveal(level_follows);
        }
        lemma_remaining_push(outer, around, level, here, exclude);
        lemma_remaining_push(outer, around, level.stepped(), here, exclude);
        let shown = outer.push(level.stepped());
        let after = walk.advanced(exclude);
        if descends(level.entry().name@, level.entry().is_dir, exclude) {
            lemma_level_opens(level, records, exclude);
            let tree = next_directory(level, records);
            lemma_path_below(root, level, here, tree);
            let below = tree->listing;
            let inner = level.below().filled(answer_of(below));
            assert(level_follows(root, level.stepped(), here) && level_follows(root, inner, below))
                by {
                reveal(level_follows);
            }
            lemma_follows_push(root, outer, around, level.stepped(), here);
            assert(after.levels == shown.push(level.below()));
            assert(after.levels.last() == level.below());
            assert(after.levels.drop_last() =~= shown);
            assert(walk.step(exclude)->Open_path == level.below().path);
            assert(next_walk(walk, root, exclude).levels == shown.push(inner));
            assert(next_opened(walk, root, opened, exclude) == opened.take(n).push(below));
            lemma_follows_push(root, shown, opened.take(n), inner, below);
            lemma_remaining_push(shown, opened.take(n), inner, below, exclude);
            assert(remaining_lines(walk.levels, opened, exclude) =~= step_text(walk.step(exclude))
                + remaining_lines(shown.push(inner), opened.take(n).push(below), exclude));
        } else {
            lemma_level_line(level, records, exclude);
            assert(level_follows(root, level.stepped(), here)) by {
                reveal(level_follows);
            }
            lemma_follows_push(root, outer, around, level.stepped(), here);
            assert(after.levels == shown);
            assert(next_walk(walk, root, exclude).levels == shown);
            assert(next_opened(walk, root, opened, exclude) == opened.take(n));
            assert(remaining_lines(walk.levels, opened, exclude) =~= step_text(walk.step(exclude))
                + remaining_lines(shown, opened.take(n), exclude));
        }
    }
}

proof fn lemma_walk_from(
    walk: WalkView,
    root: Listing,
    opened: Seq<Listing>,
    exclude: Set<Seq<char>>,
    fuel: nat,
)
    requires
        !walk.awaiting,
        follows(root, walk.levels, opened),
        fuel > remaining_lines(walk.levels, opened, exclude).len(),
    ensures
        walked_lines(walk, root, exclude, fuel) == remaining_lines(walk.levels, opened, exclude),
    decreases fuel,
{
    lemma_step(walk, root, opened, exclude);
    if !(walk.step(exclude) is Done) {
        lemma_walk_from(
            next_walk(walk, root, exclude),
            root,
            next_opened(walk, root, opened, exclude),
            exclude,
            (fuel - 1) as nat,
        );
    }
}

/// A caller who starts a walk with `prefix`, hands it what reading the
/// root gives, advances it until it is done, prints the line of every
/// step and hands the walk after every `Open` step what reading the
/// directory at the path of the step gives, prints the lines of the
/// tree, no more and no fewer: the lines that `print_tree` returns for
/// it. One step more than there are entries to show is enough. A file
/// system gives no two directories in one directory the same name; the
/// law asks the same of the tree.
pub proof fn lemma_walk_prints_tree(
    root: Listing,
    prefix: Seq<char>,
    exclude: Set<Seq<char>>,
    fuel: nat,
)
    requires
        well_named(root),
        fuel > shown_in_listing(root, exclude),
    ensures
        walked_lines(
            WalkView::start(prefix).entered(read_at(root, Seq::empty())),
            root,
            exclude,
            fuel,
        ) == lines_of_listing(root, prefix, exclude),
{
    let waiting = LevelView { entries: Seq::empty(), next: 0, prefix, path: Seq::empty() };
    let first = waiting.filled(answer_of(root));
    let walk = WalkView::start(prefix).entered(read_at(root, Seq::empty()));
    let nothing = Seq::<LevelView>::empty();
    let closed = Seq::<Listing>::empty();
    lemma_line_count(root, prefix, exclude);
    lemma_filled_level(root, waiting, exclude);
    assert(WalkView::start(prefix).levels.last() == waiting);
    assert(walk.levels =~= nothing.push(first));
    assert(level_follows(root, first, root)) by {
        reveal(level_follows);
    }
    assert(follows(root, nothing, closed)) by {
        reveal(follows);
    }
    assert(remaining_lines(nothing, closed, exclude) =~= Seq::<Seq<char>>::empty()) by {
        reveal(remaining_lines);
    }
    lemma_follows_push(root, nothing, closed, first, root);
    lemma_remaining_push(nothing, closed, first, root, exclude);
    lemma_walk_from(walk, root, closed.push(root), exclude, fuel);
}

} // verus!
