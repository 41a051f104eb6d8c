//! A directory tree held in memory and the lines that show it.

use vstd::prelude::*;
use crate::entry::{dirs_first, resolved, sort_entities, Classified, ReadError};
use crate::exclude::ExclusionSet;
use crate::line::{child_prefix, child_prefix_text, connector, entry_line, line_text};
use crate::style::{display_text, is_hidden, painted, styled_name, Tone};

verus! {

/// What reading a directory gave: a failure, or one record for each child
/// in the order of enumeration, `None` where the child did not resolve.
pub type Listing = Result<Vec<Option<Tree>>, ReadError>;

/// A child of a directory together with everything below it.
#[derive(Debug, PartialEq, Eq)]
pub enum Tree {
    File { name: String },
    Directory { name: String, listing: Listing },
}

impl Tree {
    /// The name of the entry.
    pub open spec fn name_text(self) -> Seq<char> {
        match self {
            Tree::File { name } => name@,
            Tree::Directory { name, .. } => name@,
        }
    }
}

impl Classified for Tree {
    open spec fn is_directory(&self) -> bool {
        self is Directory
    }

    fn is_dir(&self) -> (b: bool) {
        match self {
            Tree::File { .. } => false,
            Tree::Directory { .. } => true,
        }
    }
}

/// The entries of a listing in the order in which they are shown.
pub open spec fn shown_order(records: Seq<Option<Tree>>) -> Seq<Tree> {
    dirs_first(resolved(records))
}

/// Every entry of `shown_order` is one of the records.
pub proof fn lemma_shown_is_record(records: Seq<Option<Tree>>, k: int)
    requires
        0 <= k < shown_order(records).len(),
    ensures
        records.contains(Some(shown_order(records)[k])),
        decreases_to!(records => shown_order(records)[k]),
{
    let all = resolved(records);
    let entry = shown_order(records)[k];
    let dirs = all.filter(|e: Tree| e.is_directory());
    if k < dirs.len() {
        all.lemma_filter_contains_rev(|e: Tree| e.is_directory(), entry);
    } else {
        all.lemma_filter_contains_rev(|e: Tree| !e.is_directory(), entry);
    }
    records.lemma_filter_map_contains(|r: Option<Tree>| r, entry);
    let j = choose|j: int| 0 <= j < records.len() && records[j] == Some(entry);
    assert(decreases_to!(records[j] => records[j]->0));
}

/// The lines of one entry: its own line, then, if it is a directory that
/// is not excluded, the lines of its listing one level deeper.
pub open spec fn lines_of_entry(
    entry: Tree,
    is_last: bool,
    prefix: Seq<char>,
    exclude: Set<Seq<char>>,
) -> Seq<Seq<char>>
    decreases entry, 0nat,
{
    let own = seq![line_text(prefix, entry.name_text(), entry.is_directory(), is_last)];
    match entry {
        Tree::File { .. } => own,
        Tree::Directory { name, listing } => if exclude.contains(name@) {
            own
        } else {
            own + lines_of_listing(listing, child_prefix_text(prefix, is_last), exclude)
        },
    }
}

/// The lines of a listing: none if the directory could not be read,
/// else the lines of its entries in the order in which they are shown.
pub open spec fn lines_of_listing(
    listing: Listing,
    prefix: Seq<char>,
    exclude: Set<Seq<char>>,
) -> Seq<Seq<char>>
    decreases listing, 0nat,
{
    match listing {
        Err(_) => Seq::empty(),
        Ok(records) => lines_from(records@, 0, prefix, exclude),
    }
}

/// The lines of the entries of `records` from position `from` of the
/// shown order on. The entry at the last position is the last sibling.
pub open spec fn lines_from(
    records: Seq<Option<Tree>>,
    from: nat,
    prefix: Seq<char>,
    exclude: Set<Seq<char>>,
) -> Seq<Seq<char>>
    decreases records, shown_order(records).len() - from,
{
    let entries = shown_order(records);
    if from >= entries.len() {
        Seq::empty()
    } else {
        proof {
            lemma_shown_is_record(records, from as int);
        }
        lines_of_entry(entries[from as int], from + 1 == entries.len(), prefix, exclude)
            + lines_from(records, from + 1, prefix, exclude)
    }
}

/// How many entries are shown for `entry`: itself and, if it is a
/// directory that is not excluded, the entries shown for its listing.
pub open spec fn shown_entries(entry: Tree, exclude: Set<Seq<char>>) -> nat
    decreases entry, 0nat,
{
    match entry {
        Tree::File { .. } => 1,
        Tree::Directory { name, listing } => if exclude.contains(name@) {
            1
        } else {
            1 + shown_in_listing(listing, exclude)
        },
    }
}

/// How many entries can be reached from a listing without going below
/// an excluded directory or an unreadable one.
pub open spec fn shown_in_listing(listing: Listing, exclude: Set<Seq<char>>) -> nat
    decreases listing, 0nat,
{
    match listing {
        Err(_) => 0,
        Ok(records) => shown_in_records(records@, exclude),
    }
}

/// The sum of `shown_entries` over the records that resolved, taken in
/// the order of enumeration.
pub open spec fn shown_in_records(records: Seq<Option<Tree>>, exclude: Set<Seq<char>>) -> nat
    decreases records, records.len(),
{
    if records.len() == 0 {
        0
    } else {
        shown_in_records(records.drop_last(), exclude) + match records.last() {
            Some(entry) => shown_entries(entry, exclude),
            None => 0,
        }
    }
}

/// The sum of `shown_entries` over `entries`.
pub open spec fn shown_total(entries: Seq<Tree>, exclude: Set<Seq<char>>) -> nat
    decreases entries.len(),
{
    if entries.len() == 0 {
        0
    } else {
        shown_total(entries.drop_last(), exclude) + shown_entries(entries.last(), exclude)
    }
}

proof fn lemma_total_of_concat(a: Seq<Tree>, b: Seq<Tree>, exclude: Set<Seq<char>>)
    ensures
        shown_total(a + b, exclude) == shown_total(a, exclude) + shown_total(b, exclude),
    decreases b.len(),
{
    if b.len() > 0 {
        lemma_total_of_concat(a, b.drop_last(), exclude);
        assert((a + b).drop_last() =~= a + b.drop_last());
    }
}

proof fn lemma_total_of_resolved(records: Seq<Option<Tree>>, exclude: Set<Seq<char>>)
    ensures
        shown_total(resolved(records), exclude) == shown_in_records(records, exclude),
    decreases records.len(),
{
    if records.len() > 0 {
        let init = records.drop_last();
        lemma_total_of_resolved(init, exclude);
        if records.last() is Some {
            assert(resolved(records).drop_last() =~= resolved(init));
        }
    }
}

proof fn lemma_total_of_shown_order(records: Seq<Option<Tree>>, exclude: Set<Seq<char>>)
    ensures
        shown_total(shown_order(records), exclude) == shown_in_records(records, exclude),
{
    lemma_total_of_resolved(records, exclude);
    lemma_total_of_dirs_first(resolved(records), exclude);
}

proof fn lemma_total_of_dirs_first(entries: Seq<Tree>, exclude: Set<Seq<char>>)
    ensures
        shown_total(dirs_first(entries), exclude) == shown_total(entries, exclude),
    decreases entries.len(),
{
    let is_dir = |e: Tree| e.is_directory();
    let is_file = |e: Tree| !e.is_directory();
    lemma_total_of_concat(entries.filter(is_dir), entries.filter(is_file), exclude);
    if entries.len() > 0 {
        let init = entries.drop_last();
        let last = entries.last();
        lemma_total_of_dirs_first(init, exclude);
        lemma_total_of_concat(init.filter(is_dir), init.filter(is_file), exclude);
        assert(entries =~= init.push(last));
        init.lemma_filter_push(last, is_dir);
        init.lemma_filter_push(last, is_file);
        if last.is_directory() {
            assert(init.filter(is_dir).push(last).drop_last() =~= init.filter(is_dir));
        } else {
            assert(init.filter(is_file).push(last).drop_last() =~= init.filter(is_file));
        }
    }
}

/// An entry has as many lines as entries are shown for it.
pub proof fn lemma_entry_line_count(
    entry: Tree,
    is_last: bool,
    prefix: Seq<char>,
    exclude: Set<Seq<char>>,
)
    ensures
        lines_of_entry(entry, is_last, prefix, exclude).len() == shown_entries(entry, exclude),
    decreases entry, 0nat,
{
    match entry {
        Tree::File { .. } => {},
        Tree::Directory { name, listing } => {
            if !exclude.contains(name@) {
                lemma_line_count(listing, child_prefix_text(prefix, is_last), exclude);
            }
        },
    }
}

/// As many lines are printed for a listing as entries can be reached from
/// it without going below an excluded directory.
pub proof fn lemma_line_count(listing: Listing, prefix: Seq<char>, exclude: Set<Seq<char>>)
    ensures
        lines_of_listing(listing, prefix, exclude).len() == shown_in_listing(listing, exclude),
    decreases listing, 0nat,
{
    match listing {
        Err(_) => {},
        Ok(records) => {
            lemma_line_count_from(records@, 0, prefix, exclude);
            assert(shown_order(records@).skip(0) =~= shown_order(records@));
            lemma_total_of_shown_order(records@, exclude);
        },
    }
}

proof fn lemma_line_count_from(
    records: Seq<Option<Tree>>,
    from: nat,
    prefix: Seq<char>,
    exclude: Set<Seq<char>>,
)
    requires
        from <= shown_order(records).len(),
    ensures
        lines_from(records, from, prefix, exclude).len() == shown_total(
            shown_order(records).skip(from as int),
            exclude,
        ),
    decreases records, shown_order(records).len() - from,
{
    let entries = shown_order(records);
    if from < entries.len() {
        let entry = entries[from as int];
        lemma_shown_is_record(records, from as int);
        lemma_entry_line_count(entry, from + 1 == entries.len(), prefix, exclude);
        lemma_line_count_from(records, from + 1, prefix, exclude);
        lemma_total_of_concat(seq![entry], entries.skip((from + 1) as int), exclude);
        assert(entries.skip(from as int) =~= seq![entry] + entries.skip((from + 1) as int));
        assert(shown_total(seq![entry], exclude) == shown_entries(entry, exclude)) by {
            assert(seq![entry].drop_last() =~= Seq::<Tree>::empty());
            assert(shown_total(Seq::<Tree>::empty(), exclude) == 0);
        }
    }
}

/// Where the lines of the sibling at position `k` stand and how they
/// begin: they follow the lines of the siblings before it, and their first
/// line is the prefix, the corner if the sibling is the last one and the
/// tee if it is not, a blank, and the styled name. This holds for every
/// prefix, so for the listing of every directory at every depth.
pub proof fn lemma_sibling_lines(
    records: Seq<Option<Tree>>,
    k: nat,
    prefix: Seq<char>,
    exclude: Set<Seq<char>>,
)
    requires
        k < shown_order(records).len(),
    ensures
        ({
            let all = lines_from(records, 0, prefix, exclude);
            let rest = lines_from(records, k, prefix, exclude);
            let entry = shown_order(records)[k as int];
            let is_last = k + 1 == shown_order(records).len();
            let block = lines_of_entry(entry, is_last, prefix, exclude);
            &&& 1 <= block.len() <= rest.len() <= all.len()
            &&& all.skip(all.len() - rest.len()) == rest
            &&& rest.take(block.len() as int) == block
            &&& block[0] == prefix + (if is_last {
                "└── "@
            } else {
                "├── "@
            }) + " "@ + styled_name(entry.name_text(), entry.is_directory())
        }),
    decreases k,
{
    if k > 0 {
        let j = (k - 1) as nat;
        lemma_sibling_lines(records, j, prefix, exclude);
        let before = lines_from(records, j, prefix, exclude);
        let head = lines_of_entry(shown_order(records)[j as int], false, prefix, exclude);
        assert(before.skip(head.len() as int) =~= lines_from(records, k, prefix, exclude));
    }
}

/// Below the line of a directory that is not excluded stand the lines of
/// its listing, with the prefix grown by four blanks if the directory is
/// the last of its siblings and by a bar and three blanks if it is not.
pub proof fn lemma_directory_lines(
    name: String,
    listing: Listing,
    is_last: bool,
    prefix: Seq<char>,
    exclude: Set<Seq<char>>,
)
    requires
        !exclude.contains(name@),
    ensures
        ({
            let block = lines_of_entry(Tree::Directory { name, listing }, is_last, prefix, exclude);
            &&& block.len() >= 1
            &&& block.skip(1) == lines_of_listing(
                listing,
                prefix + (if is_last {
                    "    "@
                } else {
                    "│   "@
                }),
                exclude,
            )
        }),
{
}

/// A directory whose name is excluded has its own line and no other,
/// whatever it holds.
pub proof fn lemma_excluded_directory_lines(
    name: String,
    listing: Listing,
    is_last: bool,
    prefix: Seq<char>,
    exclude: Set<Seq<char>>,
)
    requires
        exclude.contains(name@),
    ensures
        lines_of_entry(Tree::Directory { name, listing }, is_last, prefix, exclude) == seq![
            line_text(prefix, name@, true, is_last),
        ],
        shown_entries(Tree::Directory { name, listing }, exclude) == 1,
{
}

/// The line of a hidden entry carries the muted name, whether the entry
/// is a file or a directory and whatever is excluded.
pub proof fn lemma_hidden_entry_line(
    entry: Tree,
    is_last: bool,
    prefix: Seq<char>,
    exclude: Set<Seq<char>>,
)
    requires
        is_hidden(entry.name_text()),
    ensures
        lines_of_entry(entry, is_last, prefix, exclude)[0] == prefix + connector(is_last) + " "@
            + painted(display_text(entry.name_text(), entry.is_directory()), Tone::Muted),
{
}

/// The lines that show `listing`, from top to bottom. Every line starts
/// with `prefix`. An unreadable directory has no lines.
pub fn print_tree(listing: Listing, prefix: &str, exclude: &ExclusionSet) -> (lines: Vec<String>)
    ensures
        lines.deep_view() == lines_of_listing(listing, prefix@, exclude@),
    decreases listing,
{
    let ghost records = listing->Ok_0@;
    let mut lines: Vec<String> = Vec::new();
    match sort_entities(listing) {
        Err(_) => lines,
        Ok(entries) => {
            let ghost shown = entries@;
            let total = entries.len();
            let mut position: usize = 0;
            for entry in it: entries
                invariant
                    it.seq() == shown,
                    shown == shown_order(records),
                    total == shown.len(),
                    position == it.index(),
                    decreases_to!(listing => records),
                    lines.deep_view() + lines_from(records, position as nat, prefix@, exclude@)
                        == lines_from(records, 0, prefix@, exclude@),
            {
                let is_last = position + 1 == total;
                let ghost before = lines.deep_view();
                proof {
                    lemma_shown_is_record(records, position as int);
                }
                match entry {
                    Tree::File { name } => {
                        lines.push(entry_line(prefix, name.as_str(), false, is_last));
                    },
                    Tree::Directory { name, listing: below } => {
                        lines.push(entry_line(prefix, name.as_str(), true, is_last));
                        if !exclude.contains(name.as_str()) {
                            let deeper = child_prefix(prefix, is_last);
                            let mut sub = print_tree(below, deeper.as_str(), exclude);
                            lines.append(&mut sub);
                        }
                    },
                }
                assert(lines.deep_view() =~= before + lines_of_entry(
                    entry,
                    is_last,
                    prefix@,
                    exclude@,
                ));
                position += 1;
            }
            lines
        },
    }
}

} // verus!
