//! Directory entries and their directories-first ordering.

use vstd::prelude::*;
use vstd::multiset::Multiset;
use vstd::seq_lib::{lemma_multiset_commutative, to_multiset_build};

verus! {

/// Why a directory could not be listed.
#[derive(Clone, Copy, Debug, PartialEq, Eq, Structural)]
pub enum ReadError {
    /// Nothing exists at the path.
    NotFound,
    /// The caller may not read the directory.
    PermissionDenied,
    /// The path names something that is not a directory.
    NotADirectory,
    /// Any other failure of the read.
    Other,
}

/// One child of a directory, as far as ordering is concerned.
pub trait Classified {
    /// Whether the child is a directory.
    spec fn is_directory(&self) -> bool;

    fn is_dir(&self) -> (b: bool)
        ensures
            b == self.is_directory(),
    ;
}

/// A child of a directory: its display name and whether it is a directory.
#[derive(Clone, Debug, PartialEq, Eq)]
pub struct Entry {
    pub name: String,
    pub is_dir: bool,
}

impl Classified for Entry {
    open spec fn is_directory(&self) -> bool {
        self.is_dir
    }

    fn is_dir(&self) -> (b: bool) {
        self.is_dir
    }
}

/// The records that resolved, in enumeration order.
pub open spec fn resolved<T>(records: Seq<Option<T>>) -> Seq<T> {
    records.filter_map(|r: Option<T>| r)
}

/// The directories of `entries`, in the order in which they occur.
pub open spec fn directories<T: Classified>(entries: Seq<T>) -> Seq<T> {
    entries.filter(|e: T| e.is_directory())
}

/// The entries of `entries` that are not directories, in the order in which they occur.
pub open spec fn files<T: Classified>(entries: Seq<T>) -> Seq<T> {
    entries.filter(|e: T| !e.is_directory())
}

/// Every directory of `entries`, then every other entry, each group in the order of `entries`.
pub open spec fn dirs_first<T: Classified>(entries: Seq<T>) -> Seq<T> {
    directories(entries) + files(entries)
}

/// Orders what reading a directory gave: the records that resolved, directories first.
/// A failed read is handed on; a record that did not resolve is left out.
pub fn sort_entities<T: Classified>(listing: Result<Vec<Option<T>>, ReadError>) -> (out: Result<
    Vec<T>,
    ReadError,
>)
    ensures
        match listing {
            Ok(records) => out matches Ok(sorted) && sorted@ == dirs_first(resolved(records@)),
            Err(e) => out == Err::<Vec<T>, ReadError>(e),
        },
        (listing matches Ok(records) && records@.len() == 0) ==> (out matches Ok(sorted)
            && sorted@.len() == 0),
{
    match listing {
        Err(e) => Err(e),
        Ok(records) => {
            let ghost all = records@;
            let mut dirs: Vec<T> = Vec::new();
            let mut rest: Vec<T> = Vec::new();
            for record in it: records
                invariant
                    it.seq() == all,
                    dirs@ == directories(resolved(all.take(it.index() as int))),
                    rest@ == files(resolved(all.take(it.index() as int))),
            {
                proof {
                    let i = it.index() as int;
                    let seen = resolved(all.take(i));
                    all.lemma_filter_map_take_succ(|r: Option<T>| r, i);
                    if record is Some {
                        let e = record->0;
                        assert(seen + seq![e] =~= seen.push(e));
                        seen.lemma_filter_push(e, |e: T| e.is_directory());
                        seen.lemma_filter_push(e, |e: T| !e.is_directory());
                    }
                }
                match record {
                    Some(entry) => {
                        if entry.is_dir() {
                            dirs.push(entry);
                        } else {
                            rest.push(entry);
                        }
                    },
                    None => {},
                }
            }
            proof {
                assert(all.take(all.len() as int) =~= all);
            }
            dirs.append(&mut rest);
            Ok(dirs)
        },
    }
}

/// No record is lost or made up: an entry stands in `resolved(records)` as
/// often as it stands, resolved, among the records.
pub proof fn lemma_resolved_keeps_each_entry<T>(records: Seq<Option<T>>, entry: T)
    ensures
        resolved(records).to_multiset().count(entry) == records.to_multiset().count(Some(entry)),
        resolved(records).len() <= records.len(),
        (forall|i: int| 0 <= i < records.len() ==> records[i] is Some) ==> resolved(records).len()
            == records.len(),
    decreases records.len(),
{
    broadcast use vstd::multiset::group_multiset_axioms;

    if records.len() == 0 {
        assert(records.to_multiset() =~= Multiset::<Option<T>>::empty()) by {
            records.to_multiset_ensures();
        }
        assert(resolved(records).to_multiset() =~= Multiset::<T>::empty()) by {
            resolved(records).to_multiset_ensures();
        }
    } else {
        let init = records.drop_last();
        let last = records.last();
        lemma_resolved_keeps_each_entry(init, entry);
        assert(records =~= init.push(last));
        to_multiset_build(init, last);
        match last {
            Some(e) => {
                assert(resolved(records) =~= resolved(init).push(e));
                to_multiset_build(resolved(init), e);
            },
            None => {},
        }
    }
}

/// What `sort_entities` returns for a directory holds every entry as often
/// as the records of the directory do, and nothing besides. Where every
/// record resolved, it is as long as the listing.
pub proof fn lemma_every_entry_once<T: Classified>(records: Seq<Option<T>>, entry: T)
    ensures
        dirs_first(resolved(records)).to_multiset().count(entry) == records.to_multiset().count(
            Some(entry),
        ),
        dirs_first(resolved(records)).len() <= records.len(),
        (forall|i: int| 0 <= i < records.len() ==> records[i] is Some) ==> dirs_first(
            resolved(records),
        ).len() == records.len(),
{
    lemma_resolved_keeps_each_entry(records, entry);
    lemma_dirs_first_is_permutation(resolved(records));
}

/// Ordering directories first neither drops nor repeats an entry: the
/// result holds each entry as often as the input does.
pub proof fn lemma_dirs_first_is_permutation<T: Classified>(entries: Seq<T>)
    ensures
        dirs_first(entries).to_multiset() == entries.to_multiset(),
        dirs_first(entries).len() == entries.len(),
    decreases entries.len(),
{
    broadcast use vstd::multiset::group_multiset_axioms;

    let is_dir = |e: T| e.is_directory();
    let is_file = |e: T| !e.is_directory();
    lemma_multiset_commutative(entries.filter(is_dir), entries.filter(is_file));
    if entries.len() == 0 {
        reveal(Seq::filter);
    } else {
        let init = entries.drop_last();
        let last = entries.last();
        lemma_dirs_first_is_permutation(init);
        lemma_multiset_commutative(init.filter(is_dir), init.filter(is_file));
        assert(entries =~= init.push(last));
        init.lemma_filter_push(last, is_dir);
        init.lemma_filter_push(last, is_file);
        to_multiset_build(init, last);
        to_multiset_build(init.filter(is_dir), last);
        to_multiset_build(init.filter(is_file), last);
    }
    dirs_first(entries).to_multiset_ensures();
}

/// In the directories-first order no entry that is not a directory stands
/// before a directory.
pub proof fn lemma_dirs_precede_files<T: Classified>(entries: Seq<T>, i: int, j: int)
    requires
        0 <= i < j < dirs_first(entries).len(),
    ensures
        dirs_first(entries)[j].is_directory() ==> dirs_first(entries)[i].is_directory(),
{
    let is_dir = |e: T| e.is_directory();
    let is_file = |e: T| !e.is_directory();
    let dirs = entries.filter(is_dir);
    if j < dirs.len() {
        entries.lemma_filter_pred(is_dir, i);
    } else {
        entries.lemma_filter_pred(is_file, j - dirs.len());
    }
}

/// Within the directories, and within the other entries, the order of
/// enumeration is kept: each group is the input with the other group left out.
pub proof fn lemma_dirs_first_groups<T: Classified>(entries: Seq<T>)
    ensures
        dirs_first(entries).take(directories(entries).len() as int) == directories(entries),
        dirs_first(entries).skip(directories(entries).len() as int) == files(entries),
{
}

} // verus!
