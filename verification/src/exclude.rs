//! The names of the directories whose contents are not shown.

use vstd::prelude::*;
use vstd::hash_set::StringHashSet;
use vstd::string::StringExecFns;

verus! {

/// A set of directory names. A directory whose own name is in the set is
/// still shown, but nothing below it is.
pub struct ExclusionSet {
    names: StringHashSet,
}

impl View for ExclusionSet {
    type V = Set<Seq<char>>;

    closed spec fn view(&self) -> Set<Seq<char>> {
        self.names@
    }
}

/// The names that are excluded when nothing else is configured.
pub open spec fn standard_names() -> Set<Seq<char>> {
    set![
        "target"@,
        ".git"@,
        ".venv"@,
        "node_modules"@,
        "build"@,
        ".gradle"@,
        "__pycache__"@,
        ".cache"@,
        ".config"@,
        ".dart_tool"@,
        ".mypy_cache"@,
        ".firebase"@,
        ".idea"@,
    ]
}

impl ExclusionSet {
    /// The set that excludes nothing.
    pub fn new() -> (set: Self)
        ensures
            set@ == Set::<Seq<char>>::empty(),
    {
        ExclusionSet { names: StringHashSet::new() }
    }

    /// Adds `name` to the set.
    pub fn insert(&mut self, name: &str)
        ensures
            final(self)@ == old(self)@.insert(name@),
    {
        self.names.insert(String::from_str(name));
    }

    /// Whether `name` is in the set. Only the whole name counts.
    pub fn contains(&self, name: &str) -> (found: bool)
        ensures
            found == self@.contains(name@),
    {
        self.names.contains(name)
    }

    /// The set of [`standard_names`].
    pub fn standard() -> (set: Self)
        ensures
            set@ == standard_names(),
    {
        let mut set = ExclusionSet::new();
        set.insert("target");
        set.insert(".git");
        set.insert(".venv");
        set.insert("node_modules");
        set.insert("build");
        set.insert(".gradle");
        set.insert("__pycache__");
        set.insert(".cache");
        set.insert(".config");
        set.insert(".dart_tool");
        set.insert(".mypy_cache");
        set.insert(".firebase");
        set.insert(".idea");
        set
    }
}

} // verus!
