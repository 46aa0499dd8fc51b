//! The configuration snapshot the runner reads: tag names bound to
//! ordered, deduplicated lists of directory paths.

use vstd::prelude::*;

verus! {

/// A tag: one label's ordered list of directory paths.
#[derive(Debug, PartialEq, Eq)]
pub struct Tag {
    pub paths: Vec<String>,
}

impl Tag {
    /// The paths of this tag, as character sequences.
    pub open spec fn spec_paths(&self) -> Seq<Seq<char>> {
        self.paths.deep_view()
    }

    /// The store keeps each tag's path list free of duplicates.
    pub open spec fn wf(&self) -> bool {
        self.spec_paths().no_duplicates()
    }
}

/// A read-only snapshot of the configuration store: a version marker and
/// the stored tags. Tag names are unique within a snapshot.
#[derive(Debug, PartialEq, Eq)]
pub struct ConfigFile {
    pub version: String,
    pub tags: Vec<(String, Tag)>,
}

/// The paths bound to `name` in `entries`: the paths of the first entry
/// whose name matches, or the empty sequence when no entry matches.
pub open spec fn paths_of_entries(entries: Seq<(String, Tag)>, name: Seq<char>) -> Seq<Seq<char>>
    decreases entries.len(),
{
    if entries.len() == 0 {
        Seq::empty()
    } else if entries[0].0@ == name {
        entries[0].1.spec_paths()
    } else {
        paths_of_entries(entries.drop_first(), name)
    }
}

impl ConfigFile {
    /// The paths bound to a tag name; empty when the name is absent.
    pub open spec fn spec_paths_of(&self, name: Seq<char>) -> Seq<Seq<char>> {
        paths_of_entries(self.tags@, name)
    }

    /// Whether a tag of this name is stored.
    pub open spec fn spec_has_tag(&self, name: Seq<char>) -> bool {
        exists|i: int| 0 <= i < self.tags@.len() && self.tags@[i].0@ == name
    }

    /// Tag names are unique and every stored path list is duplicate-free.
    pub open spec fn wf(&self) -> bool {
        &&& forall|i: int, j: int|
            0 <= i < j < self.tags@.len() ==> self.tags@[i].0@ != self.tags@[j].0@
        &&& forall|i: int| 0 <= i < self.tags@.len() ==> (#[trigger] self.tags@[i]).1.wf()
    }
}

/// A tag name absent from the store is bound to no paths.
pub proof fn lemma_missing_tag_has_no_paths(config: &ConfigFile, name: Seq<char>)
    requires
        !config.spec_has_tag(name),
    ensures
        config.spec_paths_of(name) == Seq::<Seq<char>>::empty(),
{
    lemma_missing_name_no_paths(config.tags@, name);
}

proof fn lemma_missing_name_no_paths(entries: Seq<(String, Tag)>, name: Seq<char>)
    requires
        forall|i: int| 0 <= i < entries.len() ==> (#[trigger] entries[i]).0@ != name,
    ensures
        paths_of_entries(entries, name) == Seq::<Seq<char>>::empty(),
    decreases entries.len(),
{
    if entries.len() > 0 {
        assert(forall|i: int|
            0 <= i < entries.drop_first().len() ==> (#[trigger] entries.drop_first()[i]).0@
                != name);
        lemma_missing_name_no_paths(entries.drop_first(), name);
    }
}

} // verus!
