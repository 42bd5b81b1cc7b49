//! The per-course `settings.toml`, as values.

use vstd::prelude::*;
use crate::text::same_text;

verus! {

/// The settings of one course: its Canvas ids and its assignments, each
/// under the name of its table in `settings.toml`.
pub struct Settings {
    pub course: u32,
    pub section: u32,
    pub assignment: Vec<(String, Assignment)>,
}

/// The settings of one assignment.
pub struct Assignment {
    /// The Canvas assignment id.
    pub id: u32,
    /// The remote compile command, with `%REMOTE_PATH`, `%REMOTE_BUILD` and
    /// `%GCC_FLAGS` placeholders.
    pub compile: String,
    /// The expected file name, when students may upload several files.
    pub filename: Option<String>,
    /// Whether each student's file goes into a directory of its own.
    pub separate_directories: bool,
}

/// The position of the first entry named `name`, if there is one.
pub open spec fn position_of(entries: Seq<(String, Assignment)>, name: Seq<char>) -> Option<int> {
    if exists|i: int| 0 <= i < entries.len() && (#[trigger] entries[i]).0@ == name {
        Some(
            choose|i: int|
                0 <= i < entries.len() && (#[trigger] entries[i]).0@ == name && forall|j: int|
                    0 <= j < i ==> (#[trigger] entries[j]).0@ != name,
        )
    } else {
        None
    }
}

/// No two assignments share a name (the tables of `settings.toml` have
/// distinct names).
pub open spec fn unique_names(entries: Seq<(String, Assignment)>) -> bool {
    forall|i: int, j: int|
        0 <= i < j < entries.len() ==> (#[trigger] entries[i]).0@ != (#[trigger] entries[j]).0@
}

/// With distinct names, the entry found for a name is the one entry with
/// that name.
pub proof fn lemma_position_of_unique(entries: Seq<(String, Assignment)>, k: int)
    requires
        unique_names(entries),
        0 <= k < entries.len(),
    ensures
        position_of(entries, entries[k].0@) == Some(k),
{
    let name = entries[k].0@;
    assert forall|j: int| 0 <= j < k implies (#[trigger] entries[j]).0@ != name by {
        assert(entries[j].0@ != entries[k].0@);
    }
    let c = choose|i: int|
        0 <= i < entries.len() && (#[trigger] entries[i]).0@ == name && forall|j: int|
            0 <= j < i ==> (#[trigger] entries[j]).0@ != name;
    if c != k {
        if c < k {
            assert(entries[c].0@ != entries[k].0@);
        } else {
            assert(entries[k].0@ != name);
        }
    }
}

impl Settings {
    /// Whether no two assignments share a name.
    pub fn has_unique_names(&self) -> (r: bool)
        ensures
            r == unique_names(self.assignment@),
    {
        let n = self.assignment.len();
        for i in 0..n
            invariant
                n == self.assignment@.len(),
                forall|a: int, b: int|
                    0 <= a < i && a < b < n ==> (#[trigger] self.assignment@[a]).0@
                        != (#[trigger] self.assignment@[b]).0@,
        {
            for j in i + 1..n
                invariant
                    n == self.assignment@.len(),
                    i < n,
                    forall|a: int, b: int|
                        0 <= a < i && a < b < n ==> (#[trigger] self.assignment@[a]).0@
                            != (#[trigger] self.assignment@[b]).0@,
                    forall|b: int| i < b < j ==> self.assignment@[i as int].0@
                        != (#[trigger] self.assignment@[b]).0@,
            {
                if same_text(self.assignment[i].0.as_str(), self.assignment[j].0.as_str()) {
                    return false;
                }
            }
        }
        true
    }

    /// The settings of the assignment named `name`; names are distinct.
    pub fn get(&self, name: &str) -> (r: Option<&Assignment>)
        requires
            unique_names(self.assignment@),
        ensures
            match position_of(self.assignment@, name@) {
                Some(i) => r == Some(&self.assignment@[i].1),
                None => r is None,
            },
    {
        for i in 0..self.assignment.len()
            invariant
                forall|j: int| 0 <= j < i ==> (#[trigger] self.assignment@[j]).0@ != name@,
        {
            if same_text(self.assignment[i].0.as_str(), name) {
                let ghost p = choose|k: int|
                    0 <= k < self.assignment@.len() && (#[trigger] self.assignment@[k]).0@ == name@
                        && forall|j: int| 0 <= j < k ==> (#[trigger] self.assignment@[j]).0@ != name@;
                assert(0 <= i < self.assignment@.len() && self.assignment@[i as int].0@ == name@ &&
                    forall|j: int| 0 <= j < i ==> (#[trigger] self.assignment@[j]).0@ != name@);
                assert(p == i) by {
                    if p < i {
                        assert(self.assignment@[p].0@ != name@);
                    } else if p > i {
                        assert(self.assignment@[i as int].0@ != name@);
                    }
                }
                return Some(&self.assignment[i].1);
            }
        }
        None
    }
}

} // verus!
