//! The stored snippet entry: a title, the command text itself, a free-form
//! description, and a use counter.
//!
//! Reading entries from disk and writing them back is the surrounding
//! application's business; this module only owns the data shape and the
//! text that fuzzy search runs over.

use vstd::prelude::*;
use vstd::string::StringExecFns;

verus! {

/// One stored command snippet.
#[derive(Debug, Clone)]
pub struct Entry {
    pub title: String,
    pub code: String,
    pub description: String,
    pub used: u32,
}

impl Entry {
    pub fn new(title: String, answer: String, description: String) -> (r: Self)
        ensures
            r.title@ == title@,
            r.code@ == answer@,
            r.description@ == description@,
            r.used == 0,
    {
        Entry { title, description, code: answer, used: 0 }
    }

    /// Converts the entry into one string that should be searched
    /// for fuzzy finding: title, description and code joined by newlines.
    pub fn to_haystack(&self) -> (r: String)
        ensures
            r@ == self.title@ + seq!['\n'] + self.description@ + seq!['\n'] + self.code@,
    {
        proof {
            reveal_strlit("\n");
        }
        let mut r = self.title.clone();
        r.append("\n");
        r.append(self.description.as_str());
        r.append("\n");
        r.append(self.code.as_str());
        proof {
            assert(r@ =~= self.title@ + seq!['\n'] + self.description@ + seq!['\n']
                + self.code@);
        }
        r
    }
}

/// The full collection of stored entries.
#[derive(Debug)]
pub struct Entries {
    pub entries: Vec<Entry>,
}

impl Entries {
    pub fn new() -> (r: Self)
        ensures
            r.entries@.len() == 0,
    {
        Entries { entries: Vec::new() }
    }
}

} // verus!
