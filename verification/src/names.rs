//! The filename table: a mapping from 64-bit content hashes to human-readable
//! relative paths, loaded by the embedding application from a list file and
//! handed over as plain pairs.
//!
//! Lookups take the first pair with the given hash; hashes that are absent
//! resolve to the synthetic `_Unknown/<hex>` path.

use vstd::prelude::*;
use crate::text::{spec_unknown_path, unknown_path};

verus! {

/// Shared, optional mapping from content hash to display path.
#[derive(Debug, Clone)]
pub struct FileNameTable {
    pub entries: Vec<(u64, String)>,
}

impl FileNameTable {
    /// The pairs as hash / character-sequence values.
    pub open spec fn pairs(self) -> Seq<(u64, Seq<char>)> {
        Seq::new(self.entries@.len(), |i: int| (self.entries@[i].0, self.entries@[i].1@))
    }

    /// The path the table gives for `hash`: the first pair that carries it.
    pub open spec fn spec_get(self, hash: u64) -> Option<Seq<char>> {
        spec_first_match(self.pairs(), hash)
    }

    /// The display path of `hash`: the table's entry, or the synthetic
    /// `_Unknown/<hash in uppercase hex>` fallback.
    pub open spec fn spec_resolve(self, hash: u64) -> Seq<char> {
        match self.spec_get(hash) {
            Option::Some(p) => p,
            Option::None => spec_unknown_path(hash),
        }
    }

    /// An empty table.
    pub fn new() -> (r: FileNameTable)
        ensures
            r.pairs() =~= Seq::<(u64, Seq<char>)>::empty(),
    {
        FileNameTable { entries: Vec::new() }
    }

    /// Build a table from hash/path pairs, kept in the given order.
    pub fn from_pairs(pairs: Vec<(u64, String)>) -> (r: FileNameTable)
        ensures
            r.entries == pairs,
    {
        FileNameTable { entries: pairs }
    }

    /// How many pairs the table holds.
    pub fn len(&self) -> (r: usize)
        ensures
            r == self.pairs().len(),
    {
        self.entries.len()
    }

    /// Look up the display path recorded for `hash`.
    pub fn get_file_name(&self, hash: u64) -> (r: Option<&String>)
        ensures
            match r {
                Option::Some(p) => self.spec_get(hash) == Option::Some(p@),
                Option::None => self.spec_get(hash) is None,
            },
    {
        let n = self.entries.len();
        let mut i: usize = 0;
        proof {
            assert(self.pairs().skip(0) =~= self.pairs());
        }
        while i < n
            invariant
                i <= n,
                n == self.entries@.len(),
                spec_first_match(self.pairs(), hash) == spec_first_match(
                    self.pairs().skip(i as int),
                    hash,
                ),
                forall|k: int| 0 <= k < i ==> self.pairs()[k].0 != hash,
            decreases n - i,
        {
            proof {
                assert(self.pairs().skip(i as int)[0] == self.pairs()[i as int]);
                assert(self.pairs().skip(i as int).skip(1) =~= self.pairs().skip(i as int + 1));
            }
            if self.entries[i].0 == hash {
                return Some(&self.entries[i].1);
            }
            i = i + 1;
        }
        proof {
            assert(self.pairs().skip(n as int) =~= Seq::<(u64, Seq<char>)>::empty());
        }
        None
    }

    /// Resolve the display path of `hash`, falling back to the synthetic
    /// unknown path when the table does not know it.
    pub fn resolve_path(&self, hash: u64) -> (r: String)
        ensures
            r@ == self.spec_resolve(hash),
    {
        match self.get_file_name(hash) {
            Some(p) => p.clone(),
            None => unknown_path(hash),
        }
    }
}

/// One filename-table list file found on disk, as the embedding
/// application discovered it.
#[derive(Debug, Clone, PartialEq, Eq)]
pub struct FileListInfo {
    pub name: String,
    pub abs_path: String,
}

/// The first pair of `s` carrying `hash`, if any.
pub open spec fn spec_first_match(s: Seq<(u64, Seq<char>)>, hash: u64) -> Option<Seq<char>>
    decreases s.len(),
{
    if s.len() == 0 {
        Option::None
    } else if s[0].0 == hash {
        Option::Some(s[0].1)
    } else {
        spec_first_match(s.skip(1), hash)
    }
}

} // verus!
