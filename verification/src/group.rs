//! The archive registry: an ordered collection of opened archives plus the
//! optional shared filename table.
//!
//! Ids are minted from a monotonic counter and never reused. Adding an
//! archive whose canonical path is already held evicts the old handle first,
//! so the registry keeps at most one handle per path.

use vstd::prelude::*;
use crate::error::Error;
use crate::names::FileNameTable;
use crate::pak::{Pak, PakEntry, PakId, PakInfo};
use crate::tree::FileTree;

verus! {

/// Manages the opened archives and the shared filename table.
pub struct PakGroup {
    pub paks: Vec<Pak>,
    pub file_name_table: Option<FileNameTable>,
    /// The next id to mint; every held id is below it.
    pub next_id: u64,
}

/// The first index holding `id`, or `-1`.
pub open spec fn id_index(paks: Seq<Pak>, id: PakId) -> int
    decreases paks.len(),
{
    if paks.len() == 0 {
        -1
    } else if paks[0].id == id {
        0
    } else {
        let r = id_index(paks.skip(1), id);
        if r == -1 {
            -1
        } else {
            r + 1
        }
    }
}

/// The first index whose archive has the canonical path `path`, or `-1`.
pub open spec fn path_index(paks: Seq<Pak>, path: Seq<char>) -> int
    decreases paks.len(),
{
    if paks.len() == 0 {
        -1
    } else if paks[0].path@ == path {
        0
    } else {
        let r = path_index(paks.skip(1), path);
        if r == -1 {
            -1
        } else {
            r + 1
        }
    }
}

/// What `id_index` finding (or not finding) an index means.
pub proof fn lemma_id_index(paks: Seq<Pak>, id: PakId)
    ensures
        -1 <= id_index(paks, id) < paks.len(),
        id_index(paks, id) >= 0 ==> paks[id_index(paks, id)].id == id,
        forall|k: int| 0 <= k < id_index(paks, id) ==> paks[k].id != id,
        id_index(paks, id) == -1 ==> forall|k: int| 0 <= k < paks.len() ==> paks[k].id != id,
    decreases paks.len(),
{
    if paks.len() > 0 && paks[0].id != id {
        lemma_id_index(paks.skip(1), id);
        let r = id_index(paks.skip(1), id);
        assert forall|k: int| 0 <= k < id_index(paks, id) implies paks[k].id != id by {
            if k > 0 {
                assert(paks.skip(1)[k - 1] == paks[k]);
            }
        }
        if r == -1 {
            assert forall|k: int| 0 <= k < paks.len() implies paks[k].id != id by {
                if k > 0 {
                    assert(paks.skip(1)[k - 1] == paks[k]);
                }
            }
        } else {
            assert(paks.skip(1)[r] == paks[r + 1]);
        }
    }
}

/// A matching index with no earlier match is what `id_index` returns.
pub proof fn lemma_id_index_first(paks: Seq<Pak>, id: PakId, i: int)
    requires
        0 <= i < paks.len(),
        paks[i].id == id,
        forall|k: int| 0 <= k < i ==> paks[k].id != id,
    ensures
        id_index(paks, id) == i,
    decreases paks.len(),
{
    if i > 0 {
        assert(paks.skip(1)[i - 1] == paks[i]);
        assert forall|k: int| 0 <= k < i - 1 implies paks.skip(1)[k].id != id by {
            assert(paks.skip(1)[k] == paks[k + 1]);
        }
        lemma_id_index_first(paks.skip(1), id, i - 1);
    }
}

/// What `path_index` finding (or not finding) an index means.
pub proof fn lemma_path_index(paks: Seq<Pak>, path: Seq<char>)
    ensures
        -1 <= path_index(paks, path) < paks.len(),
        path_index(paks, path) >= 0 ==> paks[path_index(paks, path)].path@ == path,
        forall|k: int| 0 <= k < path_index(paks, path) ==> paks[k].path@ != path,
        path_index(paks, path) == -1 ==> forall|k: int|
            0 <= k < paks.len() ==> paks[k].path@ != path,
    decreases paks.len(),
{
    if paks.len() > 0 && paks[0].path@ != path {
        lemma_path_index(paks.skip(1), path);
        let r = path_index(paks.skip(1), path);
        assert forall|k: int| 0 <= k < path_index(paks, path) implies paks[k].path@ != path by {
            if k > 0 {
                assert(paks.skip(1)[k - 1] == paks[k]);
            }
        }
        if r == -1 {
            assert forall|k: int| 0 <= k < paks.len() implies paks[k].path@ != path by {
                if k > 0 {
                    assert(paks.skip(1)[k - 1] == paks[k]);
                }
            }
        } else {
            assert(paks.skip(1)[r] == paks[r + 1]);
        }
    }
}

impl PakGroup {
    /// The registry invariant: every held id was minted (is below
    /// `next_id`), ids are distinct, and canonical paths are distinct.
    pub open spec fn wf(&self) -> bool {
        (forall|i: int| 0 <= i < self.paks@.len() ==> (#[trigger] self.paks@[i].id).0
            < self.next_id) && (forall|i: int, j: int|
            0 <= i < j < self.paks@.len() ==> self.paks@[i].id != self.paks@[j].id) && (forall|
            i: int,
            j: int,
        |
            0 <= i < j < self.paks@.len() ==> self.paks@[i].path@ != self.paks@[j].path@)
    }

    /// An empty registry with no filename table.
    pub fn new() -> (r: PakGroup)
        ensures
            r.wf(),
            r.paks@.len() == 0,
            r.file_name_table is None,
            r.next_id == 0,
    {
        PakGroup { paks: Vec::new(), file_name_table: None, next_id: 0 }
    }

    /// The shared filename table, if one is loaded.
    pub fn file_name_table(&self) -> (r: Option<&FileNameTable>)
        ensures
            match r {
                Option::Some(t) => self.file_name_table == Option::Some(*t),
                Option::None => self.file_name_table is None,
            },
    {
        self.file_name_table.as_ref()
    }

    /// The held archives, in registry order.
    pub fn paks(&self) -> (r: &Vec<Pak>)
        ensures
            r == &self.paks,
    {
        &self.paks
    }

    /// Replace the filename table wholesale.
    pub fn set_file_name_table(&mut self, file_name_table: FileNameTable)
        ensures
            final(self).file_name_table == Option::Some(file_name_table),
            final(self).paks == old(self).paks,
            final(self).next_id == old(self).next_id,
    {
        self.file_name_table = Some(file_name_table);
    }

    /// Id and path of every held archive, in order.
    pub fn pak_infos(&self) -> (r: Vec<PakInfo>)
        ensures
            r@.len() == self.paks@.len(),
            forall|i: int|
                0 <= i < r@.len() ==> r@[i].id == self.paks@[i].id && r@[i].path@
                    == self.paks@[i].path@,
    {
        let n = self.paks.len();
        let mut r: Vec<PakInfo> = Vec::new();
        let mut i: usize = 0;
        while i < n
            invariant
                i <= n,
                n == self.paks@.len(),
                r@.len() == i,
                forall|k: int|
                    0 <= k < i ==> r@[k].id == self.paks@[k].id && r@[k].path@
                        == self.paks@[k].path@,
            decreases n - i,
        {
            let info = PakInfo { id: self.paks[i].id, path: self.paks[i].path.clone() };
            r.push(info);
            i = i + 1;
        }
        r
    }

    /// Total entry count over all held archives, saturating.
    pub fn total_files(&self) -> (r: u64)
        ensures
            r == spec_total_files(self.paks@, 0),
    {
        let n = self.paks.len();
        let mut total: u64 = 0;
        let mut i: usize = 0;
        proof {
            assert(self.paks@.skip(0) =~= self.paks@);
        }
        while i < n
            invariant
                i <= n,
                n == self.paks@.len(),
                spec_total_files(self.paks@, 0) == spec_total_files(
                    self.paks@.skip(i as int),
                    total,
                ),
            decreases n - i,
        {
            proof {
                assert(self.paks@.skip(i as int)[0] == self.paks@[i as int]);
                assert(self.paks@.skip(i as int).skip(1) =~= self.paks@.skip(i as int + 1));
            }
            let c = self.paks[i].entries.len();
            total = crate::tree::sat_add(total, c as u64);
            i = i + 1;
        }
        proof {
            assert(self.paks@.skip(n as int) =~= Seq::<Pak>::empty());
        }
        total
    }

    /// The first held archive with id `id`.
    pub fn get_pak(&self, id: &PakId) -> (r: Option<&Pak>)
        ensures
            match r {
                Option::Some(p) => id_index(self.paks@, *id) >= 0 && *p == self.paks@[id_index(
                    self.paks@,
                    *id,
                )],
                Option::None => id_index(self.paks@, *id) == -1,
            },
    {
        let n = self.paks.len();
        let mut i: usize = 0;
        while i < n
            invariant
                i <= n,
                n == self.paks@.len(),
                forall|k: int| 0 <= k < i ==> self.paks@[k].id != *id,
            decreases n - i,
        {
            if self.paks[i].id.0 == id.0 {
                proof {
                    lemma_id_index_first(self.paks@, *id, i as int);
                }
                return Some(&self.paks[i]);
            }
            i = i + 1;
        }
        proof {
            lemma_id_index(self.paks@, *id);
            if id_index(self.paks@, *id) >= 0 {
                assert(self.paks@[id_index(self.paks@, *id)].id == *id);
            }
        }
        None
    }

    /// The first held archive opened from `path`.
    pub fn get_pak_by_path(&self, path: &String) -> (r: Option<&Pak>)
        ensures
            match r {
                Option::Some(p) => path_index(self.paks@, path@) >= 0 && *p
                    == self.paks@[path_index(self.paks@, path@)],
                Option::None => path_index(self.paks@, path@) == -1,
            },
    {
        let n = self.paks.len();
        let mut i: usize = 0;
        while i < n
            invariant
                i <= n,
                n == self.paks@.len(),
                forall|k: int| 0 <= k < i ==> self.paks@[k].path@ != path@,
            decreases n - i,
        {
            if self.paks[i].path.eq(path) {
                proof {
                    lemma_path_index_first(self.paks@, path@, i as int);
                }
                return Some(&self.paks[i]);
            }
            i = i + 1;
        }
        proof {
            lemma_path_index(self.paks@, path@);
            if path_index(self.paks@, path@) >= 0 {
                assert(self.paks@[path_index(self.paks@, path@)].path@ == path@);
            }
        }
        None
    }

    /// Remove the archive with id `id`, returning its handle.
    pub fn remove_pak(&mut self, id: &PakId) -> (r: Option<Pak>)
        ensures
            match r {
                Option::Some(p) => {
                    let i = id_index(old(self).paks@, *id);
                    i >= 0 && p == old(self).paks@[i] && final(self).paks@ == old(
                        self,
                    ).paks@.remove(i)
                },
                Option::None => id_index(old(self).paks@, *id) == -1 && final(self).paks == old(
                    self,
                ).paks,
            },
            final(self).file_name_table == old(self).file_name_table,
            final(self).next_id == old(self).next_id,
            old(self).wf() ==> final(self).wf(),
    {
        let n = self.paks.len();
        let mut i: usize = 0;
        while i < n
            invariant
                i <= n,
                n == self.paks@.len(),
                *self == *old(self),
                forall|k: int| 0 <= k < i ==> self.paks@[k].id != *id,
            decreases n - i,
        {
            if self.paks[i].id.0 == id.0 {
                proof {
                    lemma_id_index_first(self.paks@, *id, i as int);
                }
                let p = self.paks.remove(i);
                proof {
                    if old(self).wf() {
                        lemma_remove_keeps_wf(
                            old(self).paks@,
                            self.paks@,
                            i as int,
                            self.next_id,
                        );
                    }
                }
                return Some(p);
            }
            i = i + 1;
        }
        proof {
            lemma_id_index(self.paks@, *id);
            if id_index(self.paks@, *id) >= 0 {
                assert(self.paks@[id_index(self.paks@, *id)].id == *id);
            }
        }
        None
    }

    /// Drop every held archive.
    pub fn remove_all_paks(&mut self)
        ensures
            final(self).paks@.len() == 0,
            final(self).file_name_table == old(self).file_name_table,
            final(self).next_id == old(self).next_id,
            old(self).wf() ==> final(self).wf(),
    {
        self.paks.clear();
    }

    /// Open a new archive handle for `path` with the parsed `entries`,
    /// minting a fresh id. An archive already held under the same canonical
    /// path is removed first, so the path keeps exactly one handle: this one.
    pub fn add_pak(&mut self, path: String, entries: Vec<PakEntry>) -> (r: PakId)
        requires
            old(self).wf(),
            old(self).next_id < u64::MAX,
        ensures
            final(self).wf(),
            r == PakId(old(self).next_id),
            final(self).next_id == old(self).next_id + 1,
            final(self).file_name_table == old(self).file_name_table,
            ({
                let pi = path_index(old(self).paks@, path@);
                let kept = if pi >= 0 {
                    old(self).paks@.remove(pi)
                } else {
                    old(self).paks@
                };
                final(self).paks@.len() == kept.len() + 1 && (forall|k: int|
                    0 <= k < kept.len() ==> (#[trigger] final(self).paks@[k]) == kept[k])
                    && final(self).paks@.last().id == r
                    && final(self).paks@.last().path@ == path@
                    && final(self).paks@.last().entries == entries
            }),
    {
        let id = PakId(self.next_id);
        self.next_id = self.next_id + 1;
        let ghost paks0 = self.paks@;
        let mut found: Option<usize> = None;
        let n = self.paks.len();
        let mut i: usize = 0;
        while i < n && found.is_none()
            invariant
                i <= n,
                n == self.paks@.len(),
                found is None ==> forall|k: int| 0 <= k < i ==> self.paks@[k].path@ != path@,
                match found {
                    Option::Some(fi) => fi < n && path_index(self.paks@, path@) == fi as int,
                    Option::None => true,
                },
            decreases n - i + (if found is None { 1int } else { 0int }),
        {
            if self.paks[i].path.eq(&path) {
                proof {
                    lemma_path_index_first(self.paks@, path@, i as int);
                }
                found = Some(i);
            } else {
                i = i + 1;
            }
        }
        proof {
            if found is None {
                lemma_path_index(self.paks@, path@);
                if path_index(self.paks@, path@) >= 0 {
                    assert(self.paks@[path_index(self.paks@, path@)].path@ == path@);
                }
            }
        }
        match found {
            Some(fi) => {
                let _ = self.paks.remove(fi);
            },
            None => {},
        }
        let ghost kept = self.paks@;
        let pak = Pak::new(id, path, entries);
        self.paks.push(pak);
        proof {
            let pi = path_index(paks0, self.paks@.last().path@);
            if pi >= 0 {
                lemma_remove_keeps_wf(paks0, kept, pi, old(self).next_id);
                lemma_remove_elems(paks0, pi);
            }
            lemma_path_index(paks0, self.paks@.last().path@);
            assert forall|x: int, y: int|
                0 <= x < y < self.paks@.len() implies self.paks@[x].id != self.paks@[y].id by {
                if y == self.paks@.len() - 1 {
                    assert(self.paks@[x] == kept[x]);
                    assert(old(self).wf());
                }
            }
            assert forall|x: int, y: int|
                0 <= x < y < self.paks@.len() implies self.paks@[x].path@
                != self.paks@[y].path@ by {
                if y == self.paks@.len() - 1 {
                    assert(self.paks@[x] == kept[x]);
                }
            }
            assert forall|x: int|
                0 <= x < self.paks@.len() implies (#[trigger] self.paks@[x].id).0
                < self.next_id by {
                if x < self.paks@.len() - 1 {
                    assert(self.paks@[x] == kept[x]);
                }
            }
        }
        id
    }
}

/// Is the requested order acceptable: same length as the held list, free of
/// duplicates, and made of held ids only? Under the registry invariant this
/// holds exactly when the order is a permutation of the held ids.
pub open spec fn spec_order_ok(paks: Seq<Pak>, order: Seq<PakId>) -> bool {
    order.len() == paks.len() && (forall|i: int, j: int|
        0 <= i < j < order.len() ==> order[i] != order[j]) && (forall|t: int|
        0 <= t < order.len() ==> id_index(paks, #[trigger] order[t]) >= 0)
}

/// Under unique ids, any index holding `id` is the one `id_index` returns.
pub proof fn lemma_id_index_unique(paks: Seq<Pak>, id: PakId, i: int)
    requires
        forall|x: int, y: int| 0 <= x < y < paks.len() ==> paks[x].id != paks[y].id,
        0 <= i < paks.len(),
        paks[i].id == id,
    ensures
        id_index(paks, id) == i,
{
    assert forall|k: int| 0 <= k < i implies paks[k].id != id by {
        assert(paks[k].id != paks[i].id);
    }
    lemma_id_index_first(paks, id, i);
}

impl PakGroup {
    /// Reorder the held archives to match `order`. Succeeds exactly when
    /// `order` is a permutation of the held ids: same length, no duplicates,
    /// every id held. Any mismatch leaves the order unchanged and fails with
    /// an invalid-order error.
    pub fn order_paks(&mut self, order: &Vec<PakId>) -> (r: Result<(), Error>)
        requires
            old(self).wf(),
        ensures
            final(self).wf(),
            final(self).file_name_table == old(self).file_name_table,
            final(self).next_id == old(self).next_id,
            match r {
                Result::Ok(_) => spec_order_ok(old(self).paks@, order@) && final(self).paks@.len()
                    == order@.len() && (forall|t: int|
                    0 <= t < order@.len() ==> id_index(old(self).paks@, #[trigger] order@[t]) >= 0
                        && final(self).paks@[t] == old(self).paks@[id_index(
                        old(self).paks@,
                        order@[t],
                    )]),
                Result::Err(e) => !spec_order_ok(old(self).paks@, order@) && final(self).paks
                    == old(self).paks && e matches Error::InvalidOrder(_),
            },
    {
        let n = self.paks.len();
        if order.len() != n {
            return Err(
                Error::InvalidOrder(
                    String::from_str("Order list length does not match number of paks."),
                ),
            );
        }
        // every requested id must be held
        let m = order.len();
        let mut t: usize = 0;
        while t < m
            invariant
                t <= m,
                m == order@.len(),
                *self == *old(self),
                old(self).wf(),
                forall|k: int| 0 <= k < t ==> id_index(self.paks@, #[trigger] order@[k]) >= 0,
            decreases m - t,
        {
            if !has_pak_id(&self.paks, &order[t]) {
                return Err(
                    Error::InvalidOrder(
                        String::from_str("Order list contains unknown pak ids."),
                    ),
                );
            }
            t = t + 1;
        }
        // the requested ids must be distinct
        let mut a: usize = 0;
        while a < m
            invariant
                a <= m,
                m == order@.len(),
                *self == *old(self),
                old(self).wf(),
                forall|x: int, y: int| 0 <= x < y < m && x < a ==> order@[x] != order@[y],
            decreases m - a,
        {
            let mut b: usize = a + 1;
            while b < m
                invariant
                    a < b <= m,
                    m == order@.len(),
                    *self == *old(self),
                    old(self).wf(),
                    forall|y: int| (a as int) < y < b ==> order@[a as int] != order@[y],
                decreases m - b,
            {
                if order[a].0 == order[b].0 {
                    return Err(
                        Error::InvalidOrder(
                            String::from_str("Order list contains duplicate pak ids."),
                        ),
                    );
                }
                b = b + 1;
            }
            a = a + 1;
        }
        // sort the archives into the requested order
        let ghost paks0 = self.paks@;
        let mut remaining: Vec<Pak> = Vec::new();
        core::mem::swap(&mut self.paks, &mut remaining);
        proof {
            assert forall|x: int|
                0 <= x < remaining@.len() implies paks0.contains(#[trigger] remaining@[x]) by {
                assert(paks0[x] == remaining@[x]);
            }
        }
        let mut sorted: Vec<Pak> = Vec::new();
        let mut k: usize = 0;
        while k < m
            invariant
                k <= m,
                m == order@.len(),
                m == paks0.len(),
                self.paks@.len() == 0,
                self.file_name_table == old(self).file_name_table,
                self.next_id == old(self).next_id,
                spec_order_ok(paks0, order@),
                forall|x: int, y: int| 0 <= x < y < paks0.len() ==> paks0[x].id != paks0[y].id,
                forall|x: int, y: int|
                    0 <= x < y < paks0.len() ==> paks0[x].path@ != paks0[y].path@,
                forall|x: int| 0 <= x < paks0.len() ==> (#[trigger] paks0[x].id).0 < self.next_id,
                sorted@.len() == k,
                forall|u: int|
                    0 <= u < k ==> sorted@[u] == paks0[id_index(paks0, #[trigger] order@[u])],
                forall|x: int|
                    0 <= x < remaining@.len() ==> paks0.contains(#[trigger] remaining@[x]),
                forall|u: int|
                    k <= u < m ==> id_index(remaining@, #[trigger] order@[u]) >= 0,
            decreases m - k,
        {
            let ghost rem0 = remaining@;
            proof {
                lemma_id_index(remaining@, order@[k as int]);
            }
            let mut pos: usize = 0;
            let rn = remaining.len();
            let mut found = false;
            while pos < rn && !found
                invariant
                    pos <= rn,
                    k < m,
                    m == order@.len(),
                    rn == remaining@.len(),
                    remaining@ == rem0,
                    forall|w: int| 0 <= w < pos ==> rem0[w].id != order@[k as int],
                    found ==> pos < rn && rem0[pos as int].id == order@[k as int],
                decreases rn - pos + (if found { 0int } else { 1int }),
            {
                if remaining[pos].id.0 == order[k].0 {
                    found = true;
                } else {
                    pos = pos + 1;
                }
            }
            proof {
                if !found {
                    lemma_id_index(rem0, order@[k as int]);
                    assert(id_index(rem0, order@[k as int]) == -1) by {
                        if id_index(rem0, order@[k as int]) >= 0 {
                            assert(rem0[id_index(rem0, order@[k as int])].id
                                == order@[k as int]);
                        }
                    }
                }
            }
            let pak = remaining.remove(pos);
            proof {
                lemma_remove_elems(rem0, pos as int);
                // the moved handle is the registry's handle for this id
                assert(paks0.contains(pak));
                let w = choose|w: int| 0 <= w < paks0.len() && paks0[w] == pak;
                lemma_id_index_unique(paks0, order@[k as int], w);
                // later ids are still present in the remainder
                assert forall|u: int|
                    k + 1 <= u < m implies id_index(remaining@, #[trigger] order@[u]) >= 0 by {
                    lemma_id_index(rem0, order@[u]);
                    let wu = id_index(rem0, order@[u]);
                    assert(rem0[wu].id == order@[u]);
                    assert(order@[u] != order@[k as int]);
                    let nw: int = if wu < pos { wu } else { wu - 1 };
                    assert(remaining@[nw] == rem0[wu]);
                    lemma_id_index(remaining@, order@[u]);
                    if id_index(remaining@, order@[u]) == -1 {
                        assert(remaining@[nw].id != order@[u]);
                    }
                }
                assert forall|x: int|
                    0 <= x < remaining@.len() implies paks0.contains(
                    #[trigger] remaining@[x],
                ) by {
                    assert(remaining@[x] == (if x < pos {
                        rem0[x]
                    } else {
                        rem0[x + 1]
                    }));
                }
            }
            sorted.push(pak);
            k = k + 1;
        }
        self.paks = sorted;
        proof {
            assert forall|x: int|
                0 <= x < self.paks@.len() implies (#[trigger] self.paks@[x].id).0
                < self.next_id by {
                let w = id_index(paks0, order@[x]);
                lemma_id_index(paks0, order@[x]);
            }
            assert forall|x: int, y: int|
                0 <= x < y < self.paks@.len() implies self.paks@[x].id != self.paks@[y].id by {
                lemma_id_index(paks0, order@[x]);
                lemma_id_index(paks0, order@[y]);
            }
            assert forall|x: int, y: int|
                0 <= x < y < self.paks@.len() implies self.paks@[x].path@
                != self.paks@[y].path@ by {
                let wx = id_index(paks0, order@[x]);
                let wy = id_index(paks0, order@[y]);
                lemma_id_index(paks0, order@[x]);
                lemma_id_index(paks0, order@[y]);
                assert(paks0[wx].id == order@[x]);
                assert(paks0[wy].id == order@[y]);
                assert(wx != wy);
                if wx < wy {
                } else {
                    assert(paks0[wy].path@ != paks0[wx].path@);
                }
            }
        }
        Ok(())
    }
}

/// The model tree of one archive.
pub open spec fn spec_pak_root(pak: Pak, table: FileNameTable) -> crate::tree::SpecNode {
    crate::tree::spec_build_node(crate::tree::spec_root_node(), pak.entries@, table, pak.id)
}

/// The archives' trees folded left to right with the merge semantics.
pub open spec fn spec_fold_trees(
    acc: crate::tree::SpecNode,
    paks: Seq<Pak>,
    table: FileNameTable,
) -> crate::tree::SpecNode
    decreases paks.len(),
{
    if paks.len() == 0 {
        acc
    } else {
        spec_fold_trees(
            crate::tree::spec_combine(acc, spec_pak_root(paks[0], table)),
            paks.skip(1),
            table,
        )
    }
}

/// The model of the combined tree over a registry with a table set: the
/// empty tree with no archives, else the archives' trees folded left to
/// right.
pub open spec fn spec_combined_root(g: PakGroup) -> crate::tree::SpecNode {
    let table = g.file_name_table->Some_0;
    if g.paks@.len() == 0 {
        crate::tree::spec_default_node()
    } else {
        spec_fold_trees(spec_pak_root(g.paks@[0], table), g.paks@.skip(1), table)
    }
}

impl PakGroup {
    /// The combined file tree over all held archives, left to right. Fails
    /// exactly when no filename table is set, whatever the archive count;
    /// with no archives the empty tree is returned. With one archive its
    /// tree is returned with its totals; with more, the merged tree carries
    /// zero totals, recomputed at rendering.
    pub fn render_tree_combined(&self) -> (r: Result<FileTree, Error>)
        ensures
            match r {
                Result::Ok(t) => self.file_name_table is Some && ({
                    let table = self.file_name_table->Some_0;
                    &&& (self.paks@.len() == 0 ==> crate::tree::node_view(t.root)
                        == crate::tree::spec_default_node() && t.uncompressed_size == 0
                        && t.compressed_size == 0 && t.file_count == 0)
                    &&& (self.paks@.len() > 0 ==> crate::tree::node_view(t.root)
                        == spec_fold_trees(
                        spec_pak_root(self.paks@[0], table),
                        self.paks@.skip(1),
                        table,
                    ))
                    &&& (self.paks@.len() == 1 ==> (
                    t.uncompressed_size,
                    t.compressed_size,
                    t.file_count,
                ) == crate::tree::spec_build_totals(
                        self.paks@[0].entries@,
                        table,
                        (0u64, 0u64, 0u64),
                    ))
                    &&& (self.paks@.len() > 1 ==> t.uncompressed_size == 0 && t.compressed_size
                        == 0 && t.file_count == 0)
                }),
                Result::Err(e) => self.file_name_table is None && e == Error::MissingFileList,
            },
    {
        let table = match &self.file_name_table {
            None => {
                return Err(Error::MissingFileList);
            },
            Some(table) => table,
        };
        let n = self.paks.len();
        if n == 0 {
            return Ok(FileTree::default());
        }
        let mut tree = self.paks[0].create_tree(table);
        let ghost first = spec_pak_root(self.paks@[0], *table);
        proof {
            assert(self.paks@.skip(1).skip(0) =~= self.paks@.skip(1));
        }
        let mut i: usize = 1;
        while i < n
            invariant
                1 <= i <= n,
                n == self.paks@.len(),
                first == spec_pak_root(self.paks@[0], *table),
                spec_fold_trees(first, self.paks@.skip(1), *table) == spec_fold_trees(
                    crate::tree::node_view(tree.root),
                    self.paks@.skip(i as int),
                    *table,
                ),
                i == 1 ==> (tree.uncompressed_size, tree.compressed_size, tree.file_count)
                    == crate::tree::spec_build_totals(
                    self.paks@[0].entries@,
                    *table,
                    (0u64, 0u64, 0u64),
                ),
                i > 1 ==> tree.uncompressed_size == 0 && tree.compressed_size == 0
                    && tree.file_count == 0,
            decreases n - i,
        {
            proof {
                assert(self.paks@.skip(i as int)[0] == self.paks@[i as int]);
                assert(self.paks@.skip(i as int).skip(1) =~= self.paks@.skip(i as int + 1));
            }
            let sub_tree = self.paks[i].create_tree(table);
            tree = tree.combine(sub_tree);
            i = i + 1;
        }
        proof {
            assert(self.paks@.skip(n as int) =~= Seq::<Pak>::empty());
        }
        Ok(tree)
    }
}

/// Merging archive `a`'s tree with archive `b`'s: where `b` resolves a file
/// to a path (through directories all the way down), the combined tree
/// carries `b`'s metadata at that path; paths whose first segment `b` does
/// not use keep `a`'s subtree unchanged.
pub proof fn lemma_archive_merge(a: Pak, b: Pak, table: FileNameTable, path: Seq<Seq<char>>)
    ensures
        ({
            let ta = spec_pak_root(a, table);
            let tb = spec_pak_root(b, table);
            &&& (crate::tree::spec_node_at(tb, path) is Some && !crate::tree::spec_node_at(
                tb,
                path,
            )->Some_0.info.is_dir && (forall|k: int|
                0 <= k < path.len() ==> (#[trigger] crate::tree::spec_node_at(
                    tb,
                    path.take(k),
                )) is Some && crate::tree::spec_node_at(tb, path.take(k))->Some_0.info.is_dir)
                ==> crate::tree::spec_node_at(crate::tree::spec_combine(ta, tb), path) is Some
                && crate::tree::spec_node_at(crate::tree::spec_combine(ta, tb), path)->Some_0.info
                == crate::tree::spec_node_at(tb, path)->Some_0.info)
            &&& (path.len() >= 1 && tb.info.is_dir && crate::tree::child_index(
                tb.children,
                path[0],
            ) == -1 ==> crate::tree::spec_node_at(crate::tree::spec_combine(ta, tb), path)
                == crate::tree::spec_node_at(ta, path))
        }),
{
    let ta = spec_pak_root(a, table);
    let tb = spec_pak_root(b, table);
    crate::tree::lemma_build_wf(crate::tree::spec_root_node(), a.entries@, table, a.id);
    crate::tree::lemma_build_wf(crate::tree::spec_root_node(), b.entries@, table, b.id);
    if crate::tree::spec_node_at(tb, path) is Some && !crate::tree::spec_node_at(
        tb,
        path,
    )->Some_0.info.is_dir && (forall|k: int|
        0 <= k < path.len() ==> (#[trigger] crate::tree::spec_node_at(tb, path.take(k))) is Some
            && crate::tree::spec_node_at(tb, path.take(k))->Some_0.info.is_dir) {
        crate::tree::lemma_combine_file_wins(ta, tb, path);
    }
    if path.len() >= 1 && tb.info.is_dir && crate::tree::child_index(tb.children, path[0])
        == -1 {
        crate::tree::lemma_combine_keeps_a(ta, tb, path);
    }
}

/// Adding archives that share one canonical path leaves the registry with
/// exactly one handle for that path: under the registry invariant, no two
/// slots share a path, and `add_pak` puts the latest handle for the path at
/// the end.
pub proof fn lemma_single_handle_per_path(g: PakGroup, i: int, j: int)
    requires
        g.wf(),
        0 <= i < g.paks@.len(),
        0 <= j < g.paks@.len(),
        g.paks@[i].path@ == g.paks@[j].path@,
    ensures
        i == j,
{
    if i < j {
        assert(g.paks@[i].path@ != g.paks@[j].path@);
    }
    if j < i {
        assert(g.paks@[j].path@ != g.paks@[i].path@);
    }
}

/// Under the registry invariant, an acceptable order (`spec_order_ok`) is
/// exactly a permutation of the held ids: every held id also appears in the
/// requested order.
pub proof fn lemma_order_ok_is_permutation(paks: Seq<Pak>, order: Seq<PakId>, i: int)
    requires
        forall|x: int, y: int| 0 <= x < y < paks.len() ==> paks[x].id != paks[y].id,
        spec_order_ok(paks, order),
        0 <= i < paks.len(),
    ensures
        exists|t: int| 0 <= t < order.len() && order[t] == paks[i].id,
{
    let pak_ids = Seq::new(paks.len(), |x: int| paks[x].id);
    assert(order.no_duplicates());
    order.unique_seq_to_set();
    assert(order.to_set().len() == order.len());
    assert forall|t: int| 0 <= t < order.len() implies pak_ids.contains(
        #[trigger] order[t],
    ) by {
        lemma_id_index(paks, order[t]);
        let w = id_index(paks, order[t]);
        assert(pak_ids[w] == order[t]);
    }
    assert(order.to_set().subset_of(pak_ids.to_set())) by {
        assert forall|id: PakId| order.to_set().contains(id) implies pak_ids.to_set().contains(
            id,
        ) by {
            assert(order.contains(id));
            let t = choose|t: int| 0 <= t < order.len() && order[t] == id;
            assert(pak_ids.contains(order[t]));
        }
    }
    assert(pak_ids.no_duplicates()) by {
        assert forall|x: int, y: int|
            0 <= x < y < pak_ids.len() implies pak_ids[x] != pak_ids[y] by {
            assert(pak_ids[x] == paks[x].id);
            assert(pak_ids[y] == paks[y].id);
        }
    }
    pak_ids.unique_seq_to_set();
    vstd::set_lib::lemma_len_subset(order.to_set(), pak_ids.to_set());
    vstd::set_lib::lemma_subset_equality(order.to_set(), pak_ids.to_set());
    assert(pak_ids.contains(paks[i].id)) by {
        assert(pak_ids[i] == paks[i].id);
    }
    assert(pak_ids.to_set().contains(paks[i].id));
    assert(order.to_set().contains(paks[i].id));
    assert(order.contains(paks[i].id));
    let t = choose|t: int| 0 <= t < order.len() && order[t] == paks[i].id;
    assert(0 <= t < order.len() && order[t] == paks[i].id);
}

/// Does some archive in `paks` carry `id`?
fn has_pak_id(paks: &Vec<Pak>, id: &PakId) -> (r: bool)
    ensures
        r == (id_index(paks@, *id) >= 0),
{
    let n = paks.len();
    let mut i: usize = 0;
    while i < n
        invariant
            i <= n,
            n == paks@.len(),
            forall|k: int| 0 <= k < i ==> paks@[k].id != *id,
        decreases n - i,
    {
        if paks[i].id.0 == id.0 {
            proof {
                lemma_id_index_first(paks@, *id, i as int);
            }
            return true;
        }
        i = i + 1;
    }
    proof {
        lemma_id_index(paks@, *id);
        if id_index(paks@, *id) >= 0 {
            assert(paks@[id_index(paks@, *id)].id == *id);
        }
    }
    false
}

/// Entry counts summed with saturation.
pub open spec fn spec_total_files(paks: Seq<Pak>, acc: u64) -> u64
    decreases paks.len(),
{
    if paks.len() == 0 {
        acc
    } else {
        spec_total_files(
            paks.skip(1),
            crate::tree::sat_add_u64(acc, paks[0].entries@.len() as u64),
        )
    }
}

/// A matching index with no earlier match is what `path_index` returns.
pub proof fn lemma_path_index_first(paks: Seq<Pak>, path: Seq<char>, i: int)
    requires
        0 <= i < paks.len(),
        paks[i].path@ == path,
        forall|k: int| 0 <= k < i ==> paks[k].path@ != path,
    ensures
        path_index(paks, path) == i,
    decreases paks.len(),
{
    if i > 0 {
        assert(paks.skip(1)[i - 1] == paks[i]);
        assert forall|k: int| 0 <= k < i - 1 implies paks.skip(1)[k].path@ != path by {
            assert(paks.skip(1)[k] == paks[k + 1]);
        }
        lemma_path_index_first(paks.skip(1), path, i - 1);
    }
}

/// Removing an element keeps every other slot: `after[x]` is `before[x]`
/// below `i` and `before[x + 1]` from `i` on.
proof fn lemma_remove_elems(before: Seq<Pak>, i: int)
    requires
        0 <= i < before.len(),
    ensures
        before.remove(i).len() == before.len() - 1,
        forall|x: int|
            0 <= x < before.remove(i).len() ==> #[trigger] before.remove(i)[x] == (if x < i {
                before[x]
            } else {
                before[x + 1]
            }),
{
    before.remove_ensures(i);
    assert forall|x: int| 0 <= x < before.remove(i).len() implies #[trigger] before.remove(i)[x]
        == (if x < i {
        before[x]
    } else {
        before[x + 1]
    }) by {
        if x < i {
            assert(before.remove(i)[x] == before[x]);
        } else {
            assert(before.remove(i)[x] == before[x + 1]);
        }
    }
}

/// Removing an element keeps the registry invariant's three parts.
proof fn lemma_remove_keeps_wf(before: Seq<Pak>, after: Seq<Pak>, i: int, next_id: u64)
    requires
        0 <= i < before.len(),
        after == before.remove(i),
        forall|x: int| 0 <= x < before.len() ==> (#[trigger] before[x].id).0 < next_id,
        forall|x: int, y: int| 0 <= x < y < before.len() ==> before[x].id != before[y].id,
        forall|x: int, y: int| 0 <= x < y < before.len() ==> before[x].path@ != before[y].path@,
    ensures
        forall|x: int| 0 <= x < after.len() ==> (#[trigger] after[x].id).0 < next_id,
        forall|x: int, y: int| 0 <= x < y < after.len() ==> after[x].id != after[y].id,
        forall|x: int, y: int| 0 <= x < y < after.len() ==> after[x].path@ != after[y].path@,
{
    lemma_remove_elems(before, i);
    assert forall|x: int| 0 <= x < after.len() implies (#[trigger] after[x].id).0 < next_id by {
        assert(after[x] == (if x < i { before[x] } else { before[x + 1] }));
    }
    assert forall|x: int, y: int| 0 <= x < y < after.len() implies after[x].id != after[y].id by {
        assert(after[x] == (if x < i { before[x] } else { before[x + 1] }));
        assert(after[y] == (if y < i { before[y] } else { before[y + 1] }));
    }
    assert forall|x: int, y: int| 0 <= x < y < after.len() implies after[x].path@
        != after[y].path@ by {
        assert(after[x] == (if x < i { before[x] } else { before[x + 1] }));
        assert(after[y] == (if y < i { before[y] } else { before[y + 1] }));
    }
}

} // verus!
