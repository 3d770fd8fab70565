//! The pack engine's bookkeeping: classify sources, build the write
//! manifest, and lay out the write plan and the summary.
//!
//! The manifest is an insertion-ordered map from content hash to origin.
//! Inserting an existing hash replaces the origin in place, so later sources
//! override earlier ones while the slot keeps its position: last writer wins
//! at the hash level. The bytes themselves are streamed by the embedding
//! application, one plan item at a time, in manifest order.

use vstd::prelude::*;
use crate::common::JsSafeHash;
use crate::pak::PakEntry;
use crate::progress::{PackedFile, PackedFileTree, PackedPak};
use crate::text::{hex_string, spec_hex};

verus! {

/// Where the bytes of one manifest slot come from.
#[derive(Debug, Clone, PartialEq, Eq)]
pub enum ManifestOrigin {
    /// A loose file on disk, with the relative path it will carry.
    LooseFile { real_path: String, pak_path: String, size: u64 },
    /// An entry of an existing source archive.
    FromPak { pak_path: String, size: u64 },
}

/// One file of a directory source, as the embedding application walked it:
/// its location, its path relative to the source root, the content hash of
/// that relative path, and its byte size.
#[derive(Debug, Clone)]
pub struct LooseFileInfo {
    pub abs_path: String,
    pub relative_path: String,
    pub hash: u64,
    pub size: u64,
}

/// One pack source, in input order: a validated archive with its parsed
/// entry list, or a directory with the files walked under it.
#[derive(Debug, Clone)]
pub enum PackSource {
    Archive { path: String, entries: Vec<PakEntry> },
    Directory { path: String, files: Vec<LooseFileInfo> },
}

/// The magic bytes opening an archive container.
pub open spec fn spec_pak_magic() -> Seq<u8> {
    seq![65u8, 75u8, 80u8, 75u8]
}

/// Does `bytes` open with the archive container's magic, `AKPK`?
pub fn is_pak_magic(bytes: &[u8]) -> (r: bool)
    ensures
        r == (bytes@.len() >= 4 && bytes@.take(4) == spec_pak_magic()),
{
    if bytes.len() < 4 {
        return false;
    }
    let r = bytes[0] == 65 && bytes[1] == 75 && bytes[2] == 80 && bytes[3] == 75;
    proof {
        if r {
            assert(bytes@.take(4) =~= spec_pak_magic());
        } else {
            if bytes@.take(4) == spec_pak_magic() {
                assert(bytes@.take(4)[0] == bytes@[0]);
                assert(bytes@.take(4)[1] == bytes@[1]);
                assert(bytes@.take(4)[2] == bytes@[2]);
                assert(bytes@.take(4)[3] == bytes@[3]);
            }
        }
    }
    r
}

/// The insertion-ordered write manifest: content hash to origin, later
/// insertions of a held hash replacing the origin in place.
#[derive(Debug, Clone)]
pub struct PackManifest {
    pub entries: Vec<(u64, ManifestOrigin)>,
}

/// The first slot holding `hash`, or `-1`.
pub open spec fn key_index(s: Seq<(u64, ManifestOrigin)>, hash: u64) -> int
    decreases s.len(),
{
    if s.len() == 0 {
        -1
    } else if s[0].0 == hash {
        0
    } else {
        let r = key_index(s.skip(1), hash);
        if r == -1 {
            -1
        } else {
            r + 1
        }
    }
}

/// What `key_index` finding (or not finding) a slot means.
pub proof fn lemma_key_index(s: Seq<(u64, ManifestOrigin)>, hash: u64)
    ensures
        -1 <= key_index(s, hash) < s.len(),
        key_index(s, hash) >= 0 ==> s[key_index(s, hash)].0 == hash,
        forall|k: int| 0 <= k < key_index(s, hash) ==> s[k].0 != hash,
        key_index(s, hash) == -1 ==> forall|k: int| 0 <= k < s.len() ==> s[k].0 != hash,
    decreases s.len(),
{
    if s.len() > 0 && s[0].0 != hash {
        lemma_key_index(s.skip(1), hash);
        let r = key_index(s.skip(1), hash);
        assert forall|k: int| 0 <= k < key_index(s, hash) implies s[k].0 != hash by {
            if k > 0 {
                assert(s.skip(1)[k - 1] == s[k]);
            }
        }
        if r == -1 {
            assert forall|k: int| 0 <= k < s.len() implies s[k].0 != hash by {
                if k > 0 {
                    assert(s.skip(1)[k - 1] == s[k]);
                }
            }
        } else {
            assert(s.skip(1)[r] == s[r + 1]);
        }
    }
}

/// A matching slot with no earlier match is what `key_index` returns.
pub proof fn lemma_key_index_first(s: Seq<(u64, ManifestOrigin)>, hash: u64, i: int)
    requires
        0 <= i < s.len(),
        s[i].0 == hash,
        forall|k: int| 0 <= k < i ==> s[k].0 != hash,
    ensures
        key_index(s, hash) == i,
    decreases s.len(),
{
    if i > 0 {
        assert(s.skip(1)[i - 1] == s[i]);
        assert forall|k: int| 0 <= k < i - 1 implies s.skip(1)[k].0 != hash by {
            assert(s.skip(1)[k] == s[k + 1]);
        }
        lemma_key_index_first(s.skip(1), hash, i - 1);
    }
}

/// One insertion: replace the origin in the slot of `hash`, or append a new
/// slot at the end.
pub open spec fn spec_manifest_insert(
    s: Seq<(u64, ManifestOrigin)>,
    hash: u64,
    origin: ManifestOrigin,
) -> Seq<(u64, ManifestOrigin)> {
    let ki = key_index(s, hash);
    if ki >= 0 {
        s.update(ki, (hash, origin))
    } else {
        s.push((hash, origin))
    }
}

impl PackManifest {
    /// Hashes are unique across slots.
    pub open spec fn wf(&self) -> bool {
        forall|i: int, j: int| 0 <= i < j < self.entries@.len() ==> self.entries@[i].0
            != self.entries@[j].0
    }

    /// The origin recorded for `hash`, if any.
    pub open spec fn spec_get(&self, hash: u64) -> Option<ManifestOrigin> {
        let ki = key_index(self.entries@, hash);
        if ki >= 0 {
            Option::Some(self.entries@[ki].1)
        } else {
            Option::None
        }
    }

    /// An empty manifest.
    pub fn new() -> (r: PackManifest)
        ensures
            r.entries@.len() == 0,
            r.wf(),
    {
        PackManifest { entries: Vec::new() }
    }

    /// How many slots the manifest holds.
    pub fn len(&self) -> (r: usize)
        ensures
            r == self.entries@.len(),
    {
        self.entries.len()
    }

    /// Record `origin` for `hash`: the later writer wins, the slot keeps
    /// its position.
    pub fn insert(&mut self, hash: u64, origin: ManifestOrigin)
        ensures
            final(self).entries@ == spec_manifest_insert(old(self).entries@, hash, origin),
            old(self).wf() ==> final(self).wf(),
    {
        let n = self.entries.len();
        let mut i: usize = 0;
        while i < n
            invariant
                i <= n,
                n == self.entries@.len(),
                *self == *old(self),
                forall|k: int| 0 <= k < i ==> self.entries@[k].0 != hash,
            decreases n - i,
        {
            if self.entries[i].0 == hash {
                proof {
                    lemma_key_index_first(self.entries@, hash, i as int);
                }
                let _ = self.entries.remove(i);
                self.entries.insert(i, (hash, origin));
                proof {
                    assert(self.entries@ =~= old(self).entries@.update(
                        i as int,
                        (hash, origin),
                    ));
                    if old(self).wf() {
                        assert forall|x: int, y: int|
                            0 <= x < y < self.entries@.len() implies self.entries@[x].0
                            != self.entries@[y].0 by {
                            assert(self.entries@[x].0 == old(self).entries@[x].0);
                            assert(self.entries@[y].0 == old(self).entries@[y].0);
                        }
                    }
                }
                return ;
            }
            i = i + 1;
        }
        proof {
            lemma_key_index(self.entries@, hash);
            if key_index(self.entries@, hash) >= 0 {
                assert(self.entries@[key_index(self.entries@, hash)].0 == hash);
            }
        }
        self.entries.push((hash, origin));
        proof {
            if old(self).wf() {
                assert forall|x: int, y: int|
                    0 <= x < y < self.entries@.len() implies self.entries@[x].0
                    != self.entries@[y].0 by {
                    if y < self.entries@.len() - 1 {
                    } else {
                        assert(self.entries@[x] == old(self).entries@[x]);
                    }
                }
            }
        }
    }
}

// ------------------------------------------------------------------
// Building the manifest from the sources, in input order.
// ------------------------------------------------------------------

/// Every entry of an archive source inserted in order.
pub open spec fn spec_add_archive(
    m: Seq<(u64, ManifestOrigin)>,
    path: String,
    entries: Seq<PakEntry>,
) -> Seq<(u64, ManifestOrigin)>
    decreases entries.len(),
{
    if entries.len() == 0 {
        m
    } else {
        spec_add_archive(
            spec_manifest_insert(
                m,
                entries[0].hash,
                ManifestOrigin::FromPak { pak_path: path, size: entries[0].uncompressed_size },
            ),
            path,
            entries.skip(1),
        )
    }
}

/// Every walked file of a directory source inserted in order.
pub open spec fn spec_add_directory(
    m: Seq<(u64, ManifestOrigin)>,
    files: Seq<LooseFileInfo>,
) -> Seq<(u64, ManifestOrigin)>
    decreases files.len(),
{
    if files.len() == 0 {
        m
    } else {
        spec_add_directory(
            spec_manifest_insert(
                m,
                files[0].hash,
                ManifestOrigin::LooseFile {
                    real_path: files[0].abs_path,
                    pak_path: files[0].relative_path,
                    size: files[0].size,
                },
            ),
            files.skip(1),
        )
    }
}

/// One source's insertions.
pub open spec fn spec_add_source(
    m: Seq<(u64, ManifestOrigin)>,
    source: PackSource,
) -> Seq<(u64, ManifestOrigin)> {
    match source {
        PackSource::Archive { path, entries } => spec_add_archive(m, path, entries@),
        PackSource::Directory { path, files } => spec_add_directory(m, files@),
    }
}

/// All sources folded left to right.
pub open spec fn spec_build_manifest(
    m: Seq<(u64, ManifestOrigin)>,
    sources: Seq<PackSource>,
) -> Seq<(u64, ManifestOrigin)>
    decreases sources.len(),
{
    if sources.len() == 0 {
        m
    } else {
        spec_build_manifest(spec_add_source(m, sources[0]), sources.skip(1))
    }
}

impl PackManifest {
    /// Build the manifest over `sources` in input order: every archive
    /// entry and every walked loose file is keyed by its content hash, and
    /// later sources override earlier ones on a collision.
    pub fn build(sources: &Vec<PackSource>) -> (r: PackManifest)
        ensures
            r.entries@ == spec_build_manifest(Seq::empty(), sources@),
            r.wf(),
    {
        let mut m = PackManifest::new();
        let ghost goal = spec_build_manifest(Seq::empty(), sources@);
        proof {
            assert(sources@.skip(0) =~= sources@);
            assert(m.entries@ =~= Seq::<(u64, ManifestOrigin)>::empty());
        }
        let n = sources.len();
        let mut i: usize = 0;
        while i < n
            invariant
                i <= n,
                n == sources@.len(),
                m.wf(),
                goal == spec_build_manifest(Seq::empty(), sources@),
                goal == spec_build_manifest(m.entries@, sources@.skip(i as int)),
            decreases n - i,
        {
            proof {
                assert(sources@.skip(i as int)[0] == sources@[i as int]);
                assert(sources@.skip(i as int).skip(1) =~= sources@.skip(i as int + 1));
            }
            let ghost src = sources@[i as int];
            let ghost rest = sources@.skip(i as int + 1);
            match &sources[i] {
                PackSource::Archive { path, entries } => {
                    let ghost path0 = *path;
                    let ghost all = entries@;
                    proof {
                        assert(all.skip(0) =~= all);
                    }
                    let en = entries.len();
                    let mut k: usize = 0;
                    while k < en
                        invariant
                            k <= en,
                            en == all.len(),
                            m.wf(),
                            src == (PackSource::Archive { path: path0, entries: *entries }),
                            *path == path0,
                            entries@ == all,
                            goal == spec_build_manifest(
                                spec_add_archive(m.entries@, path0, all.skip(k as int)),
                                rest,
                            ),
                        decreases en - k,
                    {
                        proof {
                            assert(all.skip(k as int)[0] == all[k as int]);
                            assert(all.skip(k as int).skip(1) =~= all.skip(k as int + 1));
                        }
                        let e = entries[k];
                        m.insert(
                            e.hash,
                            ManifestOrigin::FromPak {
                                pak_path: path.clone(),
                                size: e.uncompressed_size,
                            },
                        );
                        k = k + 1;
                    }
                    proof {
                        assert(all.skip(en as int) =~= Seq::<PakEntry>::empty());
                    }
                },
                PackSource::Directory { path: _, files } => {
                    let ghost all = files@;
                    proof {
                        assert(all.skip(0) =~= all);
                        assert(src matches PackSource::Directory { files: f, .. } && f@ == all);
                    }
                    let fnum = files.len();
                    let mut k: usize = 0;
                    while k < fnum
                        invariant
                            k <= fnum,
                            fnum == all.len(),
                            m.wf(),
                            files@ == all,
                            goal == spec_build_manifest(
                                spec_add_directory(m.entries@, all.skip(k as int)),
                                rest,
                            ),
                        decreases fnum - k,
                    {
                        proof {
                            assert(all.skip(k as int)[0] == all[k as int]);
                            assert(all.skip(k as int).skip(1) =~= all.skip(k as int + 1));
                        }
                        let f = &files[k];
                        m.insert(
                            f.hash,
                            ManifestOrigin::LooseFile {
                                real_path: f.abs_path.clone(),
                                pak_path: f.relative_path.clone(),
                                size: f.size,
                            },
                        );
                        k = k + 1;
                    }
                    proof {
                        assert(all.skip(fnum as int) =~= Seq::<LooseFileInfo>::empty());
                    }
                },
            }
            i = i + 1;
        }
        proof {
            assert(sources@.skip(n as int) =~= Seq::<PackSource>::empty());
        }
        m
    }
}

// ------------------------------------------------------------------
// What the built manifest holds: the last writer of each hash.
// ------------------------------------------------------------------

/// The origin an archive source would leave for `hash`: its last entry with
/// that hash, or nothing.
pub open spec fn spec_archive_origin(path: String, entries: Seq<PakEntry>, hash: u64) -> Option<
    ManifestOrigin,
>
    decreases entries.len(),
{
    if entries.len() == 0 {
        Option::None
    } else {
        let rest = spec_archive_origin(path, entries.skip(1), hash);
        if rest is Some {
            rest
        } else if entries[0].hash == hash {
            Option::Some(
                ManifestOrigin::FromPak { pak_path: path, size: entries[0].uncompressed_size },
            )
        } else {
            Option::None
        }
    }
}

/// The origin a directory source would leave for `hash`: its last walked
/// file with that hash, or nothing.
pub open spec fn spec_directory_origin(files: Seq<LooseFileInfo>, hash: u64) -> Option<
    ManifestOrigin,
>
    decreases files.len(),
{
    if files.len() == 0 {
        Option::None
    } else {
        let rest = spec_directory_origin(files.skip(1), hash);
        if rest is Some {
            rest
        } else if files[0].hash == hash {
            Option::Some(
                ManifestOrigin::LooseFile {
                    real_path: files[0].abs_path,
                    pak_path: files[0].relative_path,
                    size: files[0].size,
                },
            )
        } else {
            Option::None
        }
    }
}

/// The origin one source would leave for `hash`.
pub open spec fn spec_source_origin(source: PackSource, hash: u64) -> Option<ManifestOrigin> {
    match source {
        PackSource::Archive { path, entries } => spec_archive_origin(path, entries@, hash),
        PackSource::Directory { path: _, files } => spec_directory_origin(files@, hash),
    }
}

/// The origin the whole source list leaves for `hash`: the origin from the
/// last source that carries it.
pub open spec fn spec_sources_origin(sources: Seq<PackSource>, hash: u64) -> Option<
    ManifestOrigin,
>
    decreases sources.len(),
{
    if sources.len() == 0 {
        Option::None
    } else {
        let rest = spec_sources_origin(sources.skip(1), hash);
        if rest is Some {
            rest
        } else {
            spec_source_origin(sources[0], hash)
        }
    }
}

/// The value the manifest holds for `hash` after one insertion: the
/// inserted origin for that hash, the old value for any other.
pub proof fn lemma_insert_get(
    s: Seq<(u64, ManifestOrigin)>,
    hash: u64,
    origin: ManifestOrigin,
    h: u64,
)
    ensures
        spec_get_at(spec_manifest_insert(s, hash, origin), h) == (if h == hash {
            Option::Some(origin)
        } else {
            spec_get_at(s, h)
        }),
{
    let r = spec_manifest_insert(s, hash, origin);
    let ki = key_index(s, hash);
    lemma_key_index(s, hash);
    lemma_key_index(s, h);
    if h == hash {
        if ki >= 0 {
            assert forall|k: int| 0 <= k < ki implies r[k].0 != h by {
                assert(r[k] == s[k]);
            }
            lemma_key_index_first(r, h, ki);
        } else {
            assert forall|k: int| 0 <= k < s.len() implies r[k].0 != h by {
                assert(r[k] == s[k]);
            }
            lemma_key_index_first(r, h, s.len() as int);
        }
    } else {
        let kh = key_index(s, h);
        if kh >= 0 {
            assert(r[kh].0 == h) by {
                if ki == kh {
                }
            }
            assert forall|k: int| 0 <= k < kh implies r[k].0 != h by {
                if ki >= 0 && k == ki {
                } else {
                    assert(r[k] == s[k]);
                }
            }
            lemma_key_index_first(r, h, kh);
            assert(r[kh] == s[kh]) by {
                if ki == kh {
                    assert(s[ki].0 == hash);
                }
            }
        } else {
            lemma_key_index(r, h);
            if key_index(r, h) >= 0 {
                let w = key_index(r, h);
                assert(r[w].0 == h);
                if ki >= 0 {
                    if w == ki {
                    } else {
                        assert(r[w] == s[w]);
                    }
                } else {
                    if w < s.len() {
                        assert(r[w] == s[w]);
                    }
                }
            }
        }
    }
}

/// The origin recorded in a slot list for `hash`, if any.
pub open spec fn spec_get_at(s: Seq<(u64, ManifestOrigin)>, hash: u64) -> Option<ManifestOrigin> {
    let ki = key_index(s, hash);
    if ki >= 0 {
        Option::Some(s[ki].1)
    } else {
        Option::None
    }
}

/// Folding an archive source: its last entry with `h` wins over the prior
/// contents; other hashes are untouched.
proof fn lemma_add_archive_get(
    m: Seq<(u64, ManifestOrigin)>,
    path: String,
    entries: Seq<PakEntry>,
    h: u64,
)
    ensures
        spec_get_at(spec_add_archive(m, path, entries), h) == (match spec_archive_origin(
            path,
            entries,
            h,
        ) {
            Option::Some(o) => Option::Some(o),
            Option::None => spec_get_at(m, h),
        }),
    decreases entries.len(),
{
    if entries.len() > 0 {
        let m1 = spec_manifest_insert(
            m,
            entries[0].hash,
            ManifestOrigin::FromPak { pak_path: path, size: entries[0].uncompressed_size },
        );
        lemma_insert_get(
            m,
            entries[0].hash,
            ManifestOrigin::FromPak { pak_path: path, size: entries[0].uncompressed_size },
            h,
        );
        lemma_add_archive_get(m1, path, entries.skip(1), h);
    }
}

/// Folding a directory source: its last file with `h` wins over the prior
/// contents; other hashes are untouched.
proof fn lemma_add_directory_get(
    m: Seq<(u64, ManifestOrigin)>,
    files: Seq<LooseFileInfo>,
    h: u64,
)
    ensures
        spec_get_at(spec_add_directory(m, files), h) == (match spec_directory_origin(files, h) {
            Option::Some(o) => Option::Some(o),
            Option::None => spec_get_at(m, h),
        }),
    decreases files.len(),
{
    if files.len() > 0 {
        let m1 = spec_manifest_insert(
            m,
            files[0].hash,
            ManifestOrigin::LooseFile {
                real_path: files[0].abs_path,
                pak_path: files[0].relative_path,
                size: files[0].size,
            },
        );
        lemma_insert_get(
            m,
            files[0].hash,
            ManifestOrigin::LooseFile {
                real_path: files[0].abs_path,
                pak_path: files[0].relative_path,
                size: files[0].size,
            },
            h,
        );
        lemma_add_directory_get(m1, files.skip(1), h);
    }
}

/// The built manifest maps each hash to the origin left by the last source
/// that carries it — later sources override earlier ones — and to nothing
/// when no source carries it. In particular, when two sources both carry a
/// hash, the manifest holds exactly one origin for it: the later source's.
pub proof fn lemma_build_last_wins(
    m: Seq<(u64, ManifestOrigin)>,
    sources: Seq<PackSource>,
    h: u64,
)
    ensures
        spec_get_at(spec_build_manifest(m, sources), h) == (match spec_sources_origin(
            sources,
            h,
        ) {
            Option::Some(o) => Option::Some(o),
            Option::None => spec_get_at(m, h),
        }),
    decreases sources.len(),
{
    if sources.len() > 0 {
        let m1 = spec_add_source(m, sources[0]);
        match sources[0] {
            PackSource::Archive { path, entries } => {
                lemma_add_archive_get(m, path, entries@, h);
            },
            PackSource::Directory { path: _, files } => {
                lemma_add_directory_get(m, files@, h);
            },
        }
        lemma_build_last_wins(m1, sources.skip(1), h);
    }
}

// ------------------------------------------------------------------
// The pack summary shown after a successful job.
// ------------------------------------------------------------------

/// The display name of one written slot: the loose file's relative path, or
/// the hash in sixteen uppercase hex digits for an archive-origin entry.
pub open spec fn spec_slot_name(slot: (u64, ManifestOrigin)) -> Seq<char> {
    match slot.1 {
        ManifestOrigin::LooseFile { pak_path, .. } => pak_path@,
        ManifestOrigin::FromPak { .. } => spec_hex(slot.0, 16),
    }
}

/// The byte size recorded for one written slot.
pub open spec fn spec_slot_size(slot: (u64, ManifestOrigin)) -> u64 {
    match slot.1 {
        ManifestOrigin::LooseFile { size, .. } => size,
        ManifestOrigin::FromPak { size, .. } => size,
    }
}

/// The summary of a finished pack job: the one produced archive and a file
/// record per written manifest slot, in write order.
pub fn build_pack_summary(output_path: &String, m: &PackManifest) -> (r: PackedFileTree)
    ensures
        r.paks@.len() == 1,
        r.paks@[0].path@ == output_path@,
        r.paks@[0].files@.len() == m.entries@.len(),
        forall|i: int|
            0 <= i < m.entries@.len() ==> {
                let f = #[trigger] r.paks@[0].files@[i];
                f.path@ == spec_slot_name(m.entries@[i]) && f.hash.spec_u64()
                    == m.entries@[i].0 && f.size == spec_slot_size(m.entries@[i])
            },
{
    let n = m.entries.len();
    let mut files: Vec<PackedFile> = Vec::new();
    let mut i: usize = 0;
    while i < n
        invariant
            i <= n,
            n == m.entries@.len(),
            files@.len() == i,
            forall|k: int|
                0 <= k < i ==> {
                    let f = #[trigger] files@[k];
                    f.path@ == spec_slot_name(m.entries@[k]) && f.hash.spec_u64()
                        == m.entries@[k].0 && f.size == spec_slot_size(m.entries@[k])
                },
        decreases n - i,
    {
        let hash = m.entries[i].0;
        let (name, size) = match &m.entries[i].1 {
            ManifestOrigin::LooseFile { pak_path, size, .. } => (pak_path.clone(), *size),
            ManifestOrigin::FromPak { size, .. } => (hex_string(hash, 16), *size),
        };
        files.push(PackedFile::new(name, JsSafeHash::from_u64(hash), size));
        i = i + 1;
    }
    let pak = PackedPak::new(output_path.clone(), files);
    let mut paks: Vec<PackedPak> = Vec::new();
    paks.push(pak);
    PackedFileTree::new(paks)
}

} // verus!
