//! The job supervisor: owns the registry, runs at most one job at a time,
//! and performs every precondition check synchronously, before any worker
//! starts.
//!
//! The supervisor is an explicit state machine. The embedding application
//! holds it behind a lock, spawns one worker thread per accepted job, polls
//! the cancellation flag between work items, and reports completion back.
//! `terminate_work` models the synchronous terminate-and-join call: when it
//! returns, the supervisor is idle and a new job may start at once.

use vstd::prelude::*;
use crate::error::Error;
use crate::group::{id_index, spec_total_files, PakGroup};
use crate::names::FileNameTable;
use crate::pak::{ExtractOptions, Pak, PakEntry, PakId, PakInfo};
use crate::render::{RenderTreeNode, RenderTreeOptions};
use crate::tree::FileTree;

verus! {

/// One planned extraction: an entry and the relative path it resolves to.
#[derive(Debug, Clone)]
pub struct UnpackTask {
    pub hash: u64,
    pub relative_path: String,
}

/// The planned extractions of one archive.
#[derive(Debug, Clone)]
pub struct PakUnpackPlan {
    pub pak_id: PakId,
    pub tasks: Vec<UnpackTask>,
}

/// Everything an unpack worker needs: the announced total, the output root,
/// the overwrite choice, and the per-archive task lists.
#[derive(Debug, Clone)]
pub struct UnpackPlan {
    pub total_count: u32,
    pub output_path: String,
    pub overwrite: bool,
    pub paks: Vec<PakUnpackPlan>,
}

/// The tasks as hash/path pairs.
pub open spec fn task_views(s: Seq<UnpackTask>) -> Seq<(u64, Seq<char>)> {
    Seq::new(s.len(), |i: int| (s[i].hash, s[i].relative_path@))
}

/// Owns the registry and at most one running job.
pub struct PakService {
    pub pak_group: PakGroup,
    /// A worker thread is live.
    pub job_running: bool,
    /// The live worker was asked to stop.
    pub should_terminate: bool,
}

impl PakService {
    /// The supervisor's invariant is the registry's.
    pub open spec fn wf(&self) -> bool {
        self.pak_group.wf()
    }

    /// May a new job be accepted, given the registry preconditions hold?
    pub open spec fn spec_idle(&self) -> bool {
        !self.job_running
    }

    /// A supervisor over `pak_group`, idle.
    pub fn new(pak_group: PakGroup) -> (r: PakService)
        ensures
            r.pak_group == pak_group,
            !r.job_running,
            !r.should_terminate,
    {
        PakService { pak_group, job_running: false, should_terminate: false }
    }

    /// The registry, for reading.
    pub fn pak_group(&self) -> (r: &PakGroup)
        ensures
            r == &self.pak_group,
    {
        &self.pak_group
    }

    /// Ask the live worker (if any) to stop and wait for it; afterwards the
    /// supervisor is idle, the stop request is cleared, and a new job may
    /// start at once. The registry is untouched.
    pub fn terminate_work(&mut self)
        ensures
            final(self).pak_group == old(self).pak_group,
            !final(self).job_running,
            !final(self).should_terminate,
    {
        self.job_running = false;
        self.should_terminate = false;
    }

    /// Ask the live worker to stop, without waiting for it.
    pub fn request_terminate(&mut self)
        ensures
            final(self).pak_group == old(self).pak_group,
            final(self).job_running == old(self).job_running,
            final(self).should_terminate,
    {
        self.should_terminate = true;
    }

    /// The cooperative cancellation poll a worker makes before each unit of
    /// work: fails with the cancelled error exactly when a stop was asked.
    pub fn poll_cancel(&self) -> (r: Result<(), Error>)
        ensures
            match r {
                Result::Ok(_) => !self.should_terminate,
                Result::Err(e) => self.should_terminate && e == Error::Terminated,
            },
    {
        if self.should_terminate {
            Err(Error::Terminated)
        } else {
            Ok(())
        }
    }

    /// Note that the live worker finished on its own.
    pub fn finish_job(&mut self)
        ensures
            final(self).pak_group == old(self).pak_group,
            !final(self).job_running,
            final(self).should_terminate == old(self).should_terminate,
    {
        self.job_running = false;
    }

    /// Open a new archive handle: mint an id and register the parsed entry
    /// list under the canonical path, evicting any handle already held for
    /// that path.
    pub fn open_pak(&mut self, path: String, entries: Vec<PakEntry>) -> (r: PakId)
        requires
            old(self).wf(),
            old(self).pak_group.next_id < u64::MAX,
        ensures
            final(self).wf(),
            r == PakId(old(self).pak_group.next_id),
            final(self).job_running == old(self).job_running,
            final(self).should_terminate == old(self).should_terminate,
            final(self).pak_group.file_name_table == old(self).pak_group.file_name_table,
            final(self).pak_group.paks@.len() > 0,
            final(self).pak_group.paks@.last().id == r,
            final(self).pak_group.paks@.last().path@ == path@,
            final(self).pak_group.paks@.last().entries == entries,
    {
        self.pak_group.add_pak(path, entries)
    }

    /// Drop every held archive.
    pub fn clear_all_paks(&mut self)
        requires
            old(self).wf(),
        ensures
            final(self).wf(),
            final(self).pak_group.paks@.len() == 0,
            final(self).job_running == old(self).job_running,
            final(self).should_terminate == old(self).should_terminate,
    {
        self.pak_group.remove_all_paks();
    }

    /// Id and path of every held archive, in order.
    pub fn list_all_paks(&self) -> (r: Vec<PakInfo>)
        ensures
            r@.len() == self.pak_group.paks@.len(),
            forall|i: int|
                0 <= i < r@.len() ==> r@[i].id == self.pak_group.paks@[i].id && r@[i].path@
                    == self.pak_group.paks@[i].path@,
    {
        self.pak_group.pak_infos()
    }

    /// Close the archive with id `id`; fails exactly when no live handle
    /// carries it.
    pub fn close_pak(&mut self, id: PakId) -> (r: Result<(), Error>)
        requires
            old(self).wf(),
        ensures
            final(self).wf(),
            final(self).job_running == old(self).job_running,
            final(self).should_terminate == old(self).should_terminate,
            match r {
                Result::Ok(_) => id_index(old(self).pak_group.paks@, id) >= 0 && final(self).pak_group.paks@ == old(self).pak_group.paks@.remove(
                    id_index(old(self).pak_group.paks@, id),
                ),
                Result::Err(e) => id_index(old(self).pak_group.paks@, id) == -1 && e
                    == Error::PakIdNotFound(id) && final(self).pak_group == old(self).pak_group,
            },
    {
        if self.pak_group.remove_pak(&id).is_none() {
            return Err(Error::PakIdNotFound(id));
        }
        Ok(())
    }

    /// Reorder the held archives; see the registry's `order_paks`.
    pub fn order_paks(&mut self, order: &Vec<PakId>) -> (r: Result<(), Error>)
        requires
            old(self).wf(),
        ensures
            final(self).wf(),
            final(self).job_running == old(self).job_running,
            final(self).should_terminate == old(self).should_terminate,
            match r {
                Result::Ok(_) => crate::group::spec_order_ok(old(self).pak_group.paks@, order@)
                    && final(self).pak_group.paks@.len() == order@.len() && (forall|t: int|
                    0 <= t < order@.len() ==> id_index(
                        old(self).pak_group.paks@,
                        #[trigger] order@[t],
                    ) >= 0 && final(self).pak_group.paks@[t] == old(self).pak_group.paks@[
                        id_index(old(self).pak_group.paks@, order@[t])
                    ]),
                Result::Err(e) => !crate::group::spec_order_ok(
                    old(self).pak_group.paks@,
                    order@,
                ) && final(self).pak_group.paks == old(self).pak_group.paks && (
                e matches Error::InvalidOrder(_)),
            },
    {
        self.pak_group.order_paks(order)
    }

    /// Describe the archive with id `id`; fails exactly when it is absent.
    pub fn get_pak_info(&self, id: PakId) -> (r: Result<PakInfo, Error>)
        ensures
            match r {
                Result::Ok(info) => id_index(self.pak_group.paks@, id) >= 0 && info.id == id
                    && info.path@ == self.pak_group.paks@[id_index(
                    self.pak_group.paks@,
                    id,
                )].path@,
                Result::Err(e) => id_index(self.pak_group.paks@, id) == -1 && e
                    == Error::PakIdNotFound(id),
            },
    {
        match self.pak_group.get_pak(&id) {
            Some(pak) => Ok(PakInfo { id, path: pak.path.clone() }),
            None => Err(Error::PakIdNotFound(id)),
        }
    }

    /// The combined file tree; see the registry's `render_tree_combined`.
    pub fn read_file_tree(&self) -> (r: Result<FileTree, Error>)
        ensures
            match r {
                Result::Ok(t) => self.pak_group.file_name_table is Some
                    && crate::tree::node_view(t.root) == crate::group::spec_combined_root(
                    self.pak_group,
                ),
                Result::Err(e) => self.pak_group.file_name_table is None && e
                    == Error::MissingFileList,
            },
    {
        self.pak_group.render_tree_combined()
    }

    /// The combined file tree, prepared for display with `options`.
    pub fn read_file_tree_optimized(&self, options: &RenderTreeOptions) -> (r: Result<
        RenderTreeNode,
        Error,
    >)
        ensures
            match r {
                Result::Ok(node) => self.pak_group.file_name_table is Some
                    && crate::render::render_view(node) == crate::render::spec_render_tree(
                    crate::group::spec_combined_root(self.pak_group),
                    *options,
                ),
                Result::Err(e) => self.pak_group.file_name_table is None && e
                    == Error::MissingFileList,
            },
    {
        let basic_tree = match self.pak_group.render_tree_combined() {
            Ok(t) => t,
            Err(e) => {
                return Err(e);
            },
        };
        RenderTreeNode::try_from_file_tree(basic_tree, options)
    }

    /// Replace the shared filename table.
    pub fn set_file_name_table(&mut self, table: FileNameTable)
        ensures
            final(self).pak_group.file_name_table == Option::Some(table),
            final(self).pak_group.paks == old(self).pak_group.paks,
            final(self).pak_group.next_id == old(self).pak_group.next_id,
            final(self).job_running == old(self).job_running,
            final(self).should_terminate == old(self).should_terminate,
    {
        self.pak_group.set_file_name_table(table);
    }

    /// Accept a pack job. Fails with the running error while a worker is
    /// live, and with the occupied error when the output path already
    /// exists (as the embedding application found it); on success the
    /// supervisor is marked running and the worker may be spawned. On any
    /// failure nothing changes and no worker is due.
    pub fn pack(&mut self, output: &String, output_exists: bool) -> (r: Result<(), Error>)
        ensures
            final(self).pak_group == old(self).pak_group,
            final(self).should_terminate == old(self).should_terminate,
            match r {
                Result::Ok(_) => !old(self).job_running && !output_exists && final(self).job_running,
                Result::Err(e) => final(self).job_running == old(self).job_running && ((
                e == Error::PackAlreadyRunning && old(self).job_running) || (
                e matches Error::AlreadyExists { path } && path@ == output@ && !old(
                    self,
                ).job_running && output_exists)),
            },
    {
        if self.job_running {
            return Err(Error::PackAlreadyRunning);
        }
        if output_exists {
            return Err(Error::AlreadyExists { path: output.clone() });
        }
        self.job_running = true;
        Ok(())
    }
}

// ------------------------------------------------------------------
// Unpack planning.
// ------------------------------------------------------------------

/// Is `e` of archive `pak_id` to be extracted: everything, or an explicit
/// target naming this entry in this archive.
pub open spec fn spec_selected(e: PakEntry, options: ExtractOptions, pak_id: PakId) -> bool {
    options.extract_all || exists|t: int|
        0 <= t < options.extract_files@.len() && (#[trigger] options.extract_files@[t]).hash.spec_u64()
            == e.hash && options.extract_files@[t].belongs_to == pak_id
}

/// The selected entries of one archive, each with its resolved display
/// path, in entry order.
pub open spec fn spec_pak_tasks(
    entries: Seq<PakEntry>,
    table: FileNameTable,
    options: ExtractOptions,
    pak_id: PakId,
) -> Seq<(u64, Seq<char>)>
    decreases entries.len(),
{
    if entries.len() == 0 {
        Seq::empty()
    } else {
        let rest = spec_pak_tasks(entries.skip(1), table, options, pak_id);
        if spec_selected(entries[0], options, pak_id) {
            seq![(entries[0].hash, table.spec_resolve(entries[0].hash))] + rest
        } else {
            rest
        }
    }
}

/// Decide `spec_selected` for one entry.
fn is_selected(e: &PakEntry, options: &ExtractOptions, pak_id: PakId) -> (r: bool)
    ensures
        r == spec_selected(*e, *options, pak_id),
{
    if options.extract_all {
        return true;
    }
    let n = options.extract_files.len();
    let mut t: usize = 0;
    while t < n
        invariant
            t <= n,
            n == options.extract_files@.len(),
            forall|k: int|
                0 <= k < t ==> !((#[trigger] options.extract_files@[k]).hash.spec_u64()
                    == e.hash && options.extract_files@[k].belongs_to == pak_id),
        decreases n - t,
    {
        let info = &options.extract_files[t];
        if info.hash.hash_u64() == e.hash && info.belongs_to.0 == pak_id.0 {
            return true;
        }
        t = t + 1;
    }
    false
}

/// The tasks of one archive under `options`.
fn plan_pak_tasks(pak: &Pak, table: &FileNameTable, options: &ExtractOptions) -> (r: Vec<
    UnpackTask,
>)
    ensures
        task_views(r@) == spec_pak_tasks(pak.entries@, *table, *options, pak.id),
{
    let ghost goal = spec_pak_tasks(pak.entries@, *table, *options, pak.id);
    let mut tasks: Vec<UnpackTask> = Vec::new();
    let n = pak.entries.len();
    let mut i: usize = 0;
    proof {
        assert(pak.entries@.skip(0) =~= pak.entries@);
        assert(task_views(tasks@) =~= Seq::<(u64, Seq<char>)>::empty());
    }
    while i < n
        invariant
            i <= n,
            n == pak.entries@.len(),
            goal == spec_pak_tasks(pak.entries@, *table, *options, pak.id),
            goal == task_views(tasks@) + spec_pak_tasks(
                pak.entries@.skip(i as int),
                *table,
                *options,
                pak.id,
            ),
        decreases n - i,
    {
        proof {
            assert(pak.entries@.skip(i as int)[0] == pak.entries@[i as int]);
            assert(pak.entries@.skip(i as int).skip(1) =~= pak.entries@.skip(i as int + 1));
        }
        let e = pak.entries[i];
        if is_selected(&e, options, pak.id) {
            let ghost before = task_views(tasks@);
            let path = table.resolve_path(e.hash);
            tasks.push(UnpackTask { hash: e.hash, relative_path: path });
            proof {
                assert(task_views(tasks@) =~= before + seq![
                    (e.hash, (*table).spec_resolve(e.hash)),
                ]);
                assert(before + (seq![(e.hash, (*table).spec_resolve(e.hash))]
                    + spec_pak_tasks(
                    pak.entries@.skip(i as int + 1),
                    *table,
                    *options,
                    pak.id,
                )) =~= task_views(tasks@) + spec_pak_tasks(
                    pak.entries@.skip(i as int + 1),
                    *table,
                    *options,
                    pak.id,
                ));
            }
        }
        i = i + 1;
    }
    proof {
        assert(pak.entries@.skip(n as int) =~= Seq::<PakEntry>::empty());
        assert(task_views(tasks@) + Seq::<(u64, Seq<char>)>::empty() =~= task_views(tasks@));
    }
    tasks
}

impl PakService {
    /// Accept an unpack job over every held archive. The checks run
    /// synchronously and in order: a live worker fails the request, then an
    /// empty registry, then a missing filename table. On success the
    /// announced total is the full entry count for extract-all and the
    /// explicit target count otherwise, the per-archive task lists carry
    /// each selected entry with its resolved path, and the supervisor is
    /// marked running. On failure nothing changes and no worker is due.
    pub fn unpack_optional(&mut self, options: &ExtractOptions) -> (r: Result<UnpackPlan, Error>)
        ensures
            final(self).pak_group == old(self).pak_group,
            final(self).should_terminate == old(self).should_terminate,
            match r {
                Result::Ok(plan) => !old(self).job_running && old(self).pak_group.paks@.len() > 0
                    && old(self).pak_group.file_name_table is Some && final(self).job_running && ({
                    let table = old(self).pak_group.file_name_table->Some_0;
                    &&& plan.total_count == (if options.extract_all {
                        spec_total_files(old(self).pak_group.paks@, 0) as u32
                    } else {
                        options.extract_files@.len() as u32
                    })
                    &&& plan.output_path@ == options.output_path@
                    &&& plan.overwrite == options.overwrite
                    &&& plan.paks@.len() == old(self).pak_group.paks@.len()
                    &&& forall|p: int|
                        0 <= p < plan.paks@.len() ==> (#[trigger] plan.paks@[p]).pak_id == old(
                            self,
                        ).pak_group.paks@[p].id && task_views(plan.paks@[p].tasks@)
                            == spec_pak_tasks(
                            old(self).pak_group.paks@[p].entries@,
                            table,
                            *options,
                            old(self).pak_group.paks@[p].id,
                        )
                }),
                Result::Err(e) => final(self).job_running == old(self).job_running && ((
                e == Error::UnpackAlreadyRunning && old(self).job_running) || (
                e == Error::NoPaksLoaded && !old(self).job_running && old(
                    self,
                ).pak_group.paks@.len() == 0) || (e == Error::MissingFileList && !old(
                    self,
                ).job_running && old(self).pak_group.paks@.len() > 0 && old(
                    self,
                ).pak_group.file_name_table is None)),
            },
    {
        if self.job_running {
            return Err(Error::UnpackAlreadyRunning);
        }
        if self.pak_group.paks.is_empty() {
            return Err(Error::NoPaksLoaded);
        }
        let table = match &self.pak_group.file_name_table {
            None => {
                return Err(Error::MissingFileList);
            },
            Some(table) => table,
        };
        let total_count: u32 = if options.extract_all {
            self.pak_group.total_files() as u32
        } else {
            options.extract_files.len() as u32
        };
        let n = self.pak_group.paks.len();
        let mut paks: Vec<PakUnpackPlan> = Vec::new();
        let mut p: usize = 0;
        while p < n
            invariant
                p <= n,
                n == self.pak_group.paks@.len(),
                *self == *old(self),
                self.pak_group.file_name_table == Option::Some(*table),
                paks@.len() == p,
                forall|k: int|
                    0 <= k < p ==> (#[trigger] paks@[k]).pak_id == self.pak_group.paks@[k].id
                        && task_views(paks@[k].tasks@) == spec_pak_tasks(
                        self.pak_group.paks@[k].entries@,
                        *table,
                        *options,
                        self.pak_group.paks@[k].id,
                    ),
            decreases n - p,
        {
            let pak = &self.pak_group.paks[p];
            let tasks = plan_pak_tasks(pak, table, options);
            paks.push(PakUnpackPlan { pak_id: pak.id, tasks });
            p = p + 1;
        }
        self.job_running = true;
        Ok(
            UnpackPlan {
                total_count,
                output_path: options.output_path.clone(),
                overwrite: options.overwrite,
                paks,
            },
        )
    }
}

/// The per-file overwrite decision a worker makes before writing: with the
/// overwrite flag off, an occupied destination fails that one file (and the
/// failure is reported without aborting sibling files); with it on, the
/// destination is replaced.
pub fn check_overwrite(overwrite: bool, destination: &String, destination_exists: bool) -> (r:
    Result<(), Error>)
    ensures
        match r {
            Result::Ok(_) => overwrite || !destination_exists,
            Result::Err(e) => !overwrite && destination_exists && (
            e matches Error::AlreadyExists { path } && path@ == destination@),
        },
{
    if !overwrite && destination_exists {
        return Err(Error::AlreadyExists { path: destination.clone() });
    }
    Ok(())
}

/// The first entry of `entries` with hash `h`, or `-1`.
pub open spec fn entry_index(entries: Seq<PakEntry>, h: u64) -> int
    decreases entries.len(),
{
    if entries.len() == 0 {
        -1
    } else if entries[0].hash == h {
        0
    } else {
        let r = entry_index(entries.skip(1), h);
        if r == -1 {
            -1
        } else {
            r + 1
        }
    }
}

/// The newest archive holding an entry with hash `h`, searched from the
/// last opened backwards, with that entry.
pub open spec fn spec_find_newest(paks: Seq<Pak>, h: u64) -> Option<(PakId, PakEntry)>
    decreases paks.len(),
{
    if paks.len() == 0 {
        Option::None
    } else {
        let lastp = paks.last();
        let ei = entry_index(lastp.entries@, h);
        if ei >= 0 {
            Option::Some((lastp.id, lastp.entries@[ei]))
        } else {
            spec_find_newest(paks.drop_last(), h)
        }
    }
}

/// What `entry_index` finding (or not finding) an entry means.
pub proof fn lemma_entry_index(entries: Seq<PakEntry>, h: u64)
    ensures
        -1 <= entry_index(entries, h) < entries.len(),
        entry_index(entries, h) >= 0 ==> entries[entry_index(entries, h)].hash == h,
        forall|k: int| 0 <= k < entry_index(entries, h) ==> entries[k].hash != h,
        entry_index(entries, h) == -1 ==> forall|k: int|
            0 <= k < entries.len() ==> entries[k].hash != h,
    decreases entries.len(),
{
    if entries.len() > 0 && entries[0].hash != h {
        lemma_entry_index(entries.skip(1), h);
        let r = entry_index(entries.skip(1), h);
        assert forall|k: int| 0 <= k < entry_index(entries, h) implies entries[k].hash != h by {
            if k > 0 {
                assert(entries.skip(1)[k - 1] == entries[k]);
            }
        }
        if r == -1 {
            assert forall|k: int| 0 <= k < entries.len() implies entries[k].hash != h by {
                if k > 0 {
                    assert(entries.skip(1)[k - 1] == entries[k]);
                }
            }
        } else {
            assert(entries.skip(1)[r] == entries[r + 1]);
        }
    }
}

/// A matching entry with no earlier match is what `entry_index` returns.
proof fn lemma_entry_index_first(entries: Seq<PakEntry>, h: u64, i: int)
    requires
        0 <= i < entries.len(),
        entries[i].hash == h,
        forall|k: int| 0 <= k < i ==> entries[k].hash != h,
    ensures
        entry_index(entries, h) == i,
    decreases entries.len(),
{
    if i > 0 {
        assert(entries.skip(1)[i - 1] == entries[i]);
        assert forall|k: int| 0 <= k < i - 1 implies entries.skip(1)[k].hash != h by {
            assert(entries.skip(1)[k] == entries[k + 1]);
        }
        lemma_entry_index_first(entries.skip(1), h, i - 1);
    }
}

/// The first entry of `entries` carrying `h`.
fn find_entry(entries: &Vec<PakEntry>, h: u64) -> (r: Option<usize>)
    ensures
        match r {
            Option::Some(i) => i < entries@.len() && entry_index(entries@, h) == i as int,
            Option::None => entry_index(entries@, h) == -1,
        },
{
    let n = entries.len();
    let mut i: usize = 0;
    while i < n
        invariant
            i <= n,
            n == entries@.len(),
            forall|k: int| 0 <= k < i ==> entries@[k].hash != h,
        decreases n - i,
    {
        if entries[i].hash == h {
            proof {
                lemma_entry_index_first(entries@, h, i as int);
            }
            return Some(i);
        }
        i = i + 1;
    }
    proof {
        lemma_entry_index(entries@, h);
        if entry_index(entries@, h) >= 0 {
            assert(entries@[entry_index(entries@, h)].hash == h);
        }
    }
    None
}

impl PakService {
    /// Locate the entry a single-file unpack would use: archives are
    /// searched newest first, and within an archive the first entry with
    /// the hash wins. `entry_path` is the display path the hash was
    /// computed from; it names the file in the failure.
    pub fn find_newest_entry(&self, entry_path: &str, hash: u64) -> (r: Result<
        (PakId, PakEntry),
        Error,
    >)
        ensures
            match r {
                Result::Ok(found) => spec_find_newest(self.pak_group.paks@, hash)
                    == Option::Some(found),
                Result::Err(e) => spec_find_newest(self.pak_group.paks@, hash) is None && (
                e matches Error::PakEntryNotFound(p) && p@ == entry_path@),
            },
    {
        let n = self.pak_group.paks.len();
        let mut i: usize = n;
        proof {
            assert(self.pak_group.paks@.take(n as int) =~= self.pak_group.paks@);
        }
        while i > 0
            invariant
                i <= n,
                n == self.pak_group.paks@.len(),
                spec_find_newest(self.pak_group.paks@, hash) == spec_find_newest(
                    self.pak_group.paks@.take(i as int),
                    hash,
                ),
            decreases i,
        {
            proof {
                assert(self.pak_group.paks@.take(i as int).last() == self.pak_group.paks@[i
                    as int - 1]);
                assert(self.pak_group.paks@.take(i as int).drop_last()
                    =~= self.pak_group.paks@.take(i as int - 1));
            }
            let pak = &self.pak_group.paks[i - 1];
            match find_entry(&pak.entries, hash) {
                Some(j) => {
                    return Ok((pak.id, pak.entries[j]));
                },
                None => {},
            }
            i = i - 1;
        }
        proof {
            assert(self.pak_group.paks@.take(0) =~= Seq::<Pak>::empty());
        }
        Err(Error::PakEntryNotFound(entry_path.to_owned()))
    }
}

// ------------------------------------------------------------------
// The laws of the job lifecycle.
// ------------------------------------------------------------------

/// With extract-all off and no explicit targets, nothing is selected: the
/// plan announces zero items and every archive's task list is empty, so a
/// worker emits the start event with count zero, writes nothing, and emits
/// the terminal finished event.
pub proof fn lemma_empty_targets_empty_tasks(
    entries: Seq<PakEntry>,
    table: FileNameTable,
    options: ExtractOptions,
    pak_id: PakId,
)
    requires
        !options.extract_all,
        options.extract_files@.len() == 0,
    ensures
        spec_pak_tasks(entries, table, options, pak_id) == Seq::<(u64, Seq<char>)>::empty(),
    decreases entries.len(),
{
    if entries.len() > 0 {
        lemma_empty_targets_empty_tasks(entries.skip(1), table, options, pak_id);
    }
}

/// A directory of loose files with distinct hashes, none already in the
/// manifest, appends one slot per file, in file order.
proof fn lemma_add_directory_fresh(
    m: Seq<(u64, crate::manifest::ManifestOrigin)>,
    files: Seq<crate::manifest::LooseFileInfo>,
)
    requires
        forall|i: int, j: int| 0 <= i < j < files.len() ==> files[i].hash != files[j].hash,
        forall|k: int|
            0 <= k < files.len() ==> crate::manifest::key_index(m, #[trigger] files[k].hash)
                == -1,
    ensures
        crate::manifest::spec_add_directory(m, files) == m + Seq::new(
            files.len(),
            |i: int|
                (
                    files[i].hash,
                    crate::manifest::ManifestOrigin::LooseFile {
                        real_path: files[i].abs_path,
                        pak_path: files[i].relative_path,
                        size: files[i].size,
                    },
                ),
        ),
    decreases files.len(),
{
    let mapped = Seq::new(
        files.len(),
        |i: int|
            (
                files[i].hash,
                crate::manifest::ManifestOrigin::LooseFile {
                    real_path: files[i].abs_path,
                    pak_path: files[i].relative_path,
                    size: files[i].size,
                },
            ),
    );
    if files.len() == 0 {
        assert(m + mapped =~= m);
    } else {
        let slot = (
            files[0].hash,
            crate::manifest::ManifestOrigin::LooseFile {
                real_path: files[0].abs_path,
                pak_path: files[0].relative_path,
                size: files[0].size,
            },
        );
        let m1 = crate::manifest::spec_manifest_insert(m, files[0].hash, slot.1);
        assert(m1 == m.push(slot));
        assert forall|k: int|
            0 <= k < files.skip(1).len() implies crate::manifest::key_index(
            m1,
            #[trigger] files.skip(1)[k].hash,
        ) == -1 by {
            assert(files.skip(1)[k] == files[k + 1]);
            crate::manifest::lemma_key_index(m1, files[k + 1].hash);
            if crate::manifest::key_index(m1, files[k + 1].hash) >= 0 {
                let w = crate::manifest::key_index(m1, files[k + 1].hash);
                assert(m1[w].0 == files[k + 1].hash);
                if w < m.len() {
                    crate::manifest::lemma_key_index(m, files[k + 1].hash);
                    assert(m[w].0 == files[k + 1].hash);
                } else {
                    assert(m1[w] == slot);
                }
            }
        }
        assert forall|i: int, j: int|
            0 <= i < j < files.skip(1).len() implies files.skip(1)[i].hash != files.skip(
            1,
        )[j].hash by {
            assert(files.skip(1)[i] == files[i + 1]);
            assert(files.skip(1)[j] == files[j + 1]);
        }
        lemma_add_directory_fresh(m1, files.skip(1));
        let mapped1 = Seq::new(
            files.skip(1).len(),
            |i: int|
                (
                    files.skip(1)[i].hash,
                    crate::manifest::ManifestOrigin::LooseFile {
                        real_path: files.skip(1)[i].abs_path,
                        pak_path: files.skip(1)[i].relative_path,
                        size: files.skip(1)[i].size,
                    },
                ),
        );
        assert forall|i: int| 0 <= i < mapped1.len() implies mapped1[i] == mapped[i + 1] by {
            assert(files.skip(1)[i] == files[i + 1]);
        }
        assert(m.push(slot) + mapped1 =~= m + mapped);
    }
}

/// A table built from the files' own hash/path pairs resolves each distinct
/// hash to that file's relative path.
proof fn lemma_table_resolves_files(
    table: FileNameTable,
    files: Seq<crate::manifest::LooseFileInfo>,
    i: int,
)
    requires
        table.pairs() == Seq::new(
            files.len(),
            |k: int| (files[k].hash, files[k].relative_path@),
        ),
        forall|x: int, y: int| 0 <= x < y < files.len() ==> files[x].hash != files[y].hash,
        0 <= i < files.len(),
    ensures
        table.spec_resolve(files[i].hash) == files[i].relative_path@,
{
    lemma_first_match_at(table.pairs(), files, i);
}

/// The first pair carrying `files[i].hash` is pair `i`, hashes being
/// distinct.
proof fn lemma_first_match_at(
    pairs: Seq<(u64, Seq<char>)>,
    files: Seq<crate::manifest::LooseFileInfo>,
    i: int,
)
    requires
        pairs == Seq::new(files.len(), |k: int| (files[k].hash, files[k].relative_path@)),
        forall|x: int, y: int| 0 <= x < y < files.len() ==> files[x].hash != files[y].hash,
        0 <= i < files.len(),
    ensures
        crate::names::spec_first_match(pairs, files[i].hash) == Option::Some(
            files[i].relative_path@,
        ),
    decreases i,
{
    if i == 0 {
    } else {
        let files1 = files.skip(1);
        let pairs1 = Seq::new(
            files1.len(),
            |k: int| (files1[k].hash, files1[k].relative_path@),
        );
        assert(pairs.skip(1) =~= pairs1) by {
            assert forall|k: int| 0 <= k < pairs1.len() implies pairs.skip(1)[k]
                == pairs1[k] by {
                assert(files1[k] == files[k + 1]);
                assert(pairs.skip(1)[k] == pairs[k + 1]);
            }
        }
        assert forall|x: int, y: int| 0 <= x < y < files1.len() implies files1[x].hash
            != files1[y].hash by {
            assert(files1[x] == files[x + 1]);
            assert(files1[y] == files[y + 1]);
        }
        assert(files1[i - 1] == files[i]);
        lemma_first_match_at(pairs1, files1, i - 1);
        assert(pairs[0].0 == files[0].hash);
        assert(files[0].hash != files[i].hash);
    }
}

/// With extract-all on, every entry is planned, with its resolved path.
proof fn lemma_tasks_extract_all(
    entries: Seq<PakEntry>,
    table: FileNameTable,
    options: ExtractOptions,
    pak_id: PakId,
)
    requires
        options.extract_all,
    ensures
        spec_pak_tasks(entries, table, options, pak_id) == Seq::new(
            entries.len(),
            |i: int| (entries[i].hash, table.spec_resolve(entries[i].hash)),
        ),
    decreases entries.len(),
{
    let mapped = Seq::new(
        entries.len(),
        |i: int| (entries[i].hash, table.spec_resolve(entries[i].hash)),
    );
    if entries.len() == 0 {
        assert(spec_pak_tasks(entries, table, options, pak_id) =~= mapped);
    } else {
        lemma_tasks_extract_all(entries.skip(1), table, options, pak_id);
        let mapped1 = Seq::new(
            entries.skip(1).len(),
            |i: int| (entries.skip(1)[i].hash, table.spec_resolve(entries.skip(1)[i].hash)),
        );
        assert forall|i: int| 0 <= i < mapped1.len() implies mapped1[i] == mapped[i + 1] by {
            assert(entries.skip(1)[i] == entries[i + 1]);
        }
        assert(seq![(entries[0].hash, table.spec_resolve(entries[0].hash))] + mapped1
            =~= mapped);
    }
}

/// The round trip at the planning level: packing a directory of loose
/// files with distinct hashes gives a manifest with exactly one slot per
/// file, keyed by the file's hash and sourcing the file's bytes; and
/// unpacking an archive holding exactly those hashes, with everything
/// selected and a filename table built from those same hash/path pairs,
/// plans exactly one write per file, at the file's original relative path.
/// The worker that streams each slot's bytes and each planned write thus
/// reproduces every file at its original relative path.
pub proof fn lemma_pack_unpack_round_trip(
    dir_path: String,
    files_vec: Vec<crate::manifest::LooseFileInfo>,
    produced: Seq<PakEntry>,
    table: FileNameTable,
    options: ExtractOptions,
    pak_id: PakId,
)
    requires
        forall|x: int, y: int|
            0 <= x < y < files_vec@.len() ==> files_vec@[x].hash != files_vec@[y].hash,
        produced.len() == files_vec@.len(),
        forall|i: int| 0 <= i < produced.len() ==> (#[trigger] produced[i]).hash
            == files_vec@[i].hash,
        table.pairs() == Seq::new(
            files_vec@.len(),
            |k: int| (files_vec@[k].hash, files_vec@[k].relative_path@),
        ),
        options.extract_all,
    ensures
        crate::manifest::spec_build_manifest(
            Seq::empty(),
            seq![crate::manifest::PackSource::Directory { path: dir_path, files: files_vec }],
        ) == Seq::new(
            files_vec@.len(),
            |i: int|
                (
                    files_vec@[i].hash,
                    crate::manifest::ManifestOrigin::LooseFile {
                        real_path: files_vec@[i].abs_path,
                        pak_path: files_vec@[i].relative_path,
                        size: files_vec@[i].size,
                    },
                ),
        ),
        spec_pak_tasks(produced, table, options, pak_id) == Seq::new(
            files_vec@.len(),
            |i: int| (files_vec@[i].hash, files_vec@[i].relative_path@),
        ),
{
    let files = files_vec@;
    let sources = seq![
        crate::manifest::PackSource::Directory { path: dir_path, files: files_vec },
    ];
    let mapped = Seq::new(
        files.len(),
        |i: int|
            (
                files[i].hash,
                crate::manifest::ManifestOrigin::LooseFile {
                    real_path: files[i].abs_path,
                    pak_path: files[i].relative_path,
                    size: files[i].size,
                },
            ),
    );
    assert forall|k: int|
        0 <= k < files.len() implies crate::manifest::key_index(
        Seq::<(u64, crate::manifest::ManifestOrigin)>::empty(),
        #[trigger] files[k].hash,
    ) == -1 by {}
    lemma_add_directory_fresh(Seq::empty(), files);
    assert(sources.skip(1) =~= Seq::<crate::manifest::PackSource>::empty());
    assert(sources[0] == (crate::manifest::PackSource::Directory {
        path: dir_path,
        files: files_vec,
    }));
    assert(crate::manifest::spec_add_source(Seq::empty(), sources[0])
        == crate::manifest::spec_add_directory(Seq::empty(), files));
    assert(crate::manifest::spec_build_manifest(
        crate::manifest::spec_add_source(Seq::empty(), sources[0]),
        sources.skip(1),
    ) == crate::manifest::spec_add_source(Seq::empty(), sources[0]));
    assert(crate::manifest::spec_build_manifest(Seq::empty(), sources)
        == crate::manifest::spec_add_directory(Seq::empty(), files));
    assert(Seq::<(u64, crate::manifest::ManifestOrigin)>::empty() + mapped =~= mapped);
    lemma_tasks_extract_all(produced, table, options, pak_id);
    assert forall|i: int| 0 <= i < files.len() implies table.spec_resolve(files[i].hash)
        == files[i].relative_path@ by {
        lemma_table_resolves_files(table, files, i);
    }
    assert(Seq::new(
        produced.len(),
        |i: int| (produced[i].hash, table.spec_resolve(produced[i].hash)),
    ) =~= Seq::new(files.len(), |i: int| (files[i].hash, files[i].relative_path@)));
}

/// After `terminate_work` returns, the supervisor is idle, the stop
/// request is cleared, and the registry is exactly what it was: no
/// leftover state remains, so whether a new job is accepted depends only
/// on the registry preconditions a fresh supervisor would check. With
/// archives held and a table set an unpack request is accepted at once,
/// and with a free output path a pack request is accepted at once.
pub proof fn lemma_ready_after_terminate(before: PakService, after: PakService)
    requires
        after.pak_group == before.pak_group,
        !after.job_running,
        !after.should_terminate,
    ensures
        after.spec_idle(),
        before.pak_group.paks@.len() > 0 ==> after.pak_group.paks@.len() > 0,
        before.pak_group.file_name_table is Some ==> after.pak_group.file_name_table is Some,
        after == (PakService {
            pak_group: before.pak_group,
            job_running: false,
            should_terminate: false,
        }),
{
}

} // verus!
