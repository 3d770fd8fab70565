//! Job lifecycle, unpack planning, packing, progress throttling, and the
//! round trip.

use pak_engine::common::JsSafeHash;
use pak_engine::error::Error;
use pak_engine::group::PakGroup;
use pak_engine::manifest::{
    build_pack_summary, LooseFileInfo, ManifestOrigin, PackManifest, PackSource,
};
use pak_engine::names::FileNameTable;
use pak_engine::pak::{ExtractFileInfo, ExtractOptions, PakEntry, PakId};
use pak_engine::progress::{job_event_trace, ProgressThrottle, WorkProgressEvent};
use pak_engine::service::{check_overwrite, PakService};

fn entry(hash: u64, comp: u64, unc: u64) -> PakEntry {
    PakEntry { hash, compressed_size: comp, uncompressed_size: unc, compression_flag: false }
}

fn table(pairs: Vec<(u64, &str)>) -> FileNameTable {
    FileNameTable::from_pairs(pairs.into_iter().map(|(h, p)| (h, String::from(p))).collect())
}

fn options(extract_all: bool, targets: Vec<(u64, PakId)>) -> ExtractOptions {
    ExtractOptions {
        output_path: String::from("/out"),
        overwrite: true,
        extract_all,
        extract_files: targets
            .into_iter()
            .map(|(h, id)| ExtractFileInfo { hash: JsSafeHash::from_u64(h), belongs_to: id })
            .collect(),
    }
}

fn ready_service() -> (PakService, PakId) {
    let mut g = PakGroup::new();
    let id = g.add_pak(String::from("/a.pak"), vec![entry(1, 10, 100), entry(2, 20, 200)]);
    g.set_file_name_table(table(vec![(1, "dir/one.bin"), (2, "dir/two.bin")]));
    (PakService::new(g), id)
}

#[test]
fn unpack_with_no_targets_plans_nothing() {
    let (mut s, _id) = ready_service();
    let plan = s.unpack_optional(&options(false, vec![])).unwrap();
    assert_eq!(plan.total_count, 0);
    assert!(plan.paks.iter().all(|p| p.tasks.is_empty()));
    // the worker's event stream is the start event with count zero and the
    // terminal finished event, nothing else
    let events = job_event_trace::<u32>(plan.total_count, vec![], None);
    assert_eq!(events.len(), 2);
    assert!(matches!(events[0], WorkProgressEvent::WorkStart { count: 0 }));
    assert!(matches!(events[1], WorkProgressEvent::WorkFinished(None)));
}

#[test]
fn unpack_extract_all_plans_every_entry() {
    let (mut s, id) = ready_service();
    let plan = s.unpack_optional(&options(true, vec![])).unwrap();
    assert_eq!(plan.total_count, 2);
    assert_eq!(plan.paks.len(), 1);
    assert_eq!(plan.paks[0].pak_id, id);
    let tasks = &plan.paks[0].tasks;
    assert_eq!(tasks.len(), 2);
    assert_eq!(tasks[0].hash, 1);
    assert_eq!(tasks[0].relative_path, "dir/one.bin");
    assert_eq!(tasks[1].relative_path, "dir/two.bin");
}

#[test]
fn unpack_explicit_targets_select_by_archive() {
    let (mut s, id) = ready_service();
    let plan = s.unpack_optional(&options(false, vec![(2, id), (2, PakId(999))])).unwrap();
    assert_eq!(plan.total_count, 2);
    let tasks = &plan.paks[0].tasks;
    assert_eq!(tasks.len(), 1);
    assert_eq!(tasks[0].hash, 2);
    assert_eq!(tasks[0].relative_path, "dir/two.bin");
}

#[test]
fn unpack_preconditions_in_order() {
    let mut s = PakService::new(PakGroup::new());
    assert_eq!(s.unpack_optional(&options(true, vec![])).unwrap_err(), Error::NoPaksLoaded);
    let mut g = PakGroup::new();
    g.add_pak(String::from("/a.pak"), vec![entry(1, 1, 1)]);
    let mut s = PakService::new(g);
    assert_eq!(s.unpack_optional(&options(true, vec![])).unwrap_err(), Error::MissingFileList);
}

#[test]
fn second_job_fails_until_terminated() {
    let (mut s, _id) = ready_service();
    s.unpack_optional(&options(true, vec![])).unwrap();
    assert_eq!(
        s.unpack_optional(&options(true, vec![])).unwrap_err(),
        Error::UnpackAlreadyRunning
    );
    assert_eq!(
        s.pack(&String::from("/out.pak"), false).unwrap_err(),
        Error::PackAlreadyRunning
    );
    s.terminate_work();
    // after terminate returns a new job starts at once, with no leftover state
    let plan = s.unpack_optional(&options(true, vec![])).unwrap();
    assert_eq!(plan.total_count, 2);
}

#[test]
fn finished_worker_frees_the_supervisor() {
    let (mut s, _id) = ready_service();
    s.unpack_optional(&options(true, vec![])).unwrap();
    s.finish_job();
    s.pack(&String::from("/out.pak"), false).unwrap();
}

#[test]
fn pack_rejects_existing_output() {
    let (mut s, _id) = ready_service();
    let err = s.pack(&String::from("/somewhere/out.pak"), true).unwrap_err();
    match err {
        Error::AlreadyExists { path } => assert_eq!(path, "/somewhere/out.pak"),
        other => panic!("unexpected error: {:?}", other),
    }
    // no worker was accepted: the supervisor is still idle
    s.pack(&String::from("/somewhere/out.pak"), false).unwrap();
}

#[test]
fn cancellation_is_polled() {
    let (mut s, _id) = ready_service();
    assert!(s.poll_cancel().is_ok());
    s.request_terminate();
    assert_eq!(s.poll_cancel().unwrap_err(), Error::Terminated);
    s.terminate_work();
    assert!(s.poll_cancel().is_ok());
}

#[test]
fn manifest_keeps_one_origin_per_hash_later_source_wins() {
    let sources = vec![
        PackSource::Archive {
            path: String::from("/first.pak"),
            entries: vec![entry(0xAA, 1, 10), entry(0xBB, 2, 20)],
        },
        PackSource::Archive {
            path: String::from("/second.pak"),
            entries: vec![entry(0xAA, 3, 30)],
        },
    ];
    let m = PackManifest::build(&sources);
    assert_eq!(m.len(), 2);
    // exactly one slot for the shared hash, kept at its first position,
    // with the later source as origin
    assert_eq!(m.entries[0].0, 0xAA);
    assert_eq!(
        m.entries[0].1,
        ManifestOrigin::FromPak { pak_path: String::from("/second.pak"), size: 30 }
    );
    assert_eq!(m.entries[1].0, 0xBB);
    assert_eq!(
        m.entries[1].1,
        ManifestOrigin::FromPak { pak_path: String::from("/first.pak"), size: 20 }
    );
}

#[test]
fn manifest_mixes_directories_and_archives() {
    let sources = vec![
        PackSource::Directory {
            path: String::from("/loose"),
            files: vec![LooseFileInfo {
                abs_path: String::from("/loose/a.bin"),
                relative_path: String::from("a.bin"),
                hash: 0xAA,
                size: 5,
            }],
        },
        PackSource::Archive {
            path: String::from("/late.pak"),
            entries: vec![entry(0xAA, 1, 7)],
        },
    ];
    let m = PackManifest::build(&sources);
    assert_eq!(m.len(), 1);
    assert_eq!(
        m.entries[0].1,
        ManifestOrigin::FromPak { pak_path: String::from("/late.pak"), size: 7 }
    );
}

#[test]
fn pack_summary_names_loose_files_and_hex_hashes() {
    let sources = vec![
        PackSource::Directory {
            path: String::from("/loose"),
            files: vec![LooseFileInfo {
                abs_path: String::from("/loose/sub/a.bin"),
                relative_path: String::from("sub/a.bin"),
                hash: 0x11,
                size: 5,
            }],
        },
        PackSource::Archive { path: String::from("/src.pak"), entries: vec![entry(0x22, 1, 7)] },
    ];
    let m = PackManifest::build(&sources);
    let summary = build_pack_summary(&String::from("/out.pak"), &m);
    assert_eq!(summary.paks.len(), 1);
    assert_eq!(summary.paks[0].path, "/out.pak");
    let files = &summary.paks[0].files;
    assert_eq!(files.len(), 2);
    assert_eq!(files[0].path, "sub/a.bin");
    assert_eq!(files[0].hash.hash_u64(), 0x11);
    assert_eq!(files[0].size, 5);
    assert_eq!(files[1].path, "0000000000000022");
    assert_eq!(files[1].size, 7);
}

#[test]
fn pack_then_unpack_round_trip_at_the_plan_level() {
    // pack a directory of three loose files
    let files = vec![
        ("/d/one.bin", "one.bin", 0x101u64, 11u64),
        ("/d/sub/two.bin", "sub/two.bin", 0x102, 22),
        ("/d/three.bin", "three.bin", 0x103, 33),
    ];
    let sources = vec![PackSource::Directory {
        path: String::from("/d"),
        files: files
            .iter()
            .map(|(a, r, h, s)| LooseFileInfo {
                abs_path: String::from(*a),
                relative_path: String::from(*r),
                hash: *h,
                size: *s,
            })
            .collect(),
    }];
    let m = PackManifest::build(&sources);
    assert_eq!(m.len(), 3);
    // the produced archive holds exactly the manifest's hashes
    let produced: Vec<PakEntry> = m.entries.iter().map(|(h, o)| {
        let size = match o {
            ManifestOrigin::LooseFile { size, .. } => *size,
            ManifestOrigin::FromPak { size, .. } => *size,
        };
        entry(*h, size, size)
    }).collect();
    // a filename table built from those same relative paths
    let t = table(files.iter().map(|(_, r, h, _)| (*h, *r)).collect());
    let mut g = PakGroup::new();
    g.add_pak(String::from("/out.pak"), produced);
    g.set_file_name_table(t);
    let mut s = PakService::new(g);
    let plan = s.unpack_optional(&options(true, vec![])).unwrap();
    // every file is planned back at its original relative path
    let tasks = &plan.paks[0].tasks;
    assert_eq!(tasks.len(), 3);
    for (i, (_, rel, h, _)) in files.iter().enumerate() {
        assert_eq!(tasks[i].hash, *h);
        assert_eq!(tasks[i].relative_path, *rel);
    }
}

#[test]
fn throttle_counts_every_completion_and_limits_events() {
    let mut t = ProgressThrottle::new(100);
    let (c1, emit1) = t.file_done(5);
    assert_eq!(c1, 1);
    assert!(emit1);
    let (c2, emit2) = t.file_done(50);
    assert_eq!(c2, 2);
    assert!(!emit2);
    let (c3, emit3) = t.file_done(104);
    assert_eq!(c3, 3);
    assert!(!emit3);
    let (c4, emit4) = t.file_done(105);
    assert_eq!(c4, 4);
    assert!(emit4);
    // suppressed calls still advanced the counter
    let (c5, _) = t.file_done(106);
    assert_eq!(c5, 5);
}

#[test]
fn event_trace_frames_items() {
    let events = job_event_trace(3, vec!["a", "b", "c"], Some("done"));
    assert_eq!(events.len(), 5);
    assert!(matches!(events[0], WorkProgressEvent::WorkStart { count: 3 }));
    assert!(matches!(events[1], WorkProgressEvent::FileDone("a")));
    assert!(matches!(events[3], WorkProgressEvent::FileDone("c")));
    assert!(matches!(events[4], WorkProgressEvent::WorkFinished(Some("done"))));
}

#[test]
fn find_newest_entry_searches_backwards() {
    let mut g = PakGroup::new();
    let _old = g.add_pak(String::from("/old.pak"), vec![entry(0x5, 1, 10)]);
    let newer = g.add_pak(String::from("/new.pak"), vec![entry(0x5, 2, 20)]);
    let s = PakService::new(g);
    let (id, e) = s.find_newest_entry("some/path.bin", 0x5).unwrap();
    assert_eq!(id, newer);
    assert_eq!(e.uncompressed_size, 20);
    let err = s.find_newest_entry("missing/path.bin", 0x77).unwrap_err();
    match err {
        Error::PakEntryNotFound(p) => assert_eq!(p, "missing/path.bin"),
        other => panic!("unexpected error: {:?}", other),
    }
}

#[test]
fn service_registry_delegates() {
    let (mut s, id) = ready_service();
    assert_eq!(s.list_all_paks().len(), 1);
    let info = s.get_pak_info(id).unwrap();
    assert_eq!(info.path, "/a.pak");
    assert_eq!(s.get_pak_info(PakId(404)).unwrap_err(), Error::PakIdNotFound(PakId(404)));
    assert!(s.read_file_tree().is_ok());
    assert_eq!(s.close_pak(PakId(404)).unwrap_err(), Error::PakIdNotFound(PakId(404)));
    s.close_pak(id).unwrap();
    assert!(s.list_all_paks().is_empty());
    s.clear_all_paks();
}

#[test]
fn overwrite_flag_is_authoritative() {
    assert!(check_overwrite(true, &String::from("/out/f.bin"), true).is_ok());
    assert!(check_overwrite(false, &String::from("/out/f.bin"), false).is_ok());
    let err = check_overwrite(false, &String::from("/out/f.bin"), true).unwrap_err();
    match err {
        Error::AlreadyExists { path } => assert_eq!(path, "/out/f.bin"),
        other => panic!("unexpected error: {:?}", other),
    }
}

#[test]
fn error_labels_are_stable() {
    assert_eq!(Error::MissingFileList.label(), "missing file list");
    assert_eq!(Error::Terminated.label(), "terminated");
    assert_eq!(Error::Internal(String::from("x")).label(), "internal error");
}
