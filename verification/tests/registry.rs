//! The archive registry: replace-on-duplicate-path, reordering, removal,
//! and the combined-tree preconditions.

use pak_engine::error::Error;
use pak_engine::group::PakGroup;
use pak_engine::names::FileNameTable;
use pak_engine::pak::{PakEntry, PakId};

fn entry(hash: u64, comp: u64, unc: u64) -> PakEntry {
    PakEntry { hash, compressed_size: comp, uncompressed_size: unc, compression_flag: false }
}

#[test]
fn add_pak_keeps_one_handle_per_path() {
    let mut g = PakGroup::new();
    let id1 = g.add_pak(String::from("/data/a.pak"), vec![entry(1, 10, 20)]);
    let id2 = g.add_pak(String::from("/data/b.pak"), vec![entry(2, 10, 20)]);
    let id3 = g.add_pak(String::from("/data/a.pak"), vec![entry(3, 10, 20)]);
    assert_ne!(id1, id3);
    let infos = g.pak_infos();
    assert_eq!(infos.len(), 2);
    // only the most recently added handle remains for the shared path
    let with_path: Vec<_> = infos.iter().filter(|i| i.path == "/data/a.pak").collect();
    assert_eq!(with_path.len(), 1);
    assert_eq!(with_path[0].id, id3);
    assert_eq!(infos[0].id, id2);
    assert_eq!(infos[1].id, id3);
}

#[test]
fn ids_are_never_reused() {
    let mut g = PakGroup::new();
    let id1 = g.add_pak(String::from("/one.pak"), vec![]);
    g.remove_pak(&id1);
    let id2 = g.add_pak(String::from("/one.pak"), vec![]);
    assert_ne!(id1, id2);
}

#[test]
fn remove_pak_reports_absence() {
    let mut g = PakGroup::new();
    let id = g.add_pak(String::from("/x.pak"), vec![entry(9, 1, 2)]);
    assert!(g.remove_pak(&id).is_some());
    assert!(g.remove_pak(&id).is_none());
}

#[test]
fn reorder_succeeds_on_exact_permutation() {
    let mut g = PakGroup::new();
    let a = g.add_pak(String::from("/a.pak"), vec![]);
    let b = g.add_pak(String::from("/b.pak"), vec![]);
    let c = g.add_pak(String::from("/c.pak"), vec![]);
    g.order_paks(&vec![c, a, b]).unwrap();
    let infos = g.pak_infos();
    assert_eq!(infos[0].id, c);
    assert_eq!(infos[1].id, a);
    assert_eq!(infos[2].id, b);
    assert_eq!(infos[0].path, "/c.pak");
}

#[test]
fn reorder_rejects_wrong_length() {
    let mut g = PakGroup::new();
    let a = g.add_pak(String::from("/a.pak"), vec![]);
    let _b = g.add_pak(String::from("/b.pak"), vec![]);
    let err = g.order_paks(&vec![a]).unwrap_err();
    assert!(matches!(err, Error::InvalidOrder(_)));
    // the order is left unchanged
    let infos = g.pak_infos();
    assert_eq!(infos[0].path, "/a.pak");
    assert_eq!(infos[1].path, "/b.pak");
}

#[test]
fn reorder_rejects_unknown_ids() {
    let mut g = PakGroup::new();
    let a = g.add_pak(String::from("/a.pak"), vec![]);
    let _b = g.add_pak(String::from("/b.pak"), vec![]);
    let err = g.order_paks(&vec![a, PakId(999)]).unwrap_err();
    assert!(matches!(err, Error::InvalidOrder(_)));
    let infos = g.pak_infos();
    assert_eq!(infos[0].path, "/a.pak");
}

#[test]
fn reorder_rejects_duplicate_ids() {
    let mut g = PakGroup::new();
    let a = g.add_pak(String::from("/a.pak"), vec![]);
    let _b = g.add_pak(String::from("/b.pak"), vec![]);
    let err = g.order_paks(&vec![a, a]).unwrap_err();
    assert!(matches!(err, Error::InvalidOrder(_)));
    let infos = g.pak_infos();
    assert_eq!(infos[1].path, "/b.pak");
}

#[test]
fn combined_tree_needs_a_table_even_when_empty() {
    let g = PakGroup::new();
    let err = g.render_tree_combined().unwrap_err();
    assert_eq!(err, Error::MissingFileList);
}

#[test]
fn combined_tree_needs_a_table_with_archives() {
    let mut g = PakGroup::new();
    g.add_pak(String::from("/a.pak"), vec![entry(1, 2, 3)]);
    let err = g.render_tree_combined().unwrap_err();
    assert_eq!(err, Error::MissingFileList);
}

#[test]
fn combined_tree_of_zero_archives_is_empty() {
    let mut g = PakGroup::new();
    g.set_file_name_table(FileNameTable::new());
    let tree = g.render_tree_combined().unwrap();
    assert_eq!(tree.file_count, 0);
    assert_eq!(tree.uncompressed_size, 0);
    assert!(tree.root.children.is_empty());
}

#[test]
fn total_files_counts_all_entries() {
    let mut g = PakGroup::new();
    g.add_pak(String::from("/a.pak"), vec![entry(1, 1, 1), entry(2, 1, 1)]);
    g.add_pak(String::from("/b.pak"), vec![entry(3, 1, 1)]);
    assert_eq!(g.total_files(), 3);
}

#[test]
fn get_pak_by_path_and_id() {
    let mut g = PakGroup::new();
    let a = g.add_pak(String::from("/a.pak"), vec![entry(5, 1, 2)]);
    assert_eq!(g.get_pak(&a).unwrap().id(), a);
    assert_eq!(g.get_pak_by_path(&String::from("/a.pak")).unwrap().id(), a);
    assert!(g.get_pak(&PakId(12345)).is_none());
    assert!(g.get_pak_by_path(&String::from("/nope.pak")).is_none());
}
