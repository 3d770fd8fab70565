//! Building, merging, and rendering file trees.

use pak_engine::group::PakGroup;
use pak_engine::names::FileNameTable;
use pak_engine::pak::{Pak, PakEntry, PakId};
use pak_engine::render::{RenderTreeNode, RenderTreeOptions};
use pak_engine::tree::FileTreeNode;

fn entry(hash: u64, comp: u64, unc: u64) -> PakEntry {
    PakEntry { hash, compressed_size: comp, uncompressed_size: unc, compression_flag: false }
}

fn table(pairs: Vec<(u64, &str)>) -> FileNameTable {
    FileNameTable::from_pairs(pairs.into_iter().map(|(h, p)| (h, String::from(p))).collect())
}

fn child<'a>(node: &'a FileTreeNode, name: &str) -> &'a FileTreeNode {
    node.children
        .iter()
        .find(|c| c.info.relative_path == name)
        .unwrap_or_else(|| panic!("no child named {}", name))
}

#[test]
fn create_tree_builds_the_trie() {
    let t = table(vec![(1, "natives/stm/a.tex"), (2, "natives/stm/b.tex"), (3, "readme.txt")]);
    let pak = Pak::new(
        PakId(7),
        String::from("/p.pak"),
        vec![entry(1, 10, 100), entry(2, 20, 200), entry(3, 5, 50)],
    );
    let tree = pak.create_tree(&t);
    assert_eq!(tree.file_count, 3);
    assert_eq!(tree.uncompressed_size, 350);
    assert_eq!(tree.compressed_size, 35);
    let natives = child(&tree.root, "natives");
    assert!(natives.info.is_dir);
    assert!(natives.info.belonging_to.is_none());
    let a = child(child(natives, "stm"), "a.tex");
    assert!(!a.info.is_dir);
    assert_eq!(a.info.uncompressed_size, 100);
    assert_eq!(a.info.compressed_size, 10);
    assert_eq!(a.info.hash.unwrap().hash_u64(), 1);
    assert_eq!(a.info.belonging_to, Some(PakId(7)));
    let readme = child(&tree.root, "readme.txt");
    assert!(!readme.info.is_dir);
}

#[test]
fn unknown_hash_appears_under_synthetic_path() {
    let t = table(vec![(1, "known/file.bin")]);
    let pak = Pak::new(PakId(1), String::from("/p.pak"), vec![entry(1, 1, 1), entry(
        0xABCDEF12,
        2,
        2,
    )]);
    let tree = pak.create_tree(&t);
    let unknown_dir = child(&tree.root, "_Unknown");
    assert!(unknown_dir.info.is_dir);
    let leaf = child(unknown_dir, "ABCDEF12");
    assert!(!leaf.info.is_dir);
    assert_eq!(leaf.info.hash.unwrap().hash_u64(), 0xABCDEF12);
}

#[test]
fn merge_lets_the_later_archive_win() {
    let t = table(vec![(1, "shared/file.bin"), (2, "shared/file.bin"), (3, "only/in_a.bin")]);
    let pak_a = Pak::new(PakId(1), String::from("/a.pak"), vec![entry(1, 10, 100), entry(
        3,
        7,
        70,
    )]);
    let pak_b = Pak::new(PakId(2), String::from("/b.pak"), vec![entry(2, 20, 200)]);
    let tree_a = pak_a.create_tree(&t);
    let tree_b = pak_b.create_tree(&t);
    let combined = tree_a.combine(tree_b);
    // both archives resolve hash 1 and hash 2 to the same path: B's metadata wins
    let f = child(child(&combined.root, "shared"), "file.bin");
    assert_eq!(f.info.hash.unwrap().hash_u64(), 2);
    assert_eq!(f.info.uncompressed_size, 200);
    assert_eq!(f.info.belonging_to, Some(PakId(2)));
    // the path unique to A is preserved unchanged
    let only = child(child(&combined.root, "only"), "in_a.bin");
    assert_eq!(only.info.hash.unwrap().hash_u64(), 3);
    assert_eq!(only.info.uncompressed_size, 70);
    assert_eq!(only.info.belonging_to, Some(PakId(1)));
}

#[test]
fn combined_tree_over_the_registry() {
    let mut g = PakGroup::new();
    let _a = g.add_pak(String::from("/a.pak"), vec![entry(1, 10, 100)]);
    let b = g.add_pak(String::from("/b.pak"), vec![entry(2, 20, 200)]);
    g.set_file_name_table(table(vec![(1, "f.bin"), (2, "f.bin")]));
    let tree = g.render_tree_combined().unwrap();
    let f = tree
        .root
        .children
        .iter()
        .find(|c| c.info.relative_path == "f.bin")
        .unwrap();
    assert_eq!(f.info.belonging_to, Some(b));
    assert_eq!(f.info.uncompressed_size, 200);
}

#[test]
fn render_collapses_single_directory_chains() {
    let t = table(vec![(1, "a/b/c/file.bin")]);
    let pak = Pak::new(PakId(1), String::from("/p.pak"), vec![entry(1, 10, 100)]);
    let tree = pak.create_tree(&t);
    let options = RenderTreeOptions::new(Some(true), Some(false), Some(false));
    let rendered = RenderTreeNode::try_from_file_tree(tree, &options).unwrap();
    // the chain of single-child directories collapses into the root's name
    assert!(rendered.is_dir);
    assert_eq!(rendered.name, "/ / a / b / c");
    assert_eq!(rendered.children.len(), 1);
    assert_eq!(rendered.children[0].name, "file.bin");
    assert!(!rendered.children[0].is_dir);
}

#[test]
fn render_sorts_directories_before_files_then_by_name() {
    let t = table(vec![
        (1, "zeta.txt"),
        (2, "alpha.txt"),
        (3, "mid/inner.txt"),
        (4, "aaa/deep.txt"),
    ]);
    let pak = Pak::new(
        PakId(1),
        String::from("/p.pak"),
        vec![entry(1, 1, 1), entry(2, 1, 1), entry(3, 1, 1), entry(4, 1, 1)],
    );
    let tree = pak.create_tree(&t);
    let options = RenderTreeOptions::new(Some(false), Some(true), Some(false));
    let rendered = RenderTreeNode::try_from_file_tree(tree, &options).unwrap();
    let names: Vec<&str> = rendered.children.iter().map(|c| c.name.as_str()).collect();
    assert_eq!(names, vec!["aaa", "mid", "alpha.txt", "zeta.txt"]);
}

#[test]
fn render_recomputes_directory_sizes_bottom_up() {
    let t = table(vec![(1, "dir/a.bin"), (2, "dir/b.bin"), (3, "top.bin")]);
    let pak = Pak::new(PakId(1), String::from("/p.pak"), vec![
        entry(1, 10, 100),
        entry(2, 20, 200),
        entry(3, 1, 2),
    ]);
    let tree = pak.create_tree(&t);
    let options = RenderTreeOptions::new(Some(false), Some(true), Some(false));
    let rendered = RenderTreeNode::try_from_file_tree(tree, &options).unwrap();
    assert_eq!(rendered.uncompressed_size, 302);
    assert_eq!(rendered.compressed_size, 31);
    let dir = rendered.children.iter().find(|c| c.name == "dir").unwrap();
    assert_eq!(dir.uncompressed_size, 300);
    assert_eq!(dir.compressed_size, 30);
}

#[test]
fn render_options_defaults() {
    let d = RenderTreeOptions::default();
    assert!(d.merge_directories());
    assert!(d.sort_by_name());
    assert!(!d.sort_by_size());
    let unset = RenderTreeOptions::new(None, None, None);
    assert!(unset.merge_directories());
    assert!(unset.sort_by_name());
    assert!(!unset.sort_by_size());
}
