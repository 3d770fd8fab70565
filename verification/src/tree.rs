//! The virtual file tree: a trie of path segments built from archive entries
//! and the filename table, merged across archives, and rendered for display.
//!
//! The executable nodes keep their children in a vector; the mathematical
//! model (`SpecNode`) mirrors them with sequences, and every tree operation
//! is specified as a function on that model.

use vstd::prelude::*;
use crate::common::JsSafeHash;
use crate::names::FileNameTable;
use crate::pak::{PakEntry, PakId};
use crate::text::{spec_split_path, split_path};

verus! {

// ------------------------------------------------------------------
// The mathematical model of a tree node.
// ------------------------------------------------------------------

/// Model of one node's payload.
pub struct SpecNodeInfo {
    pub is_dir: bool,
    pub name: Seq<char>,
    pub hash: Option<u64>,
    pub uncompressed_size: u64,
    pub compressed_size: u64,
    pub belonging_to: Option<PakId>,
}

/// Model of one tree node.
pub struct SpecNode {
    pub info: SpecNodeInfo,
    pub children: Seq<SpecNode>,
}

// ------------------------------------------------------------------
// Executable nodes and their views.
// ------------------------------------------------------------------

/// Payload of one tree node.
#[derive(Debug, Clone)]
pub struct NodeInfo {
    pub is_dir: bool,
    /// The path segment this node stands for (`/` for the root).
    pub relative_path: String,
    /// Content hash, for file nodes.
    pub hash: Option<JsSafeHash>,
    pub uncompressed_size: u64,
    pub compressed_size: u64,
    /// The archive a file node came from; `None` for directories.
    pub belonging_to: Option<PakId>,
}

/// One node of the file tree; children are keyed by their segment name.
#[derive(Debug)]
pub struct FileTreeNode {
    pub info: NodeInfo,
    pub children: Vec<FileTreeNode>,
}

/// A whole tree: the root node plus totals over the entries that built it.
#[derive(Debug)]
pub struct FileTree {
    pub root: FileTreeNode,
    pub uncompressed_size: u64,
    pub compressed_size: u64,
    pub file_count: u64,
}

/// The model of a node payload.
pub open spec fn info_view(info: NodeInfo) -> SpecNodeInfo {
    SpecNodeInfo {
        is_dir: info.is_dir,
        name: info.relative_path@,
        hash: match info.hash {
            Option::Some(h) => Option::Some(h.spec_u64()),
            Option::None => Option::None,
        },
        uncompressed_size: info.uncompressed_size,
        compressed_size: info.compressed_size,
        belonging_to: info.belonging_to,
    }
}

/// The model of a node.
pub open spec fn node_view(n: FileTreeNode) -> SpecNode
    decreases n,
{
    SpecNode { info: info_view(n.info), children: nodes_view(n.children@) }
}

/// The model of a sequence of nodes.
pub open spec fn nodes_view(s: Seq<FileTreeNode>) -> Seq<SpecNode>
    decreases s,
{
    if s.len() == 0 {
        Seq::empty()
    } else {
        seq![node_view(s[0])] + nodes_view(s.skip(1))
    }
}

/// `nodes_view` maps the sequence elementwise.
pub proof fn lemma_nodes_view(s: Seq<FileTreeNode>)
    ensures
        nodes_view(s).len() == s.len(),
        forall|i: int| 0 <= i < s.len() ==> nodes_view(s)[i] == node_view(s[i]),
    decreases s,
{
    if s.len() > 0 {
        lemma_nodes_view(s.skip(1));
        assert forall|i: int| 0 <= i < s.len() implies nodes_view(s)[i] == node_view(s[i]) by {
            if i > 0 {
                assert(nodes_view(s)[i] == nodes_view(s.skip(1))[i - 1]);
                assert(s.skip(1)[i - 1] == s[i]);
            }
        }
    }
}

// ------------------------------------------------------------------
// Locating a child by segment name.
// ------------------------------------------------------------------

/// The first index of a child named `name`, or `-1` when there is none.
pub open spec fn child_index(kids: Seq<SpecNode>, name: Seq<char>) -> int
    decreases kids.len(),
{
    if kids.len() == 0 {
        -1
    } else if kids[0].info.name == name {
        0
    } else {
        let r = child_index(kids.skip(1), name);
        if r == -1 {
            -1
        } else {
            r + 1
        }
    }
}

/// What `child_index` finding (or not finding) an index means.
pub proof fn lemma_child_index(kids: Seq<SpecNode>, name: Seq<char>)
    ensures
        -1 <= child_index(kids, name) < kids.len(),
        child_index(kids, name) >= 0 ==> kids[child_index(kids, name)].info.name == name,
        forall|k: int|
            0 <= k < child_index(kids, name) ==> kids[k].info.name != name,
        child_index(kids, name) == -1 ==> forall|k: int|
            0 <= k < kids.len() ==> kids[k].info.name != name,
    decreases kids.len(),
{
    if kids.len() > 0 && kids[0].info.name != name {
        lemma_child_index(kids.skip(1), name);
        let r = child_index(kids.skip(1), name);
        assert forall|k: int| 0 <= k < child_index(kids, name) implies kids[k].info.name
            != name by {
            if k > 0 {
                assert(kids.skip(1)[k - 1] == kids[k]);
            }
        }
        if r == -1 {
            assert forall|k: int| 0 <= k < kids.len() implies kids[k].info.name != name by {
                if k > 0 {
                    assert(kids.skip(1)[k - 1] == kids[k]);
                }
            }
        } else {
            assert(kids.skip(1)[r] == kids[r + 1]);
        }
    }
}

/// A matching index with no earlier match is what `child_index` returns.
pub proof fn lemma_child_index_first(kids: Seq<SpecNode>, name: Seq<char>, i: int)
    requires
        0 <= i < kids.len(),
        kids[i].info.name == name,
        forall|k: int| 0 <= k < i ==> kids[k].info.name != name,
    ensures
        child_index(kids, name) == i,
    decreases kids.len(),
{
    if i > 0 {
        assert(kids.skip(1)[i - 1] == kids[i]);
        assert forall|k: int| 0 <= k < i - 1 implies kids.skip(1)[k].info.name != name by {
            assert(kids.skip(1)[k] == kids[k + 1]);
        }
        lemma_child_index_first(kids.skip(1), name, i - 1);
    }
}

/// Find the child of `children` named `name`.
fn find_child(children: &Vec<FileTreeNode>, name: &String) -> (r: Option<usize>)
    ensures
        match r {
            Option::Some(j) => j < children@.len() && child_index(nodes_view(children@), name@)
                == j as int,
            Option::None => child_index(nodes_view(children@), name@) == -1,
        },
{
    proof {
        lemma_nodes_view(children@);
    }
    let n = children.len();
    let mut i: usize = 0;
    while i < n
        invariant
            i <= n,
            n == children@.len(),
            nodes_view(children@).len() == n,
            forall|k: int|
                0 <= k < n ==> nodes_view(children@)[k] == node_view(children@[k]),
            forall|k: int| 0 <= k < i ==> nodes_view(children@)[k].info.name != name@,
        decreases n - i,
    {
        if children[i].info.relative_path.eq(name) {
            proof {
                lemma_child_index_first(nodes_view(children@), name@, i as int);
            }
            return Some(i);
        }
        i = i + 1;
    }
    proof {
        lemma_child_index(nodes_view(children@), name@);
        if child_index(nodes_view(children@), name@) >= 0 {
            assert(nodes_view(children@)[child_index(nodes_view(children@), name@)].info.name
                == name@);
        }
    }
    None
}

// ------------------------------------------------------------------
// Building a tree from an archive's entries.
// ------------------------------------------------------------------

/// Addition on totals, stopping at the largest representable value.
pub open spec fn sat_add_u64(a: u64, b: u64) -> u64 {
    if a + b > u64::MAX { u64::MAX } else { (a + b) as u64 }
}

/// Add `a` and `b`, stopping at the largest representable value.
pub fn sat_add(a: u64, b: u64) -> (r: u64)
    ensures
        r == sat_add_u64(a, b),
{
    if a > u64::MAX - b {
        u64::MAX
    } else {
        a + b
    }
}

/// A node as first created while walking a path: no sizes, no hash, and an
/// owner only for file nodes.
pub open spec fn spec_fresh_node(name: Seq<char>, is_dir: bool, owner: PakId) -> SpecNode {
    SpecNode {
        info: SpecNodeInfo {
            is_dir,
            name,
            hash: Option::None,
            uncompressed_size: 0,
            compressed_size: 0,
            belonging_to: if is_dir { Option::None } else { Option::Some(owner) },
        },
        children: Seq::empty(),
    }
}

/// The leaf fields an entry stamps onto its node: sizes and content hash.
pub open spec fn spec_set_leaf(n: SpecNode, entry: PakEntry) -> SpecNode {
    SpecNode {
        info: SpecNodeInfo {
            hash: Option::Some(entry.hash),
            uncompressed_size: entry.uncompressed_size,
            compressed_size: entry.compressed_size,
            ..n.info
        },
        children: n.children,
    }
}

/// Insert one entry's resolved path into the trie: walk or create a child
/// for each segment, and stamp the entry's metadata on the last one.
pub open spec fn spec_insert(
    node: SpecNode,
    segs: Seq<Seq<char>>,
    entry: PakEntry,
    owner: PakId,
) -> SpecNode
    decreases segs.len(),
{
    if segs.len() == 0 {
        node
    } else {
        let name = segs[0];
        let last = segs.len() == 1;
        let j = child_index(node.children, name);
        let child0 = if j >= 0 {
            node.children[j]
        } else {
            spec_fresh_node(name, !last, owner)
        };
        let child1 = if last {
            spec_set_leaf(child0, entry)
        } else {
            spec_insert(child0, segs.skip(1), entry, owner)
        };
        SpecNode {
            info: node.info,
            children: if j >= 0 {
                node.children.update(j, child1)
            } else {
                node.children.push(child1)
            },
        }
    }
}

/// Make a fresh node for the segment `name`.
fn make_node(name: String, is_dir: bool, owner: PakId) -> (r: FileTreeNode)
    ensures
        node_view(r) == spec_fresh_node(name@, is_dir, owner),
{
    let r = FileTreeNode {
        info: NodeInfo {
            is_dir,
            relative_path: name,
            hash: None,
            uncompressed_size: 0,
            compressed_size: 0,
            belonging_to: if is_dir { None } else { Some(owner) },
        },
        children: Vec::new(),
    };
    proof {
        assert(nodes_view(r.children@) =~= Seq::<SpecNode>::empty());
    }
    r
}

/// Stamp an entry's sizes and hash onto a node.
fn set_leaf(node: FileTreeNode, entry: &PakEntry) -> (r: FileTreeNode)
    ensures
        node_view(r) == spec_set_leaf(node_view(node), *entry),
{
    let mut node = node;
    node.info.uncompressed_size = entry.uncompressed_size;
    node.info.compressed_size = entry.compressed_size;
    node.info.hash = Some(JsSafeHash::from_u64(entry.hash));
    node
}

/// Insert the path `segs[i..]` of `entry` below `node`.
fn insert_entry_path(
    node: FileTreeNode,
    segs: &Vec<String>,
    i: usize,
    entry: &PakEntry,
    owner: PakId,
) -> (r: FileTreeNode)
    requires
        i <= segs@.len(),
    ensures
        node_view(r) == spec_insert(
            node_view(node),
            segs.deep_view().skip(i as int),
            *entry,
            owner,
        ),
    decreases segs@.len() - i,
{
    let ghost rest = segs.deep_view().skip(i as int);
    if i == segs.len() {
        proof {
            assert(rest =~= Seq::<Seq<char>>::empty());
        }
        return node;
    }
    proof {
        assert(rest[0] == segs.deep_view()[i as int]);
        assert(rest.skip(1) =~= segs.deep_view().skip(i as int + 1));
    }
    let last = i + 1 == segs.len();
    let mut node = node;
    let ghost nv = node_view(node);
    let ghost kids0 = node.children@;
    let jopt = find_child(&node.children, &segs[i]);
    match jopt {
        Some(j) => {
            proof {
                lemma_nodes_view(kids0);
            }
            let child0 = node.children.remove(j);
            let child1 = if last {
                set_leaf(child0, entry)
            } else {
                insert_entry_path(child0, segs, i + 1, entry, owner)
            };
            node.children.insert(j, child1);
            proof {
                assert(node.children@ =~= kids0.update(j as int, node.children@[j as int]));
                lemma_nodes_view(node.children@);
                assert(nodes_view(node.children@) =~= nv.children.update(
                    j as int,
                    node_view(node.children@[j as int]),
                ));
            }
        },
        None => {
            let name = segs[i].clone();
            let child0 = make_node(name, !last, owner);
            let child1 = if last {
                set_leaf(child0, entry)
            } else {
                insert_entry_path(child0, segs, i + 1, entry, owner)
            };
            node.children.push(child1);
            proof {
                lemma_nodes_view(kids0);
                lemma_nodes_view(node.children@);
                assert(nodes_view(node.children@) =~= nv.children.push(
                    node_view(node.children@[node.children@.len() - 1]),
                ));
            }
        },
    }
    node
}

/// The display path of `e`, split into segments.
pub open spec fn spec_entry_segs(e: PakEntry, table: FileNameTable) -> Seq<Seq<char>> {
    spec_split_path(table.spec_resolve(e.hash))
}

/// The root all trees start from.
pub open spec fn spec_root_node() -> SpecNode {
    SpecNode {
        info: SpecNodeInfo {
            is_dir: true,
            name: "/"@,
            hash: Option::None,
            uncompressed_size: 0,
            compressed_size: 0,
            belonging_to: Option::None,
        },
        children: Seq::empty(),
    }
}

/// Fold every entry's resolved path into the trie, in entry order.
pub open spec fn spec_build_node(
    root: SpecNode,
    entries: Seq<PakEntry>,
    table: FileNameTable,
    owner: PakId,
) -> SpecNode
    decreases entries.len(),
{
    if entries.len() == 0 {
        root
    } else {
        spec_build_node(
            spec_insert(root, spec_entry_segs(entries[0], table), entries[0], owner),
            entries.skip(1),
            table,
            owner,
        )
    }
}

/// Totals over the entries whose resolved path is non-empty: uncompressed
/// bytes, compressed bytes, file count, each saturating.
pub open spec fn spec_build_totals(
    entries: Seq<PakEntry>,
    table: FileNameTable,
    acc: (u64, u64, u64),
) -> (u64, u64, u64)
    decreases entries.len(),
{
    if entries.len() == 0 {
        acc
    } else {
        let e = entries[0];
        let acc1 = if spec_entry_segs(e, table).len() > 0 {
            (
                sat_add_u64(acc.0, e.uncompressed_size),
                sat_add_u64(acc.1, e.compressed_size),
                sat_add_u64(acc.2, 1),
            )
        } else {
            acc
        };
        spec_build_totals(entries.skip(1), table, acc1)
    }
}

impl crate::pak::Pak {
    /// Build this archive's file tree: resolve each entry's display path via
    /// the table (or the synthetic fallback), walk or create the trie nodes
    /// per segment, stamp the entry's metadata on the leaf, and total the
    /// sizes and the file count at the root.
    pub fn create_tree(&self, name_table: &FileNameTable) -> (r: FileTree)
        ensures
            node_view(r.root) == spec_build_node(
                spec_root_node(),
                self.entries@,
                *name_table,
                self.id,
            ),
            (r.uncompressed_size, r.compressed_size, r.file_count) == spec_build_totals(
                self.entries@,
                *name_table,
                (0u64, 0u64, 0u64),
            ),
    {
        let mut root = make_node(String::from_str("/"), true, self.id);
        proof {
            assert(node_view(root) == spec_root_node());
            assert(self.entries@.skip(0) =~= self.entries@);
        }
        let mut unc: u64 = 0;
        let mut comp: u64 = 0;
        let mut count: u64 = 0;
        let n = self.entries.len();
        let mut i: usize = 0;
        while i < n
            invariant
                i <= n,
                n == self.entries@.len(),
                spec_build_node(spec_root_node(), self.entries@, *name_table, self.id)
                    == spec_build_node(
                    node_view(root),
                    self.entries@.skip(i as int),
                    *name_table,
                    self.id,
                ),
                spec_build_totals(self.entries@, *name_table, (0u64, 0u64, 0u64))
                    == spec_build_totals(
                    self.entries@.skip(i as int),
                    *name_table,
                    (unc, comp, count),
                ),
            decreases n - i,
        {
            proof {
                assert(self.entries@.skip(i as int)[0] == self.entries@[i as int]);
                assert(self.entries@.skip(i as int).skip(1) =~= self.entries@.skip(i as int + 1));
            }
            let entry = self.entries[i];
            let resolved = name_table.resolve_path(entry.hash);
            let segs = split_path(resolved.as_str());
            proof {
                assert(segs.deep_view().skip(0) =~= segs.deep_view());
                assert(segs.deep_view().len() == segs@.len()) by {
                    assert(segs.deep_view() == spec_split_path(resolved@));
                }
            }
            if segs.len() > 0 {
                unc = sat_add(unc, entry.uncompressed_size);
                comp = sat_add(comp, entry.compressed_size);
                count = sat_add(count, 1);
            }
            root = insert_entry_path(root, &segs, 0, &entry, self.id);
            i = i + 1;
        }
        proof {
            assert(self.entries@.skip(n as int) =~= Seq::<PakEntry>::empty());
        }
        FileTree { root, uncompressed_size: unc, compressed_size: comp, file_count: count }
    }
}

// ------------------------------------------------------------------
// Merging two trees.
// ------------------------------------------------------------------

/// A fresh directory node created while merging.
pub open spec fn spec_fresh_dir(name: Seq<char>) -> SpecNode {
    SpecNode {
        info: SpecNodeInfo {
            is_dir: true,
            name,
            hash: Option::None,
            uncompressed_size: 0,
            compressed_size: 0,
            belonging_to: Option::None,
        },
        children: Seq::empty(),
    }
}

/// Merge `n2` into `n1`. A directory merges its children by name into
/// `n1`'s children; a file overrides `n1`'s payload while keeping `n1`'s
/// children, so on a file/directory clash the later tree's payload wins and
/// the earlier tree's children survive.
pub open spec fn spec_combine(n1: SpecNode, n2: SpecNode) -> SpecNode
    decreases n2,
{
    if n2.info.is_dir {
        SpecNode { info: n1.info, children: spec_combine_children(n1.children, n2.children) }
    } else {
        SpecNode { info: n2.info, children: n1.children }
    }
}

/// Merge each node of `kids2`, in order, into `kids1`: into the first child
/// of the same name, or into a fresh directory appended at the end.
pub open spec fn spec_combine_children(kids1: Seq<SpecNode>, kids2: Seq<SpecNode>) -> Seq<SpecNode>
    decreases kids2,
{
    if kids2.len() == 0 {
        kids1
    } else {
        let c2 = kids2[0];
        let j = child_index(kids1, c2.info.name);
        let base = if j >= 0 {
            kids1[j]
        } else {
            spec_fresh_dir(c2.info.name)
        };
        let merged = spec_combine(base, c2);
        let kids1b = if j >= 0 {
            kids1.update(j, merged)
        } else {
            kids1.push(merged)
        };
        spec_combine_children(kids1b, kids2.skip(1))
    }
}

/// An owned copy of a node payload.
fn clone_info(info: &NodeInfo) -> (r: NodeInfo)
    ensures
        info_view(r) == info_view(*info),
{
    NodeInfo {
        is_dir: info.is_dir,
        relative_path: info.relative_path.clone(),
        hash: info.hash,
        uncompressed_size: info.uncompressed_size,
        compressed_size: info.compressed_size,
        belonging_to: info.belonging_to,
    }
}

/// Make a fresh directory node for the segment `name`.
fn make_dir_node(name: String) -> (r: FileTreeNode)
    ensures
        node_view(r) == spec_fresh_dir(name@),
{
    let r = FileTreeNode {
        info: NodeInfo {
            is_dir: true,
            relative_path: name,
            hash: None,
            uncompressed_size: 0,
            compressed_size: 0,
            belonging_to: None,
        },
        children: Vec::new(),
    };
    proof {
        assert(nodes_view(r.children@) =~= Seq::<SpecNode>::empty());
    }
    r
}

/// Merge node `n2` into `n1`, as `spec_combine` describes.
pub fn combine_nodes(n1: FileTreeNode, n2: &FileTreeNode) -> (r: FileTreeNode)
    ensures
        node_view(r) == spec_combine(node_view(n1), node_view(*n2)),
    decreases *n2,
{
    let ghost n2v = node_view(*n2);
    let mut acc = n1;
    if n2.info.is_dir {
        let ghost kids1v0 = nodes_view(acc.children@);
        let ghost info0 = info_view(acc.info);
        let m = n2.children.len();
        let mut k: usize = 0;
        proof {
            lemma_nodes_view(n2.children@);
            assert(n2v.children.skip(0) =~= n2v.children);
        }
        while k < m
            invariant
                k <= m,
                m == n2.children@.len(),
                n2v == node_view(*n2),
                n2v.children == nodes_view(n2.children@),
                n2v.children.len() == m,
                forall|t: int|
                    0 <= t < m ==> n2v.children[t] == node_view(n2.children@[t]),
                info_view(acc.info) == info0,
                spec_combine_children(kids1v0, n2v.children) == spec_combine_children(
                    nodes_view(acc.children@),
                    n2v.children.skip(k as int),
                ),
            decreases m - k,
        {
            proof {
                assert(n2v.children.skip(k as int)[0] == n2v.children[k as int]);
                assert(n2v.children.skip(k as int).skip(1) =~= n2v.children.skip(k as int + 1));
            }
            let ghost c2v = n2v.children[k as int];
            let ghost kids_before = nodes_view(acc.children@);
            let jopt = find_child(&acc.children, &n2.children[k].info.relative_path);
            match jopt {
                Some(j) => {
                    proof {
                        lemma_nodes_view(acc.children@);
                    }
                    let ghost kids_exec_before = acc.children@;
                    let base = acc.children.remove(j);
                    let merged = combine_nodes(base, &n2.children[k]);
                    acc.children.insert(j, merged);
                    proof {
                        assert(acc.children@ =~= kids_exec_before.update(
                            j as int,
                            acc.children@[j as int],
                        ));
                        lemma_nodes_view(acc.children@);
                        assert(nodes_view(acc.children@) =~= kids_before.update(
                            j as int,
                            node_view(acc.children@[j as int]),
                        ));
                    }
                },
                None => {
                    let base = make_dir_node(n2.children[k].info.relative_path.clone());
                    let merged = combine_nodes(base, &n2.children[k]);
                    proof {
                        lemma_nodes_view(acc.children@);
                    }
                    let ghost kids_exec_before = acc.children@;
                    acc.children.push(merged);
                    proof {
                        lemma_nodes_view(acc.children@);
                        assert(nodes_view(acc.children@) =~= kids_before.push(
                            node_view(acc.children@[acc.children@.len() - 1]),
                        ));
                    }
                },
            }
            k = k + 1;
        }
        proof {
            assert(n2v.children.skip(m as int) =~= Seq::<SpecNode>::empty());
        }
        acc
    } else {
        acc.info = clone_info(&n2.info);
        acc
    }
}

impl FileTree {
    /// Combine two file trees into a new one; where both trees resolve a
    /// file to the same path, `other`'s metadata wins. The totals are left
    /// at zero: display rendering recomputes directory sizes.
    pub fn combine(self, other: FileTree) -> (r: FileTree)
        ensures
            node_view(r.root) == spec_combine(node_view(self.root), node_view(other.root)),
            r.uncompressed_size == 0,
            r.compressed_size == 0,
            r.file_count == 0,
    {
        let root = combine_nodes(self.root, &other.root);
        FileTree { root, uncompressed_size: 0, compressed_size: 0, file_count: 0 }
    }
}

impl Default for FileTree {
    /// The empty tree: a nameless file node with no children and zero totals.
    fn default() -> (r: FileTree)
        ensures
            node_view(r.root) == spec_default_node(),
            r.uncompressed_size == 0,
            r.compressed_size == 0,
            r.file_count == 0,
    {
        let r = FileTree {
            root: FileTreeNode {
                info: NodeInfo {
                    is_dir: false,
                    relative_path: String::new(),
                    hash: None,
                    uncompressed_size: 0,
                    compressed_size: 0,
                    belonging_to: None,
                },
                children: Vec::new(),
            },
            uncompressed_size: 0,
            compressed_size: 0,
            file_count: 0,
        };
        proof {
            assert(nodes_view(r.root.children@) =~= Seq::<SpecNode>::empty());
            assert(node_view(r.root).info.name =~= Seq::<char>::empty());
        }
        r
    }
}

/// The root of the empty tree.
pub open spec fn spec_default_node() -> SpecNode {
    SpecNode {
        info: SpecNodeInfo {
            is_dir: false,
            name: Seq::empty(),
            hash: Option::None,
            uncompressed_size: 0,
            compressed_size: 0,
            belonging_to: Option::None,
        },
        children: Seq::empty(),
    }
}

// ------------------------------------------------------------------
// Paths into a tree, well-formedness, and what merging does to them.
// ------------------------------------------------------------------

/// The node reached from `n` by following the segments of `path`.
pub open spec fn spec_node_at(n: SpecNode, path: Seq<Seq<char>>) -> Option<SpecNode>
    decreases path.len(),
{
    if path.len() == 0 {
        Option::Some(n)
    } else {
        let j = child_index(n.children, path[0]);
        if j >= 0 {
            spec_node_at(n.children[j], path.skip(1))
        } else {
            Option::None
        }
    }
}

/// No two children share a name.
pub open spec fn unique_names(kids: Seq<SpecNode>) -> bool {
    forall|i: int, j: int|
        0 <= i < j < kids.len() ==> kids[i].info.name != kids[j].info.name
}

/// Children names are unique at every level.
pub open spec fn wf_names(n: SpecNode) -> bool
    decreases n,
{
    unique_names(n.children) && (forall|i: int|
        0 <= i < n.children.len() ==> wf_names(#[trigger] n.children[i]))
}

/// Under unique names, any index holding `name` is the one `child_index`
/// returns.
proof fn lemma_child_index_unique(kids: Seq<SpecNode>, name: Seq<char>, i: int)
    requires
        unique_names(kids),
        0 <= i < kids.len(),
        kids[i].info.name == name,
    ensures
        child_index(kids, name) == i,
{
    assert forall|k: int| 0 <= k < i implies kids[k].info.name != name by {
        assert(kids[k].info.name != kids[i].info.name);
    }
    lemma_child_index_first(kids, name, i);
}

/// A name carried by no node of `kids2` keeps its slot, its value, and its
/// absence, through a merge.
proof fn lemma_combine_children_absent(kids1: Seq<SpecNode>, kids2: Seq<SpecNode>, name: Seq<char>)
    requires
        child_index(kids2, name) == -1,
    ensures
        child_index(spec_combine_children(kids1, kids2), name) == child_index(kids1, name),
        child_index(kids1, name) >= 0 ==> spec_combine_children(kids1, kids2)[child_index(
            kids1,
            name,
        )] == kids1[child_index(kids1, name)],
    decreases kids2.len(),
{
    let res = spec_combine_children(kids1, kids2);
    lemma_child_index(kids1, name);
    lemma_child_index(kids2, name);
    if kids2.len() > 0 {
        let c2 = kids2[0];
        let j = child_index(kids1, c2.info.name);
        lemma_child_index(kids1, c2.info.name);
        let base = if j >= 0 { kids1[j] } else { spec_fresh_dir(c2.info.name) };
        let merged = spec_combine(base, c2);
        let kids1b = if j >= 0 { kids1.update(j, merged) } else { kids1.push(merged) };
        assert(c2.info.name != name);
        assert(merged.info.name == c2.info.name);
        lemma_child_index(kids2.skip(1), name);
        assert(child_index(kids2.skip(1), name) == -1) by {
            if child_index(kids2.skip(1), name) >= 0 {
                let w = child_index(kids2.skip(1), name);
                assert(kids2.skip(1)[w] == kids2[w + 1]);
            }
        }
        lemma_combine_children_absent(kids1b, kids2.skip(1), name);
        // the one changed or appended slot carries c2's name, not `name`
        let ci = child_index(kids1, name);
        if ci >= 0 {
            assert(kids1b[ci] == kids1[ci]);
            assert forall|k: int| 0 <= k < ci implies kids1b[k].info.name != name by {
                assert(kids1[k].info.name != name);
            }
            lemma_child_index_first(kids1b, name, ci);
        } else {
            lemma_child_index(kids1b, name);
            assert(child_index(kids1b, name) == -1) by {
                if child_index(kids1b, name) >= 0 {
                    let w = child_index(kids1b, name);
                    assert(kids1b[w].info.name == name);
                    if j >= 0 {
                        if w == j {
                        } else {
                            assert(kids1b[w] == kids1[w]);
                        }
                    } else {
                        if w < kids1.len() {
                            assert(kids1b[w] == kids1[w]);
                        } else {
                            assert(kids1b[w] == merged);
                        }
                    }
                }
            }
        }
    }
}

/// Dropping the head of a unique-names list keeps the names unique.
proof fn lemma_unique_skip(kids: Seq<SpecNode>)
    requires
        kids.len() > 0,
        unique_names(kids),
    ensures
        unique_names(kids.skip(1)),
{
    assert forall|i: int, j: int| 0 <= i < j < kids.skip(1).len() implies kids.skip(1)[i].info.name
        != kids.skip(1)[j].info.name by {
        assert(kids.skip(1)[i] == kids[i + 1]);
        assert(kids.skip(1)[j] == kids[j + 1]);
    }
}

/// Under unique names on both sides, the merged child for a name `kids2`
/// carries is the merge of that node into the child of the same name (or
/// into a fresh directory when `kids1` has none).
proof fn lemma_combine_children_found(kids1: Seq<SpecNode>, kids2: Seq<SpecNode>, name: Seq<char>)
    requires
        unique_names(kids1),
        unique_names(kids2),
        child_index(kids2, name) >= 0,
    ensures
        ({
            let res = spec_combine_children(kids1, kids2);
            let j1 = child_index(kids1, name);
            let j2 = child_index(kids2, name);
            let base = if j1 >= 0 { kids1[j1] } else { spec_fresh_dir(name) };
            child_index(res, name) >= 0 && res[child_index(res, name)] == spec_combine(
                base,
                kids2[j2],
            )
        }),
    decreases kids2.len(),
{
    let res = spec_combine_children(kids1, kids2);
    let j1 = child_index(kids1, name);
    let j2 = child_index(kids2, name);
    lemma_child_index(kids1, name);
    lemma_child_index(kids2, name);
    let c2 = kids2[0];
    let j = child_index(kids1, c2.info.name);
    lemma_child_index(kids1, c2.info.name);
    let base0 = if j >= 0 { kids1[j] } else { spec_fresh_dir(c2.info.name) };
    let merged = spec_combine(base0, c2);
    let kids1b = if j >= 0 { kids1.update(j, merged) } else { kids1.push(merged) };
    assert(merged.info.name == c2.info.name);
    lemma_unique_skip(kids2);
    assert(unique_names(kids1b)) by {
        assert forall|x: int, y: int| 0 <= x < y < kids1b.len() implies kids1b[x].info.name
            != kids1b[y].info.name by {
            if y < kids1.len() {
            } else {
                assert(kids1b[y] == merged);
                assert(kids1b[x] == kids1[x]);
            }
        }
    }
    if c2.info.name == name {
        // the head of kids2 is the node for `name`; the rest never touches it
        assert(j2 == 0);
        assert(j == j1);
        let p: int = if j >= 0 { j } else { kids1.len() as int };
        assert(kids1b[p] == merged);
        assert(child_index(kids2.skip(1), name) == -1) by {
            lemma_child_index(kids2.skip(1), name);
            if child_index(kids2.skip(1), name) >= 0 {
                let w = child_index(kids2.skip(1), name);
                assert(kids2.skip(1)[w] == kids2[w + 1]);
                assert(kids2[0].info.name != kids2[w + 1].info.name);
            }
        }
        lemma_combine_children_absent(kids1b, kids2.skip(1), name);
        assert forall|k: int| 0 <= k < p implies kids1b[k].info.name != name by {
            assert(kids1b[k] == kids1[k]);
            if j >= 0 {
                assert(kids1[k].info.name != kids1[j].info.name);
            }
        }
        lemma_child_index_first(kids1b, name, p);
    } else {
        // the node for `name` sits deeper in kids2; the first step leaves
        // the slot for `name` alone
        assert(j2 >= 1);
        assert(kids2.skip(1)[j2 - 1] == kids2[j2]);
        assert(child_index(kids2.skip(1), name) == j2 - 1) by {
            assert forall|k: int| 0 <= k < j2 - 1 implies kids2.skip(1)[k].info.name != name by {
                assert(kids2.skip(1)[k] == kids2[k + 1]);
            }
            lemma_child_index_first(kids2.skip(1), name, j2 - 1);
        }
        lemma_combine_children_found(kids1b, kids2.skip(1), name);
        // relate kids1b's slot for `name` to kids1's
        let j1b = child_index(kids1b, name);
        if j1 >= 0 {
            assert(kids1b[j1] == kids1[j1]) by {
                if j >= 0 && j == j1 {
                    assert(kids1[j].info.name == c2.info.name);
                }
            }
            assert(j1b == j1) by {
                assert forall|k: int| 0 <= k < j1 implies kids1b[k].info.name != name by {
                    assert(kids1b[k].info.name == kids1[k].info.name) by {
                        if j >= 0 && k == j {
                        } else {
                            assert(kids1b[k] == kids1[k]);
                        }
                    }
                }
                lemma_child_index_first(kids1b, name, j1);
            }
        } else {
            assert(j1b == -1) by {
                lemma_child_index(kids1b, name);
                if j1b >= 0 {
                    assert(kids1b[j1b].info.name == name);
                    if j >= 0 {
                        if j1b == j {
                        } else {
                            assert(kids1b[j1b] == kids1[j1b]);
                        }
                    } else {
                        if j1b < kids1.len() {
                            assert(kids1b[j1b] == kids1[j1b]);
                        } else {
                            assert(kids1b[j1b] == merged);
                        }
                    }
                }
            }
        }
    }
}

/// Where the later tree has a file (through directories all the way down),
/// the merged tree carries that file's payload at the same path: the later
/// archive's metadata wins.
pub proof fn lemma_combine_file_wins(a: SpecNode, b: SpecNode, path: Seq<Seq<char>>)
    requires
        wf_names(a),
        wf_names(b),
        spec_node_at(b, path) is Some,
        !spec_node_at(b, path)->Some_0.info.is_dir,
        forall|k: int|
            0 <= k < path.len() ==> (#[trigger] spec_node_at(b, path.take(k))) is Some
                && spec_node_at(b, path.take(k))->Some_0.info.is_dir,
    ensures
        spec_node_at(spec_combine(a, b), path) is Some,
        spec_node_at(spec_combine(a, b), path)->Some_0.info == spec_node_at(
            b,
            path,
        )->Some_0.info,
    decreases path.len(),
{
    let f = spec_node_at(b, path)->Some_0;
    if path.len() == 0 {
    } else {
        assert(path.take(0) =~= Seq::<Seq<char>>::empty());
        assert(spec_node_at(b, path.take(0)) == Option::Some(b));
        assert(b.info.is_dir);
        let j2 = child_index(b.children, path[0]);
        lemma_child_index(b.children, path[0]);
        assert(j2 >= 0);
        let c2 = b.children[j2];
        let j1 = child_index(a.children, path[0]);
        lemma_child_index(a.children, path[0]);
        let base = if j1 >= 0 { a.children[j1] } else { spec_fresh_dir(path[0]) };
        lemma_combine_children_found(a.children, b.children, path[0]);
        let res = spec_combine_children(a.children, b.children);
        let ci = child_index(res, path[0]);
        assert(res[ci] == spec_combine(base, c2));
        // the conditions carry over to the subtrees
        assert(wf_names(base)) by {
            if j1 >= 0 {
            }
        }
        assert(wf_names(c2));
        assert(spec_node_at(c2, path.skip(1)) == Option::Some(f));
        assert forall|k: int|
            0 <= k < path.skip(1).len() implies (#[trigger] spec_node_at(
            c2,
            path.skip(1).take(k),
        )) is Some && spec_node_at(c2, path.skip(1).take(k))->Some_0.info.is_dir by {
            assert(spec_node_at(b, path.take(k + 1)) is Some);
            assert(path.take(k + 1)[0] == path[0]);
            assert(path.take(k + 1).len() > 0);
            assert(path.take(k + 1).skip(1) =~= path.skip(1).take(k));
            assert(spec_node_at(b, path.take(k + 1)) == spec_node_at(
                c2,
                path.skip(1).take(k),
            ));
        }
        lemma_combine_file_wins(base, c2, path.skip(1));
        assert(spec_node_at(spec_combine(a, b), path) == spec_node_at(res[ci], path.skip(1)));
    }
}

/// Paths whose first segment `b` does not carry are untouched by a merge:
/// the earlier tree's subtree survives unchanged.
pub proof fn lemma_combine_keeps_a(a: SpecNode, b: SpecNode, path: Seq<Seq<char>>)
    requires
        path.len() >= 1,
        b.info.is_dir,
        child_index(b.children, path[0]) == -1,
    ensures
        spec_node_at(spec_combine(a, b), path) == spec_node_at(a, path),
{
    lemma_combine_children_absent(a.children, b.children, path[0]);
}

// ------------------------------------------------------------------
// Built trees are well-formed, and expose every inserted path.
// ------------------------------------------------------------------

/// Inserting a path leaves the node's own payload alone and keeps child
/// names unique at every level.
pub proof fn lemma_insert_wf(node: SpecNode, segs: Seq<Seq<char>>, entry: PakEntry, owner: PakId)
    requires
        wf_names(node),
    ensures
        wf_names(spec_insert(node, segs, entry, owner)),
        spec_insert(node, segs, entry, owner).info == node.info,
    decreases segs.len(),
{
    if segs.len() > 0 {
        let name = segs[0];
        let last = segs.len() == 1;
        let j = child_index(node.children, name);
        lemma_child_index(node.children, name);
        let child0 = if j >= 0 {
            node.children[j]
        } else {
            spec_fresh_node(name, !last, owner)
        };
        assert(wf_names(child0)) by {
            if j >= 0 {
            }
        }
        let child1 = if last {
            spec_set_leaf(child0, entry)
        } else {
            spec_insert(child0, segs.skip(1), entry, owner)
        };
        assert(wf_names(child1) && child1.info.name == name) by {
            if last {
                assert(child1.children == child0.children);
            } else {
                lemma_insert_wf(child0, segs.skip(1), entry, owner);
            }
        }
        let res = spec_insert(node, segs, entry, owner);
        if j >= 0 {
            assert(unique_names(res.children)) by {
                assert forall|x: int, y: int|
                    0 <= x < y < res.children.len() implies res.children[x].info.name
                    != res.children[y].info.name by {
                    assert(res.children[x].info.name == node.children[x].info.name);
                    assert(res.children[y].info.name == node.children[y].info.name);
                }
            }
            assert forall|i: int| 0 <= i < res.children.len() implies wf_names(
                #[trigger] res.children[i],
            ) by {
                if i != j {
                    assert(res.children[i] == node.children[i]);
                }
            }
        } else {
            assert(unique_names(res.children)) by {
                assert forall|x: int, y: int|
                    0 <= x < y < res.children.len() implies res.children[x].info.name
                    != res.children[y].info.name by {
                    if y < node.children.len() {
                    } else {
                        assert(res.children[y] == child1);
                        assert(res.children[x] == node.children[x]);
                    }
                }
            }
            assert forall|i: int| 0 <= i < res.children.len() implies wf_names(
                #[trigger] res.children[i],
            ) by {
                if i < node.children.len() {
                    assert(res.children[i] == node.children[i]);
                } else {
                    assert(res.children[i] == child1);
                }
            }
        }
    }
}

/// A built tree keeps its root payload and unique child names throughout.
pub proof fn lemma_build_wf(
    root: SpecNode,
    entries: Seq<PakEntry>,
    table: FileNameTable,
    owner: PakId,
)
    requires
        wf_names(root),
    ensures
        wf_names(spec_build_node(root, entries, table, owner)),
        spec_build_node(root, entries, table, owner).info == root.info,
    decreases entries.len(),
{
    if entries.len() > 0 {
        lemma_insert_wf(root, spec_entry_segs(entries[0], table), entries[0], owner);
        lemma_build_wf(
            spec_insert(root, spec_entry_segs(entries[0], table), entries[0], owner),
            entries.skip(1),
            table,
            owner,
        );
    }
}

/// After inserting a path, a node stands at that path, stamped with the
/// entry's hash and sizes.
pub proof fn lemma_insert_creates_path(
    node: SpecNode,
    segs: Seq<Seq<char>>,
    entry: PakEntry,
    owner: PakId,
)
    requires
        segs.len() >= 1,
    ensures
        spec_node_at(spec_insert(node, segs, entry, owner), segs) is Some,
        spec_node_at(spec_insert(node, segs, entry, owner), segs)->Some_0.info.hash
            == Option::Some(entry.hash),
        spec_node_at(spec_insert(node, segs, entry, owner), segs)->Some_0.info.uncompressed_size
            == entry.uncompressed_size,
        spec_node_at(spec_insert(node, segs, entry, owner), segs)->Some_0.info.compressed_size
            == entry.compressed_size,
    decreases segs.len(),
{
    let name = segs[0];
    let last = segs.len() == 1;
    let j = child_index(node.children, name);
    lemma_child_index(node.children, name);
    let child0 = if j >= 0 {
        node.children[j]
    } else {
        spec_fresh_node(name, !last, owner)
    };
    let child1 = if last {
        spec_set_leaf(child0, entry)
    } else {
        spec_insert(child0, segs.skip(1), entry, owner)
    };
    assert(child1.info.name == name) by {
        if !last {
            lemma_insert_root_info(child0, segs.skip(1), entry, owner);
        }
    }
    let res = spec_insert(node, segs, entry, owner);
    let p: int = if j >= 0 { j } else { node.children.len() as int };
    assert(res.children[p] == child1);
    assert forall|k: int| 0 <= k < p implies res.children[k].info.name != name by {
        assert(res.children[k] == node.children[k]);
    }
    lemma_child_index_first(res.children, name, p);
    if !last {
        lemma_insert_creates_path(child0, segs.skip(1), entry, owner);
    }
}

/// Inserting below a node never changes the node's own payload.
proof fn lemma_insert_root_info(node: SpecNode, segs: Seq<Seq<char>>, entry: PakEntry, owner: PakId)
    ensures
        spec_insert(node, segs, entry, owner).info == node.info,
{
}

/// A path reaching a node keeps reaching one through any later insertion.
pub proof fn lemma_insert_preserves_present(
    node: SpecNode,
    segs: Seq<Seq<char>>,
    entry: PakEntry,
    owner: PakId,
    path: Seq<Seq<char>>,
)
    requires
        spec_node_at(node, path) is Some,
    ensures
        spec_node_at(spec_insert(node, segs, entry, owner), path) is Some,
    decreases segs.len(),
{
    if segs.len() == 0 || path.len() == 0 {
    } else {
        let cip = child_index(node.children, path[0]);
        lemma_child_index(node.children, path[0]);
        assert(cip >= 0);
        let name = segs[0];
        let last = segs.len() == 1;
        let j = child_index(node.children, name);
        lemma_child_index(node.children, name);
        let child0 = if j >= 0 {
            node.children[j]
        } else {
            spec_fresh_node(name, !last, owner)
        };
        let child1 = if last {
            spec_set_leaf(child0, entry)
        } else {
            spec_insert(child0, segs.skip(1), entry, owner)
        };
        assert(child1.info.name == name) by {
            if !last {
                lemma_insert_root_info(child0, segs.skip(1), entry, owner);
            }
        }
        let res = spec_insert(node, segs, entry, owner);
        if path[0] == name {
            let p: int = if j >= 0 { j } else { node.children.len() as int };
            assert(j >= 0 && p == cip) by {
                if j >= 0 {
                    assert forall|k: int| 0 <= k < j implies node.children[k].info.name
                        != path[0] by {}
                    if cip < j {
                        assert(node.children[cip].info.name != name);
                    }
                    if j < cip {
                        assert(node.children[j].info.name == path[0]);
                        lemma_child_index_first(node.children, path[0], j);
                    }
                }
            }
            assert(res.children[p] == child1);
            assert forall|k: int| 0 <= k < p implies res.children[k].info.name != path[0] by {
                assert(res.children[k] == node.children[k]);
            }
            lemma_child_index_first(res.children, path[0], p);
            if last {
                assert(child1.children == child0.children);
                if path.skip(1).len() == 0 {
                } else {
                    assert(spec_node_at(child1, path.skip(1)) == spec_node_at(
                        child0,
                        path.skip(1),
                    ));
                }
            } else {
                lemma_insert_preserves_present(child0, segs.skip(1), entry, owner, path.skip(1));
            }
        } else {
            let p: int = if j >= 0 { j } else { node.children.len() as int };
            assert(res.children[cip] == node.children[cip]) by {
                if j >= 0 && cip == j {
                    assert(node.children[j].info.name == name);
                }
            }
            assert forall|k: int| 0 <= k < cip implies res.children[k].info.name != path[0] by {
                assert(res.children[k].info.name == node.children[k].info.name) by {
                    if j >= 0 && k == j {
                    } else {
                        assert(res.children[k] == node.children[k]);
                    }
                }
            }
            assert(res.children[cip].info.name == path[0]);
            lemma_child_index_first(res.children, path[0], cip);
        }
    }
}

/// A path present in a tree stays present through the rest of a build.
proof fn lemma_build_preserves_present(
    root: SpecNode,
    entries: Seq<PakEntry>,
    table: FileNameTable,
    owner: PakId,
    path: Seq<Seq<char>>,
)
    requires
        spec_node_at(root, path) is Some,
    ensures
        spec_node_at(spec_build_node(root, entries, table, owner), path) is Some,
    decreases entries.len(),
{
    if entries.len() > 0 {
        lemma_insert_preserves_present(
            root,
            spec_entry_segs(entries[0], table),
            entries[0],
            owner,
            path,
        );
        lemma_build_preserves_present(
            spec_insert(root, spec_entry_segs(entries[0], table), entries[0], owner),
            entries.skip(1),
            table,
            owner,
            path,
        );
    }
}

/// Every entry of the archive is exposed in the built tree at its resolved
/// path. In particular an entry whose hash the filename table does not know
/// stands at `_Unknown/<hash in uppercase hex>`.
pub proof fn lemma_build_exposes(
    root: SpecNode,
    entries: Seq<PakEntry>,
    table: FileNameTable,
    owner: PakId,
    i: int,
)
    requires
        0 <= i < entries.len(),
        spec_entry_segs(entries[i], table).len() >= 1,
    ensures
        spec_node_at(
            spec_build_node(root, entries, table, owner),
            spec_entry_segs(entries[i], table),
        ) is Some,
    decreases entries.len(),
{
    let segs0 = spec_entry_segs(entries[0], table);
    let after = spec_insert(root, segs0, entries[0], owner);
    if i == 0 {
        lemma_insert_creates_path(root, segs0, entries[0], owner);
        lemma_build_preserves_present(after, entries.skip(1), table, owner, segs0);
    } else {
        assert(entries.skip(1)[i - 1] == entries[i]);
        lemma_build_exposes(after, entries.skip(1), table, owner, i - 1);
    }
}

/// An entry whose hash is absent from the filename table is exposed in the
/// built tree at the synthetic path `_Unknown/<hash in uppercase hex>`.
pub proof fn lemma_unknown_hash_exposed(
    root: SpecNode,
    entries: Seq<PakEntry>,
    table: FileNameTable,
    owner: PakId,
    i: int,
)
    requires
        0 <= i < entries.len(),
        table.spec_get(entries[i].hash) is None,
    ensures
        spec_node_at(
            spec_build_node(root, entries, table, owner),
            seq!["_Unknown"@, crate::text::spec_hex(entries[i].hash, 8)],
        ) is Some,
{
    crate::text::lemma_unknown_path_segments(entries[i].hash);
    lemma_build_exposes(root, entries, table, owner, i);
}

} // verus!
