//! Display rendering of file trees: flattening to display nodes,
//! collapsing chains of single-child directories, sorting every level with
//! directories before files, and the bottom-up size rollup.

use vstd::prelude::*;
use vstd::multiset::Multiset;
use crate::common::JsSafeHash;
use crate::error::Error;
use crate::pak::PakId;
use crate::tree::{
    lemma_nodes_view, node_view, sat_add, sat_add_u64, FileTree, FileTreeNode, SpecNode,
};

verus! {

// ------------------------------------------------------------------
// Display rendering.
// ------------------------------------------------------------------

/// Model of one display node.
pub struct SpecRender {
    pub is_dir: bool,
    pub name: Seq<char>,
    pub hash: Option<u64>,
    pub compressed_size: u64,
    pub uncompressed_size: u64,
    pub belonging_to: Option<PakId>,
    pub children: Seq<SpecRender>,
}

/// One node of the display tree: a flattened copy of the file tree with
/// optional directory collapsing and sorting applied.
#[derive(Debug)]
pub struct RenderTreeNode {
    pub is_dir: bool,
    /// Segment name, or the joined name of a collapsed directory chain.
    pub name: String,
    /// Content hash; `None` for directories.
    pub hash: Option<JsSafeHash>,
    /// The node's bytes as stored, or the directory's total.
    pub compressed_size: u64,
    /// The node's bytes once decompressed, or the directory's total.
    pub uncompressed_size: u64,
    /// The archive a file node came from.
    pub belonging_to: Option<PakId>,
    pub children: Vec<RenderTreeNode>,
}

/// The model of a display node.
pub open spec fn render_view(n: RenderTreeNode) -> SpecRender
    decreases n,
{
    SpecRender {
        is_dir: n.is_dir,
        name: n.name@,
        hash: match n.hash {
            Option::Some(h) => Option::Some(h.spec_u64()),
            Option::None => Option::None,
        },
        compressed_size: n.compressed_size,
        uncompressed_size: n.uncompressed_size,
        belonging_to: n.belonging_to,
        children: renders_view(n.children@),
    }
}

/// The model of a sequence of display nodes.
pub open spec fn renders_view(s: Seq<RenderTreeNode>) -> Seq<SpecRender>
    decreases s,
{
    if s.len() == 0 {
        Seq::empty()
    } else {
        seq![render_view(s[0])] + renders_view(s.skip(1))
    }
}

/// `renders_view` maps the sequence elementwise.
pub proof fn lemma_renders_view(s: Seq<RenderTreeNode>)
    ensures
        renders_view(s).len() == s.len(),
        forall|i: int| 0 <= i < s.len() ==> renders_view(s)[i] == render_view(s[i]),
    decreases s,
{
    if s.len() > 0 {
        lemma_renders_view(s.skip(1));
        assert forall|i: int| 0 <= i < s.len() implies renders_view(s)[i] == render_view(
            s[i],
        ) by {
            if i > 0 {
                assert(renders_view(s)[i] == renders_view(s.skip(1))[i - 1]);
                assert(s.skip(1)[i - 1] == s[i]);
            }
        }
    }
}

/// A display node copied field for field from a file-tree node.
pub open spec fn spec_convert(n: SpecNode) -> SpecRender
    decreases n,
{
    SpecRender {
        is_dir: n.info.is_dir,
        name: n.info.name,
        hash: n.info.hash,
        compressed_size: n.info.compressed_size,
        uncompressed_size: n.info.uncompressed_size,
        belonging_to: n.info.belonging_to,
        children: spec_convert_seq(n.children),
    }
}

/// Elementwise conversion of children.
pub open spec fn spec_convert_seq(s: Seq<SpecNode>) -> Seq<SpecRender>
    decreases s,
{
    if s.len() == 0 {
        Seq::empty()
    } else {
        seq![spec_convert(s[0])] + spec_convert_seq(s.skip(1))
    }
}

/// `spec_convert_seq` maps the sequence elementwise.
pub proof fn lemma_convert_seq(s: Seq<SpecNode>)
    ensures
        spec_convert_seq(s).len() == s.len(),
        forall|i: int| 0 <= i < s.len() ==> spec_convert_seq(s)[i] == spec_convert(s[i]),
    decreases s,
{
    if s.len() > 0 {
        lemma_convert_seq(s.skip(1));
        assert forall|i: int| 0 <= i < s.len() implies spec_convert_seq(s)[i] == spec_convert(
            s[i],
        ) by {
            if i > 0 {
                assert(spec_convert_seq(s)[i] == spec_convert_seq(s.skip(1))[i - 1]);
                assert(s.skip(1)[i - 1] == s[i]);
            }
        }
    }
}

/// Copy a file-tree node into a display node.
pub fn convert_to_render_node(node: &FileTreeNode) -> (r: RenderTreeNode)
    ensures
        render_view(r) == spec_convert(node_view(*node)),
    decreases *node,
{
    let m = node.children.len();
    let mut kids: Vec<RenderTreeNode> = Vec::new();
    proof {
        lemma_nodes_view(node.children@);
    }
    let mut k: usize = 0;
    while k < m
        invariant
            k <= m,
            m == node.children@.len(),
            kids@.len() == k,
            forall|t: int|
                0 <= t < k ==> render_view(kids@[t]) == spec_convert(
                    node_view(node.children@[t]),
                ),
        decreases m - k,
    {
        let c = convert_to_render_node(&node.children[k]);
        kids.push(c);
        k = k + 1;
    }
    let r = RenderTreeNode {
        is_dir: node.info.is_dir,
        name: node.info.relative_path.clone(),
        hash: node.info.hash,
        compressed_size: node.info.compressed_size,
        uncompressed_size: node.info.uncompressed_size,
        belonging_to: node.info.belonging_to,
        children: kids,
    };
    proof {
        lemma_renders_view(r.children@);
        lemma_convert_seq(node_view(*node).children);
        lemma_nodes_view(node.children@);
        assert(renders_view(r.children@) =~= spec_convert_seq(node_view(*node).children));
    }
    r
}

/// Saturating fold of children sizes: compressed and uncompressed totals.
pub open spec fn spec_size_fold(kids: Seq<SpecRender>, acc: (u64, u64)) -> (u64, u64)
    decreases kids.len(),
{
    if kids.len() == 0 {
        acc
    } else {
        spec_size_fold(
            kids.skip(1),
            (
                sat_add_u64(acc.0, kids[0].compressed_size),
                sat_add_u64(acc.1, kids[0].uncompressed_size),
            ),
        )
    }
}

/// Directory sizes recomputed bottom-up: every directory's totals become the
/// (saturating) sums of its children's totals; files are unchanged.
pub open spec fn spec_apply_sizes(n: SpecRender) -> SpecRender
    decreases n,
{
    if n.is_dir {
        let kids = spec_apply_sizes_seq(n.children);
        let sums = spec_size_fold(kids, (0u64, 0u64));
        SpecRender { compressed_size: sums.0, uncompressed_size: sums.1, children: kids, ..n }
    } else {
        n
    }
}

/// Elementwise size recomputation of children.
pub open spec fn spec_apply_sizes_seq(s: Seq<SpecRender>) -> Seq<SpecRender>
    decreases s,
{
    if s.len() == 0 {
        Seq::empty()
    } else {
        seq![spec_apply_sizes(s[0])] + spec_apply_sizes_seq(s.skip(1))
    }
}

/// `spec_apply_sizes_seq` maps the sequence elementwise.
pub proof fn lemma_apply_sizes_seq(s: Seq<SpecRender>)
    ensures
        spec_apply_sizes_seq(s).len() == s.len(),
        forall|i: int|
            0 <= i < s.len() ==> spec_apply_sizes_seq(s)[i] == spec_apply_sizes(s[i]),
    decreases s,
{
    if s.len() > 0 {
        lemma_apply_sizes_seq(s.skip(1));
        assert forall|i: int| 0 <= i < s.len() implies spec_apply_sizes_seq(s)[i]
            == spec_apply_sizes(s[i]) by {
            if i > 0 {
                assert(spec_apply_sizes_seq(s)[i] == spec_apply_sizes_seq(s.skip(1))[i - 1]);
                assert(s.skip(1)[i - 1] == s[i]);
            }
        }
    }
}

/// Recompute every directory's aggregate sizes bottom-up.
pub fn apply_dir_size(node: &RenderTreeNode) -> (r: RenderTreeNode)
    ensures
        render_view(r) == spec_apply_sizes(render_view(*node)),
    decreases *node,
{
    let ghost nv = render_view(*node);
    if node.is_dir {
        let m = node.children.len();
        let mut kids: Vec<RenderTreeNode> = Vec::new();
        let mut comp: u64 = 0;
        let mut unc: u64 = 0;
        proof {
            lemma_renders_view(node.children@);
            lemma_apply_sizes_seq(nv.children);
            assert(spec_apply_sizes_seq(nv.children).skip(0) =~= spec_apply_sizes_seq(
                nv.children,
            ));
        }
        let mut k: usize = 0;
        while k < m
            invariant
                k <= m,
                m == node.children@.len(),
                nv == render_view(*node),
                nv.children.len() == m,
                forall|t: int|
                    0 <= t < m ==> nv.children[t] == render_view(node.children@[t]),
                kids@.len() == k,
                forall|t: int|
                    0 <= t < k ==> render_view(kids@[t]) == spec_apply_sizes(nv.children[t]),
                spec_size_fold(spec_apply_sizes_seq(nv.children), (0u64, 0u64))
                    == spec_size_fold(
                    spec_apply_sizes_seq(nv.children).skip(k as int),
                    (comp, unc),
                ),
                spec_apply_sizes_seq(nv.children).len() == m,
                forall|t: int|
                    0 <= t < m ==> spec_apply_sizes_seq(nv.children)[t] == spec_apply_sizes(
                        nv.children[t],
                    ),
            decreases m - k,
        {
            proof {
                assert(spec_apply_sizes_seq(nv.children).skip(k as int)[0]
                    == spec_apply_sizes_seq(nv.children)[k as int]);
                assert(spec_apply_sizes_seq(nv.children).skip(k as int).skip(1)
                    =~= spec_apply_sizes_seq(nv.children).skip(k as int + 1));
            }
            let c = apply_dir_size(&node.children[k]);
            comp = sat_add(comp, c.compressed_size);
            unc = sat_add(unc, c.uncompressed_size);
            kids.push(c);
            k = k + 1;
        }
        proof {
            assert(spec_apply_sizes_seq(nv.children).skip(m as int) =~= Seq::<
                SpecRender,
            >::empty());
        }
        let r = RenderTreeNode {
            is_dir: node.is_dir,
            name: node.name.clone(),
            hash: node.hash,
            compressed_size: comp,
            uncompressed_size: unc,
            belonging_to: node.belonging_to,
            children: kids,
        };
        proof {
            lemma_renders_view(r.children@);
            assert(renders_view(r.children@) =~= spec_apply_sizes_seq(nv.children));
        }
        r
    } else {
        let r = RenderTreeNode {
            is_dir: node.is_dir,
            name: node.name.clone(),
            hash: node.hash,
            compressed_size: node.compressed_size,
            uncompressed_size: node.uncompressed_size,
            belonging_to: node.belonging_to,
            children: copy_render_children(&node.children),
        };
        proof {
            lemma_renders_view(r.children@);
            lemma_renders_view(node.children@);
            assert(renders_view(r.children@) =~= renders_view(node.children@));
        }
        r
    }
}

/// An owned copy of a display subtree.
fn copy_render_node(node: &RenderTreeNode) -> (r: RenderTreeNode)
    ensures
        render_view(r) == render_view(*node),
    decreases *node,
{
    let r = RenderTreeNode {
        is_dir: node.is_dir,
        name: node.name.clone(),
        hash: node.hash,
        compressed_size: node.compressed_size,
        uncompressed_size: node.uncompressed_size,
        belonging_to: node.belonging_to,
        children: copy_render_children(&node.children),
    };
    proof {
        lemma_renders_view(r.children@);
        lemma_renders_view(node.children@);
        assert(renders_view(r.children@) =~= renders_view(node.children@));
    }
    r
}

/// An owned copy of a list of display subtrees.
fn copy_render_children(children: &Vec<RenderTreeNode>) -> (r: Vec<RenderTreeNode>)
    ensures
        r@.len() == children@.len(),
        forall|t: int|
            0 <= t < children@.len() ==> render_view(r@[t]) == render_view(children@[t]),
    decreases *children,
{
    let m = children.len();
    let mut out: Vec<RenderTreeNode> = Vec::new();
    let mut k: usize = 0;
    while k < m
        invariant
            k <= m,
            m == children@.len(),
            out@.len() == k,
            forall|t: int|
                0 <= t < k ==> render_view(out@[t]) == render_view(children@[t]),
        decreases m - k,
    {
        let c = copy_render_node(&children[k]);
        out.push(c);
        k = k + 1;
    }
    out
}

// ------------------------------------------------------------------
// Collapsing chains of single-child directories.
// ------------------------------------------------------------------

/// Children collapsed bottom-up; then, when a directory is left with exactly
/// one child directory, the two become one node whose name joins both with
/// ` / `. Membership of files is unchanged.
pub open spec fn spec_merge_dirs(n: SpecRender) -> SpecRender
    decreases n,
{
    let kids = spec_merge_dirs_seq(n.children);
    if n.is_dir && kids.len() == 1 && kids[0].is_dir {
        SpecRender { name: n.name + " / "@ + kids[0].name, children: kids[0].children, ..n }
    } else {
        SpecRender { children: kids, ..n }
    }
}

/// Elementwise collapsing of children.
pub open spec fn spec_merge_dirs_seq(s: Seq<SpecRender>) -> Seq<SpecRender>
    decreases s,
{
    if s.len() == 0 {
        Seq::empty()
    } else {
        seq![spec_merge_dirs(s[0])] + spec_merge_dirs_seq(s.skip(1))
    }
}

/// `spec_merge_dirs_seq` maps the sequence elementwise.
pub proof fn lemma_merge_dirs_seq(s: Seq<SpecRender>)
    ensures
        spec_merge_dirs_seq(s).len() == s.len(),
        forall|i: int|
            0 <= i < s.len() ==> spec_merge_dirs_seq(s)[i] == spec_merge_dirs(s[i]),
    decreases s,
{
    if s.len() > 0 {
        lemma_merge_dirs_seq(s.skip(1));
        assert forall|i: int| 0 <= i < s.len() implies spec_merge_dirs_seq(s)[i]
            == spec_merge_dirs(s[i]) by {
            if i > 0 {
                assert(spec_merge_dirs_seq(s)[i] == spec_merge_dirs_seq(s.skip(1))[i - 1]);
                assert(s.skip(1)[i - 1] == s[i]);
            }
        }
    }
}

/// Collapse chains of single-child directories into joined names.
pub fn merge_nested_dirs(node: &RenderTreeNode) -> (r: RenderTreeNode)
    ensures
        render_view(r) == spec_merge_dirs(render_view(*node)),
    decreases *node,
{
    let ghost nv = render_view(*node);
    let m = node.children.len();
    let mut kids: Vec<RenderTreeNode> = Vec::new();
    proof {
        lemma_renders_view(node.children@);
    }
    let mut k: usize = 0;
    while k < m
        invariant
            k <= m,
            m == node.children@.len(),
            nv == render_view(*node),
            nv.children.len() == m,
            forall|t: int| 0 <= t < m ==> nv.children[t] == render_view(node.children@[t]),
            kids@.len() == k,
            forall|t: int|
                0 <= t < k ==> render_view(kids@[t]) == spec_merge_dirs(nv.children[t]),
        decreases m - k,
    {
        let c = merge_nested_dirs(&node.children[k]);
        kids.push(c);
        k = k + 1;
    }
    proof {
        lemma_renders_view(kids@);
        lemma_merge_dirs_seq(nv.children);
        assert(renders_view(kids@) =~= spec_merge_dirs_seq(nv.children));
    }
    if node.is_dir && kids.len() == 1 {
        let ghost kids0 = kids@;
        let only = kids.remove(0);
        if only.is_dir {
            let name = node.name.clone().concat(" / ").concat(only.name.as_str());
            proof {
                assert(name@ =~= nv.name + " / "@ + render_view(only).name);
            }
            return RenderTreeNode {
                is_dir: node.is_dir,
                name,
                hash: node.hash,
                compressed_size: node.compressed_size,
                uncompressed_size: node.uncompressed_size,
                belonging_to: node.belonging_to,
                children: only.children,
            };
        }
        kids.insert(0, only);
        proof {
            assert(kids@ =~= kids0);
        }
    }
    RenderTreeNode {
        is_dir: node.is_dir,
        name: node.name.clone(),
        hash: node.hash,
        compressed_size: node.compressed_size,
        uncompressed_size: node.uncompressed_size,
        belonging_to: node.belonging_to,
        children: kids,
    }
}

/// The payload of one file node, as membership is counted.
pub struct SpecFileRecord {
    pub name: Seq<char>,
    pub hash: Option<u64>,
    pub compressed_size: u64,
    pub uncompressed_size: u64,
    pub belonging_to: Option<PakId>,
}

/// The file records under a node: its own when it is a file, plus its
/// descendants'.
pub open spec fn render_files(n: SpecRender) -> Multiset<SpecFileRecord>
    decreases n,
{
    let own: Multiset<SpecFileRecord> = if n.is_dir {
        Multiset::empty()
    } else {
        Multiset::empty().insert(
            SpecFileRecord {
                name: n.name,
                hash: n.hash,
                compressed_size: n.compressed_size,
                uncompressed_size: n.uncompressed_size,
                belonging_to: n.belonging_to,
            },
        )
    };
    own.add(render_files_seq(n.children))
}

/// The file records under a list of nodes.
pub open spec fn render_files_seq(s: Seq<SpecRender>) -> Multiset<SpecFileRecord>
    decreases s,
{
    if s.len() == 0 {
        Multiset::empty()
    } else {
        render_files(s[0]).add(render_files_seq(s.skip(1)))
    }
}

/// Lists whose nodes carry the same file records elementwise carry the same
/// records in all.
proof fn lemma_files_seq_congruent(a: Seq<SpecRender>, b: Seq<SpecRender>)
    requires
        a.len() == b.len(),
        forall|i: int| 0 <= i < a.len() ==> render_files(a[i]) == render_files(b[i]),
    ensures
        render_files_seq(a) == render_files_seq(b),
    decreases a.len(),
{
    if a.len() > 0 {
        assert forall|i: int| 0 <= i < a.skip(1).len() implies render_files(a.skip(1)[i])
            == render_files(b.skip(1)[i]) by {
            assert(a.skip(1)[i] == a[i + 1]);
            assert(b.skip(1)[i] == b[i + 1]);
        }
        lemma_files_seq_congruent(a.skip(1), b.skip(1));
    }
}

/// Collapsing directory chains is cosmetic: the collapsed tree carries
/// exactly the same file records as the tree it came from. Only directory
/// names and nesting change; no file appears, disappears, or changes.
pub proof fn lemma_merge_dirs_keeps_files(n: SpecRender)
    ensures
        render_files(spec_merge_dirs(n)) == render_files(n),
    decreases n,
{
    let kids = spec_merge_dirs_seq(n.children);
    lemma_merge_dirs_seq(n.children);
    assert forall|i: int| 0 <= i < n.children.len() implies render_files(kids[i])
        == render_files(n.children[i]) by {
        lemma_merge_dirs_keeps_files(n.children[i]);
    }
    lemma_files_seq_congruent(kids, n.children);
    if n.is_dir && kids.len() == 1 && kids[0].is_dir {
        // the collapsed node keeps the grandchildren, and the vanished
        // child directory carried no record of its own
        assert(render_files_seq(kids) == render_files(kids[0]).add(
            render_files_seq(kids.skip(1)),
        ));
        assert(kids.skip(1) =~= Seq::<SpecRender>::empty());
        assert(render_files(kids[0]).add(Multiset::empty()) =~= render_files(kids[0]));
        assert(render_files(kids[0]) =~= Multiset::empty().add(
            render_files_seq(kids[0].children),
        ));
        assert(Multiset::<SpecFileRecord>::empty().add(render_files_seq(kids[0].children))
            =~= render_files_seq(kids[0].children));
        assert(render_files(spec_merge_dirs(n)) =~= render_files(n));
    } else {
        assert(render_files(spec_merge_dirs(n)) =~= render_files(n));
    }
}

// ------------------------------------------------------------------
// Sorting: directories before files, ties broken by name.
// ------------------------------------------------------------------

/// The display order: directories precede files; within a kind, names are
/// compared lexicographically.
pub open spec fn render_le(a: SpecRender, b: SpecRender) -> bool {
    if a.is_dir != b.is_dir {
        a.is_dir
    } else {
        crate::text::lex_le(a.name, b.name)
    }
}

/// `x` inserted after every element ordered at or before it.
pub open spec fn spec_insert_sorted(x: SpecRender, s: Seq<SpecRender>) -> Seq<SpecRender>
    decreases s.len(),
{
    if s.len() == 0 {
        seq![x]
    } else if render_le(s[0], x) {
        seq![s[0]] + spec_insert_sorted(x, s.skip(1))
    } else {
        seq![x] + s
    }
}

/// Insertion sort of one level, from the back of the sequence.
pub open spec fn spec_sort_seq(s: Seq<SpecRender>) -> Seq<SpecRender>
    decreases s.len(),
{
    if s.len() == 0 {
        Seq::empty()
    } else {
        spec_insert_sorted(s[0], spec_sort_seq(s.skip(1)))
    }
}

/// The whole tree sorted: every level ordered by `render_le`.
pub open spec fn spec_sort_node(n: SpecRender) -> SpecRender
    decreases n,
{
    SpecRender { children: spec_sort_seq(spec_sort_each(n.children)), ..n }
}

/// Elementwise recursive sorting of children.
pub open spec fn spec_sort_each(s: Seq<SpecRender>) -> Seq<SpecRender>
    decreases s,
{
    if s.len() == 0 {
        Seq::empty()
    } else {
        seq![spec_sort_node(s[0])] + spec_sort_each(s.skip(1))
    }
}

/// `spec_sort_each` maps the sequence elementwise.
pub proof fn lemma_sort_each(s: Seq<SpecRender>)
    ensures
        spec_sort_each(s).len() == s.len(),
        forall|i: int| 0 <= i < s.len() ==> spec_sort_each(s)[i] == spec_sort_node(s[i]),
    decreases s,
{
    if s.len() > 0 {
        lemma_sort_each(s.skip(1));
        assert forall|i: int| 0 <= i < s.len() implies spec_sort_each(s)[i] == spec_sort_node(
            s[i],
        ) by {
            if i > 0 {
                assert(spec_sort_each(s)[i] == spec_sort_each(s.skip(1))[i - 1]);
                assert(s.skip(1)[i - 1] == s[i]);
            }
        }
    }
}

/// Compare two display nodes in the display order.
fn render_le_exec(a: &RenderTreeNode, b: &RenderTreeNode) -> (r: bool)
    ensures
        r == render_le(render_view(*a), render_view(*b)),
{
    if a.is_dir != b.is_dir {
        a.is_dir
    } else {
        crate::text::str_lex_le(a.name.as_str(), b.name.as_str())
    }
}

/// Insert `x` into the sorted vector `v` after its equals.
fn insert_sorted(x: RenderTreeNode, v: Vec<RenderTreeNode>) -> (r: Vec<RenderTreeNode>)
    ensures
        renders_view(r@) == spec_insert_sorted(render_view(x), renders_view(v@)),
{
    let ghost xv = render_view(x);
    let ghost sv = renders_view(v@);
    proof {
        lemma_renders_view(v@);
        assert(sv.skip(0) =~= sv);
    }
    let n = v.len();
    let mut p: usize = 0;
    let mut found_spot = false;
    while p < n && !found_spot
        invariant
            p <= n,
            n == v@.len(),
            sv == renders_view(v@),
            sv.len() == n,
            forall|t: int| 0 <= t < n ==> sv[t] == render_view(v@[t]),
            xv == render_view(x),
            found_spot ==> p < n && !render_le(sv[p as int], xv),
            spec_insert_sorted(xv, sv) == sv.take(p as int) + spec_insert_sorted(
                xv,
                sv.skip(p as int),
            ),
        decreases n - p + (if found_spot { 0int } else { 1int }),
    {
        if render_le_exec(&v[p], &x) {
            proof {
                assert(sv.skip(p as int)[0] == sv[p as int]);
                assert(sv.skip(p as int).skip(1) =~= sv.skip(p as int + 1));
                assert(sv.take(p as int) + (seq![sv[p as int]] + spec_insert_sorted(
                    xv,
                    sv.skip(p as int + 1),
                )) =~= sv.take(p as int + 1) + spec_insert_sorted(xv, sv.skip(p as int + 1)));
            }
            p = p + 1;
        } else {
            found_spot = true;
        }
    }
    let mut v = v;
    v.insert(p, x);
    proof {
        if p < n {
            assert(sv.skip(p as int)[0] == sv[p as int]);
        }
        lemma_renders_view(v@);
        assert(renders_view(v@) =~= sv.take(p as int) + spec_insert_sorted(
            xv,
            sv.skip(p as int),
        ));
    }
    v
}

/// Sort one level of display nodes.
fn sort_level(v: Vec<RenderTreeNode>) -> (r: Vec<RenderTreeNode>)
    ensures
        renders_view(r@) == spec_sort_seq(renders_view(v@)),
{
    let ghost sv = renders_view(v@);
    proof {
        lemma_renders_view(v@);
    }
    let mut v = v;
    let mut out: Vec<RenderTreeNode> = Vec::new();
    proof {
        assert(renders_view(out@) =~= Seq::<SpecRender>::empty());
        assert(sv.skip(v@.len() as int) =~= Seq::<SpecRender>::empty());
    }
    while v.len() > 0
        invariant
            v@.len() <= sv.len(),
            sv == renders_view(v@).add(sv.skip(v@.len() as int)),
            forall|t: int| 0 <= t < v@.len() ==> sv[t] == render_view(v@[t]),
            renders_view(out@) == spec_sort_seq(sv.skip(v@.len() as int)),
        decreases v@.len(),
    {
        let ghost len0 = v@.len() as int;
        proof {
            lemma_renders_view(v@);
            assert(sv.skip(len0 - 1)[0] == sv[len0 - 1]);
            assert(sv.skip(len0 - 1).skip(1) =~= sv.skip(len0));
        }
        let x = v.pop().unwrap();
        out = insert_sorted(x, out);
        proof {
            lemma_renders_view(v@);
            assert(renders_view(v@) =~= sv.take(len0 - 1));
            assert(sv =~= renders_view(v@).add(sv.skip(len0 - 1)));
        }
    }
    proof {
        assert(sv.skip(0) =~= sv);
        assert(renders_view(v@) =~= Seq::<SpecRender>::empty());
    }
    out
}

/// Sort every level of the tree: directories before files, ties by name.
pub fn sort_by_name(node: &RenderTreeNode) -> (r: RenderTreeNode)
    ensures
        render_view(r) == spec_sort_node(render_view(*node)),
    decreases *node,
{
    let ghost nv = render_view(*node);
    let m = node.children.len();
    let mut kids: Vec<RenderTreeNode> = Vec::new();
    proof {
        lemma_renders_view(node.children@);
    }
    let mut k: usize = 0;
    while k < m
        invariant
            k <= m,
            m == node.children@.len(),
            nv == render_view(*node),
            nv.children.len() == m,
            forall|t: int| 0 <= t < m ==> nv.children[t] == render_view(node.children@[t]),
            kids@.len() == k,
            forall|t: int|
                0 <= t < k ==> render_view(kids@[t]) == spec_sort_node(nv.children[t]),
        decreases m - k,
    {
        let c = sort_by_name(&node.children[k]);
        kids.push(c);
        k = k + 1;
    }
    proof {
        lemma_renders_view(kids@);
        lemma_sort_each(nv.children);
        assert(renders_view(kids@) =~= spec_sort_each(nv.children));
    }
    let sorted = sort_level(kids);
    RenderTreeNode {
        is_dir: node.is_dir,
        name: node.name.clone(),
        hash: node.hash,
        compressed_size: node.compressed_size,
        uncompressed_size: node.uncompressed_size,
        belonging_to: node.belonging_to,
        children: sorted,
    }
}

/// A level is sorted when every pair respects the display order.
pub open spec fn sorted_level(s: Seq<SpecRender>) -> bool {
    forall|i: int, j: int| 0 <= i < j < s.len() ==> render_le(s[i], s[j])
}

/// The display order is total.
pub proof fn lemma_render_le_total(a: SpecRender, b: SpecRender)
    ensures
        render_le(a, b) || render_le(b, a),
{
    if a.is_dir == b.is_dir {
        crate::text::lemma_lex_le_total(a.name, b.name);
    }
}

/// The display order is transitive.
pub proof fn lemma_render_le_trans(a: SpecRender, b: SpecRender, c: SpecRender)
    requires
        render_le(a, b),
        render_le(b, c),
    ensures
        render_le(a, c),
{
    if a.is_dir == b.is_dir && b.is_dir == c.is_dir {
        crate::text::lemma_lex_le_trans(a.name, b.name, c.name);
    }
}

/// Inserting into a sorted level keeps it sorted and adds exactly the new
/// element to its contents.
pub proof fn lemma_insert_sorted(x: SpecRender, s: Seq<SpecRender>)
    requires
        sorted_level(s),
    ensures
        sorted_level(spec_insert_sorted(x, s)),
        spec_insert_sorted(x, s).to_multiset() == s.to_multiset().insert(x),
        spec_insert_sorted(x, s).len() == s.len() + 1,
    decreases s.len(),
{
    broadcast use vstd::seq_lib::group_to_multiset_ensures;

    let r = spec_insert_sorted(x, s);
    if s.len() == 0 {
        assert(seq![x] =~= Seq::<SpecRender>::empty().push(x));
        assert(r.to_multiset() =~= s.to_multiset().insert(x));
    } else if render_le(s[0], x) {
        assert forall|i: int, j: int| 0 <= i < j < s.skip(1).len() implies render_le(
            s.skip(1)[i],
            s.skip(1)[j],
        ) by {
            assert(s.skip(1)[i] == s[i + 1]);
            assert(s.skip(1)[j] == s[j + 1]);
        }
        lemma_insert_sorted(x, s.skip(1));
        let rest = spec_insert_sorted(x, s.skip(1));
        assert forall|i: int, j: int| 0 <= i < j < r.len() implies render_le(r[i], r[j]) by {
            if i == 0 {
                assert(r[j] == rest[j - 1]);
                assert(rest.to_multiset().count(rest[j - 1]) > 0);
                assert(rest.to_multiset() == s.skip(1).to_multiset().insert(x));
                if rest[j - 1] == x {
                    assert(render_le(s[0], x));
                } else {
                    assert(s.skip(1).to_multiset().count(rest[j - 1]) > 0);
                    let w = choose|w: int|
                        0 <= w < s.skip(1).len() && s.skip(1)[w] == rest[j - 1];
                    assert(s.skip(1)[w] == s[w + 1]);
                    assert(render_le(s[0], s[w + 1]));
                }
            } else {
                assert(r[i] == rest[i - 1]);
                assert(r[j] == rest[j - 1]);
            }
        }
        lemma_seq_concat_multiset(seq![s[0]], rest);
        assert(seq![s[0]].to_multiset() =~= Multiset::<SpecRender>::empty().insert(s[0]));
        assert((seq![s[0]] + s.skip(1)) =~= s);
        lemma_seq_concat_multiset(seq![s[0]], s.skip(1));
        assert(r.to_multiset() =~= s.to_multiset().insert(x));
    } else {
        lemma_render_le_total(s[0], x);
        assert forall|i: int, j: int| 0 <= i < j < r.len() implies render_le(r[i], r[j]) by {
            if i == 0 {
                assert(r[j] == s[j - 1]);
                if j == 1 {
                } else {
                    lemma_render_le_trans(x, s[0], s[j - 1]);
                }
            } else {
                assert(r[i] == s[i - 1]);
                assert(r[j] == s[j - 1]);
            }
        }
        lemma_seq_concat_multiset(seq![x], s);
        assert(seq![x].to_multiset() =~= Multiset::<SpecRender>::empty().insert(x));
        assert(r.to_multiset() =~= s.to_multiset().insert(x));
    }
}

/// The contents of a concatenation: the two contents added.
proof fn lemma_seq_concat_multiset(a: Seq<SpecRender>, b: Seq<SpecRender>)
    ensures
        (a + b).to_multiset() == a.to_multiset().add(b.to_multiset()),
{
    vstd::seq_lib::lemma_multiset_commutative(a, b);
}

/// Sorting a level gives a sorted permutation of it.
pub proof fn lemma_sort_seq(s: Seq<SpecRender>)
    ensures
        sorted_level(spec_sort_seq(s)),
        spec_sort_seq(s).to_multiset() == s.to_multiset(),
        spec_sort_seq(s).len() == s.len(),
    decreases s.len(),
{
    broadcast use vstd::seq_lib::group_to_multiset_ensures;

    if s.len() == 0 {
    } else {
        lemma_sort_seq(s.skip(1));
        lemma_insert_sorted(s[0], spec_sort_seq(s.skip(1)));
        assert(s =~= seq![s[0]] + s.skip(1));
        lemma_seq_concat_multiset(seq![s[0]], s.skip(1));
        assert(seq![s[0]].to_multiset() =~= Multiset::<SpecRender>::empty().insert(s[0]));
        assert(s.to_multiset() =~= s.skip(1).to_multiset().insert(s[0]));
    }
}

/// After `sort_by_name`, every level of the tree is sorted, and every level
/// holds the same nodes (recursively sorted) as before.
pub open spec fn spec_tree_sorted(n: SpecRender) -> bool
    decreases n,
{
    sorted_level(n.children) && (forall|i: int|
        0 <= i < n.children.len() ==> spec_tree_sorted(#[trigger] n.children[i]))
}

/// The tree `spec_sort_node` returns is sorted at every level, and each
/// level is a permutation of the recursively sorted originals.
pub proof fn lemma_sort_node(n: SpecRender)
    ensures
        spec_tree_sorted(spec_sort_node(n)),
        spec_sort_node(n).children.to_multiset() == spec_sort_each(n.children).to_multiset(),
        spec_sort_node(n).is_dir == n.is_dir,
        spec_sort_node(n).name == n.name,
        spec_sort_node(n).hash == n.hash,
        spec_sort_node(n).compressed_size == n.compressed_size,
        spec_sort_node(n).uncompressed_size == n.uncompressed_size,
        spec_sort_node(n).belonging_to == n.belonging_to,
    decreases n,
{
    lemma_sort_each(n.children);
    lemma_sort_seq(spec_sort_each(n.children));
    let sorted = spec_sort_seq(spec_sort_each(n.children));
    broadcast use vstd::seq_lib::group_to_multiset_ensures;

    assert forall|i: int| 0 <= i < sorted.len() implies spec_tree_sorted(
        #[trigger] sorted[i],
    ) by {
        assert(sorted.to_multiset().count(sorted[i]) > 0);
        assert(spec_sort_each(n.children).to_multiset().count(sorted[i]) > 0);
        let w = choose|w: int|
            0 <= w < spec_sort_each(n.children).len() && spec_sort_each(n.children)[w]
                == sorted[i];
        assert(spec_sort_each(n.children)[w] == spec_sort_node(n.children[w]));
        lemma_sort_node(n.children[w]);
    }
}

// ------------------------------------------------------------------
// Render options and the rendering entry point.
// ------------------------------------------------------------------

/// How the display tree should be prepared. An unset option falls back to
/// its default: collapse directories and sort by name, but not by size.
#[derive(Debug, Clone)]
pub struct RenderTreeOptions {
    pub merge_directories: Option<bool>,
    pub sort_by_name: Option<bool>,
    pub sort_by_size: Option<bool>,
}

impl RenderTreeOptions {
    /// Options with each choice made explicitly; `None` means the default.
    pub fn new(
        merge_directories: Option<bool>,
        sort_by_name: Option<bool>,
        sort_by_size: Option<bool>,
    ) -> (r: RenderTreeOptions)
        ensures
            r.merge_directories == merge_directories,
            r.sort_by_name == sort_by_name,
            r.sort_by_size == sort_by_size,
    {
        RenderTreeOptions { merge_directories, sort_by_name, sort_by_size }
    }

    pub fn merge_directories(&self) -> (r: bool)
        ensures
            r == self.spec_merge_directories(),
    {
        match self.merge_directories {
            Some(b) => b,
            None => true,
        }
    }

    pub open spec fn spec_merge_directories(&self) -> bool {
        match self.merge_directories {
            Option::Some(b) => b,
            Option::None => true,
        }
    }

    pub fn sort_by_name(&self) -> (r: bool)
        ensures
            r == self.spec_sort_by_name(),
    {
        match self.sort_by_name {
            Some(b) => b,
            None => true,
        }
    }

    pub open spec fn spec_sort_by_name(&self) -> bool {
        match self.sort_by_name {
            Option::Some(b) => b,
            Option::None => true,
        }
    }

    pub fn sort_by_size(&self) -> (r: bool)
        ensures
            r == self.spec_sort_by_size(),
    {
        match self.sort_by_size {
            Some(b) => b,
            None => false,
        }
    }

    pub open spec fn spec_sort_by_size(&self) -> bool {
        match self.sort_by_size {
            Option::Some(b) => b,
            Option::None => false,
        }
    }
}

impl Default for RenderTreeOptions {
    /// Collapse directories and sort by name; leave size order off.
    fn default() -> (r: RenderTreeOptions)
        ensures
            r.merge_directories == Option::Some(true),
            r.sort_by_name == Option::Some(true),
            r.sort_by_size == Option::Some(false),
    {
        RenderTreeOptions {
            merge_directories: Some(true),
            sort_by_name: Some(true),
            sort_by_size: Some(false),
        }
    }
}

/// The display tree a file tree renders to under `options`: conversion, then
/// optional directory collapsing, then optional sorting (name order takes
/// precedence over size order, which the engine does not offer), then the
/// bottom-up size rollup.
pub open spec fn spec_render_tree(root: SpecNode, options: RenderTreeOptions) -> SpecRender {
    let converted = spec_convert(root);
    let merged = if options.spec_merge_directories() {
        spec_merge_dirs(converted)
    } else {
        converted
    };
    let sorted = if options.spec_sort_by_name() {
        spec_sort_node(merged)
    } else {
        merged
    };
    spec_apply_sizes(sorted)
}

impl RenderTreeNode {
    /// Render `file_tree` for display under `options`.
    pub fn try_from_file_tree(file_tree: FileTree, options: &RenderTreeOptions) -> (r: Result<
        RenderTreeNode,
        Error,
    >)
        ensures
            match r {
                Ok(node) => render_view(node) == spec_render_tree(
                    node_view(file_tree.root),
                    *options,
                ),
                Err(_) => false,
            },
    {
        let converted = convert_to_render_node(&file_tree.root);
        let merged = if options.merge_directories() {
            merge_nested_dirs(&converted)
        } else {
            converted
        };
        let sorted = if options.sort_by_name() {
            sort_by_name(&merged)
        } else {
            merged
        };
        Ok(apply_dir_size(&sorted))
    }
}

} // verus!
